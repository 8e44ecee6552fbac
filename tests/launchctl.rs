use launchd_core::error::AppError;
use launchd_core::launchctl::{
    bootout_result, bootstrap_result, classify, command_result, gui_target, parse_list_output,
    parse_uid, service_target, Outcome,
};

#[test]
fn test_parse_list_output_basic() {
    let output = "PID\tStatus\tLabel\n\
                   1234\t0\tcom.example.running\n\
                   -\t78\tcom.example.stopped\n";
    let result = parse_list_output(output);
    assert_eq!(result.len(), 2);

    assert_eq!(result[0].label, "com.example.running");
    assert_eq!(result[0].pid, Some(1234));
    assert_eq!(result[0].last_exit_code, Some(0));

    assert_eq!(result[1].label, "com.example.stopped");
    assert_eq!(result[1].pid, None);
    assert_eq!(result[1].last_exit_code, Some(78));
}

#[test]
fn test_parse_list_output_empty() {
    let output = "PID\tStatus\tLabel\n";
    let result = parse_list_output(output);
    assert_eq!(result.len(), 0);
}

#[test]
fn test_parse_list_output_malformed_lines() {
    let output = "PID\tStatus\tLabel\n\
                   bad line\n\
                   1234\t0\tcom.example.test\n";
    let result = parse_list_output(output);
    assert_eq!(result.len(), 1);
    assert_eq!(result[0].label, "com.example.test");
}

#[test]
fn listing_keeps_row_order_and_trims_fields() {
    let output = "PID\tStatus\tLabel\r\n 42 \t-9\t  b.second \r\nx\t\t\n\n-\tnope\ta.first\textra\n";
    let result = parse_list_output(output);
    assert_eq!(result.len(), 2);
    assert_eq!(result[0].label, "b.second");
    assert_eq!(result[0].pid, Some(42));
    assert_eq!(result[0].last_exit_code, Some(-9));
    assert_eq!(result[1].label, "a.first");
    assert_eq!(result[1].pid, None);
    assert_eq!(result[1].last_exit_code, None);
}

#[test]
fn listing_without_header_text_is_empty() {
    assert_eq!(parse_list_output("").len(), 0);
    assert_eq!(parse_list_output("1\t0\tonly.header.line").len(), 0);
}

#[test]
fn listing_number_edges() {
    let output = "h\n+7\t-2147483648\ta\n4294967296\t2147483648\tb\n4294967295\t+5\tc\n";
    let result = parse_list_output(output);
    assert_eq!(result.len(), 3);
    assert_eq!(result[0].pid, Some(7));
    assert_eq!(result[0].last_exit_code, Some(i32::MIN));
    assert_eq!(result[1].pid, None);
    assert_eq!(result[1].last_exit_code, None);
    assert_eq!(result[2].pid, Some(u32::MAX));
    assert_eq!(result[2].last_exit_code, Some(5));
}

#[test]
fn uid_and_targets() {
    assert_eq!(parse_uid("501\n"), Some(501));
    assert_eq!(parse_uid("abc"), None);
    assert_eq!(gui_target(501), "gui/501");
    assert_eq!(gui_target(0), "gui/0");
    assert_eq!(service_target(501, "com.example.a"), "gui/501/com.example.a");
}

#[test]
fn bootstrap_twice_is_not_an_error() {
    assert!(bootstrap_result("/p.plist", true, "").is_ok());
    let second = "Bootstrap failed: 5: Input/output error\nservice already loaded";
    assert!(bootstrap_result("/p.plist", false, second).is_ok());
}

#[test]
fn bootstrap_failure_message_and_hint() {
    match bootstrap_result("/p.plist", false, "5: Input/output error") {
        Err(AppError::Launchctl(m)) => assert_eq!(
            m,
            "Bootstrap failed for /p.plist: 5: Input/output error Try re-running the command as root for richer errors."
        ),
        other => panic!("unexpected {:?}", other),
    }
    match bootstrap_result("/p.plist", false, "boom") {
        Err(AppError::Launchctl(m)) => assert_eq!(m, "Bootstrap failed for /p.plist: boom"),
        other => panic!("unexpected {:?}", other),
    }
}

#[test]
fn bootout_of_unloaded_job_is_not_an_error() {
    assert!(bootout_result(false, "Boot-out failed: 3: No such process").is_ok());
    assert!(bootout_result(false, "service not loaded").is_ok());
    assert!(bootout_result(false, "Could not find specified service").is_ok());
    match bootout_result(false, "denied") {
        Err(AppError::Launchctl(m)) => assert_eq!(m, "launchctl bootout failed: denied"),
        other => panic!("unexpected {:?}", other),
    }
}

#[test]
fn plain_commands_fail_on_any_error() {
    assert!(command_result("kickstart", true, "").is_ok());
    match command_result("kickstart", false, "already loaded") {
        Err(AppError::Launchctl(m)) => {
            assert_eq!(m, "launchctl kickstart failed: already loaded")
        }
        other => panic!("unexpected {:?}", other),
    }
}

#[test]
fn classify_outcomes() {
    let pats = ["not loaded", "No such process"];
    assert_eq!(classify(true, "not loaded", &pats), Outcome::Success);
    assert_eq!(classify(false, "x not loaded y", &pats), Outcome::BenignNoOp);
    assert_eq!(classify(false, "other", &pats), Outcome::Fatal);
    assert_eq!(classify(false, "", &[]), Outcome::Fatal);
}

#[test]
fn error_messages() {
    assert_eq!(AppError::Launchctl("x".to_string()).message(), "launchctl error: x");
    assert_eq!(AppError::Plist("y".to_string()).message(), "plist error: y");
    assert_eq!(AppError::Io("z".to_string()).message(), "io error: z");
    assert_eq!(AppError::NotFound("/f".to_string()).message(), "file not found: /f");
}
