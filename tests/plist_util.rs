use launchd_core::error::AppError;
use launchd_core::plist_util::{
    file_stem_of, parse_plist, plist_value_of, read_raw_plist, serialize, raw_plist_bytes,
    PlistValue,
};
use launchd_core::types::{CalendarInterval, PlistConfig};

fn empty_config(label: &str) -> PlistConfig {
    PlistConfig {
        label: label.to_string(),
        program: None,
        program_arguments: None,
        run_at_load: None,
        keep_alive: None,
        start_interval: None,
        start_calendar_interval: None,
        standard_out_path: None,
        standard_error_path: None,
        working_directory: None,
        environment_variables: None,
        disabled: None,
        raw_xml: String::new(),
    }
}

#[test]
fn test_parse_simple_plist() {
    let xml = r#"<?xml version="1.0" encoding="UTF-8"?>
<!DOCTYPE plist PUBLIC "-//Apple//DTD PLIST 1.0//EN" "http://www.apple.com/DTDs/PropertyList-1.0.dtd">
<plist version="1.0">
<dict>
    <key>Label</key>
    <string>com.example.test</string>
    <key>ProgramArguments</key>
    <array>
        <string>/usr/bin/true</string>
    </array>
    <key>RunAtLoad</key>
    <true/>
</dict>
</plist>"#;
    let config = parse_plist("/tmp/x.plist", xml.as_bytes()).unwrap();
    assert_eq!(config.label, "com.example.test");
    assert_eq!(
        config.program_arguments,
        Some(vec!["/usr/bin/true".to_string()])
    );
    assert_eq!(config.run_at_load, Some(true));
    assert_eq!(config.keep_alive, None);
    assert_eq!(config.raw_xml, xml);
}

#[test]
fn test_parse_plist_with_calendar_interval() {
    let xml = r#"<?xml version="1.0" encoding="UTF-8"?>
<!DOCTYPE plist PUBLIC "-//Apple//DTD PLIST 1.0//EN" "http://www.apple.com/DTDs/PropertyList-1.0.dtd">
<plist version="1.0">
<dict>
    <key>Label</key>
    <string>com.example.cron</string>
    <key>ProgramArguments</key>
    <array>
        <string>/usr/bin/true</string>
    </array>
    <key>StartCalendarInterval</key>
    <dict>
        <key>Hour</key>
        <integer>3</integer>
        <key>Minute</key>
        <integer>30</integer>
    </dict>
</dict>
</plist>"#;
    let config = parse_plist("/tmp/cron.plist", xml.as_bytes()).unwrap();
    let intervals = config.start_calendar_interval.unwrap();
    assert_eq!(intervals.len(), 1);
    assert_eq!(intervals[0].hour, Some(3));
    assert_eq!(intervals[0].minute, Some(30));
}

#[test]
fn calendar_interval_only_label_and_dictionary() {
    let xml = r#"<?xml version="1.0" encoding="UTF-8"?>
<plist version="1.0">
<dict>
    <key>Label</key>
    <string>com.example.only</string>
    <key>StartCalendarInterval</key>
    <dict>
        <key>Hour</key>
        <integer>3</integer>
        <key>Minute</key>
        <integer>30</integer>
    </dict>
</dict>
</plist>"#;
    let config = parse_plist("/tmp/only.plist", xml.as_bytes()).unwrap();
    let intervals = config.start_calendar_interval.unwrap();
    assert_eq!(intervals.len(), 1);
    assert_eq!(
        intervals[0],
        CalendarInterval { minute: Some(30), hour: Some(3), day: None, weekday: None, month: None }
    );
    assert_eq!(config.program, None);
    assert_eq!(config.program_arguments, None);
    assert_eq!(config.environment_variables, None);
}

#[test]
fn test_write_and_read_plist() {
    let config = PlistConfig {
        label: "com.example.roundtrip".to_string(),
        program: Some("/usr/bin/echo".to_string()),
        program_arguments: Some(vec!["/usr/bin/echo".to_string(), "hello".to_string()]),
        run_at_load: Some(true),
        keep_alive: Some(false),
        start_interval: Some(300),
        start_calendar_interval: None,
        standard_out_path: Some("/tmp/test.log".to_string()),
        standard_error_path: None,
        working_directory: Some("/tmp".to_string()),
        environment_variables: Some(vec![("FOO".to_string(), "bar".to_string())]),
        disabled: None,
        raw_xml: String::new(),
    };

    let bytes = serialize(&config).unwrap();
    let parsed = parse_plist("/tmp/roundtrip.plist", &bytes).unwrap();

    assert_eq!(parsed.label, "com.example.roundtrip");
    assert_eq!(parsed.program, Some("/usr/bin/echo".to_string()));
    assert_eq!(parsed.run_at_load, Some(true));
    assert_eq!(parsed.keep_alive, Some(false));
    assert_eq!(parsed.start_interval, Some(300));
    assert_eq!(parsed.standard_out_path, Some("/tmp/test.log".to_string()));
    assert_eq!(parsed.working_directory, Some("/tmp".to_string()));
    assert_eq!(
        parsed.environment_variables,
        Some(vec![("FOO".to_string(), "bar".to_string())])
    );
}

#[test]
fn round_trip_of_every_field() {
    let mut config = empty_config("com.example.all");
    config.program_arguments = Some(vec![]);
    config.environment_variables = Some(vec![]);
    config.standard_error_path = Some("/tmp/err.log".to_string());
    config.disabled = Some(true);
    config.start_calendar_interval = Some(vec![
        CalendarInterval { minute: Some(0), hour: None, day: Some(1), weekday: None, month: Some(12) },
        CalendarInterval { minute: None, hour: None, day: None, weekday: Some(7), month: None },
    ]);
    let parsed = parse_plist("/x/y.plist", &serialize(&config).unwrap()).unwrap();
    assert_eq!(parsed.label, "com.example.all");
    assert_eq!(parsed.program, None);
    assert_eq!(parsed.program_arguments, Some(vec![]));
    assert_eq!(parsed.environment_variables, Some(vec![]));
    assert_eq!(parsed.standard_error_path, Some("/tmp/err.log".to_string()));
    assert_eq!(parsed.disabled, Some(true));
    assert_eq!(parsed.run_at_load, None);
    assert_eq!(parsed.start_calendar_interval, config.start_calendar_interval);

    let bare = parse_plist("/x/z.plist", &serialize(&empty_config("only")).unwrap()).unwrap();
    assert_eq!(bare.label, "only");
    assert_eq!(bare.environment_variables, None);
    assert_eq!(bare.start_calendar_interval, None);
}

#[test]
fn serialized_form_is_xml_and_omits_absent_fields() {
    let text = String::from_utf8(serialize(&empty_config("com.example.min")).unwrap()).unwrap();
    assert!(text.starts_with("<?xml"));
    assert!(text.contains("<key>Label</key>"));
    assert!(text.contains("com.example.min"));
    assert!(!text.contains("RunAtLoad"));
    match plist_value_of(&empty_config("a")) {
        PlistValue::Dictionary(d) => {
            assert_eq!(d.len(), 1);
            assert_eq!(d[0].0, "Label");
        }
        _ => panic!("not a dictionary"),
    }
}

#[test]
fn label_falls_back_to_file_stem() {
    let xml = "<?xml version=\"1.0\"?><plist version=\"1.0\"><dict><key>Program</key><string>/bin/ls</string></dict></plist>";
    let config = parse_plist("/Users/me/Library/LaunchAgents/com.me.tool.plist", xml.as_bytes()).unwrap();
    assert_eq!(config.label, "com.me.tool");
    assert_eq!(config.program, Some("/bin/ls".to_string()));
}

#[test]
fn calendar_array_shapes() {
    let xml = "<?xml version=\"1.0\"?><plist version=\"1.0\"><dict><key>Label</key><string>c</string>\
<key>StartCalendarInterval</key><array><string>x</string><dict><key>Weekday</key><integer>2</integer></dict></array>\
<key>ProgramArguments</key><array><string>a</string><integer>1</integer><string>b</string></array></dict></plist>";
    let config = parse_plist("/c.plist", xml.as_bytes()).unwrap();
    let iv = config.start_calendar_interval.unwrap();
    assert_eq!(iv.len(), 1);
    assert_eq!(iv[0].weekday, Some(2));
    assert_eq!(config.program_arguments, Some(vec!["a".to_string(), "b".to_string()]));

    let none = "<?xml version=\"1.0\"?><plist version=\"1.0\"><dict><key>Label</key><string>c</string>\
<key>StartCalendarInterval</key><array><string>x</string></array></dict></plist>";
    assert_eq!(parse_plist("/c.plist", none.as_bytes()).unwrap().start_calendar_interval, None);
}

#[test]
fn parse_errors() {
    match parse_plist("/bad.plist", b"not a plist at all") {
        Err(AppError::Plist(m)) => assert!(m.starts_with("/bad.plist: ")),
        other => panic!("unexpected {:?}", other),
    }
    let arr = "<?xml version=\"1.0\"?><plist version=\"1.0\"><array><string>a</string></array></plist>";
    match parse_plist("/arr.plist", arr.as_bytes()) {
        Err(AppError::Plist(m)) => assert_eq!(m, "/arr.plist: not a dictionary"),
        other => panic!("unexpected {:?}", other),
    }
}

#[test]
fn raw_text_of_binary_plist_is_xml() {
    let mut dict = plist::Dictionary::new();
    dict.insert("Label".to_string(), plist::Value::String("com.example.bin".to_string()));
    let mut bytes: Vec<u8> = Vec::new();
    plist::Value::Dictionary(dict).to_writer_binary(&mut bytes).unwrap();
    assert!(bytes.starts_with(b"bplist"));
    let raw = read_raw_plist(&bytes).unwrap();
    assert!(raw.contains("<?xml"));
    assert!(raw.contains("com.example.bin"));
    let config = parse_plist("/b.plist", &bytes).unwrap();
    assert_eq!(config.label, "com.example.bin");
    assert_eq!(config.raw_xml, raw);
    assert!(read_raw_plist(b"garbage").is_err());
    assert_eq!(read_raw_plist(b"<x").unwrap(), "<x");
}

#[test]
fn test_write_raw_plist_valid() {
    let xml = r#"<?xml version="1.0" encoding="UTF-8"?>
<!DOCTYPE plist PUBLIC "-//Apple//DTD PLIST 1.0//EN" "http://www.apple.com/DTDs/PropertyList-1.0.dtd">
<plist version="1.0">
<dict>
    <key>Label</key>
    <string>com.example.raw</string>
</dict>
</plist>"#;
    let content = String::from_utf8(raw_plist_bytes(xml).unwrap()).unwrap();
    assert!(content.contains("com.example.raw"));
    assert_eq!(content, xml);
}

#[test]
fn test_write_raw_plist_invalid() {
    let invalid = "this is not valid plist xml";
    let result = raw_plist_bytes(invalid);
    assert!(result.is_err());
    match result {
        Err(AppError::Plist(m)) => assert!(m.starts_with("invalid plist XML: ")),
        other => panic!("unexpected {:?}", other),
    }
}

#[test]
fn file_stems() {
    assert_eq!(file_stem_of("/a/b/com.x.y.plist"), "com.x.y");
    assert_eq!(file_stem_of("noext"), "noext");
    assert_eq!(file_stem_of("/dir/.hidden"), ".hidden");
    assert_eq!(file_stem_of("/dir/"), "dir");
    assert_eq!(file_stem_of("/a/b.plist//"), "b");
    assert_eq!(file_stem_of("/"), "");
}
