use launchd_core::commands::{
    control_plan, next_after, ControlCall, ControlOp, ControlStep,
    check_user_agent, ensure_user_agent, get_job_detail, get_user_agents_dir, job_source_of, list_jobs,
    needs_bootstrap, service_state,
};
use launchd_core::error::AppError;
use launchd_core::launchctl::LoadedService;
use launchd_core::types::{JobSource, JobStatus};

fn svc(label: &str, pid: Option<u32>, code: Option<i32>) -> LoadedService {
    LoadedService { label: label.to_string(), pid, last_exit_code: code }
}

fn job_xml(label: &str) -> Vec<u8> {
    format!(
        "<?xml version=\"1.0\"?><plist version=\"1.0\"><dict><key>Label</key><string>{}</string></dict></plist>",
        label
    )
    .into_bytes()
}

#[test]
fn user_agent_gate() {
    let dir = "/Users/me/Library/LaunchAgents";
    assert!(check_user_agent("/Users/me/Library/LaunchAgents/a.plist", dir).is_ok());
    assert!(check_user_agent("/Users/me/Library/LaunchAgentsX", dir).is_ok());
    match check_user_agent("/Library/LaunchDaemons/a.plist", dir) {
        Err(AppError::Launchctl(m)) => assert!(m.starts_with("Cannot start/stop system agents")),
        other => panic!("unexpected {:?}", other),
    }
    assert!(check_user_agent("/Users/me/Library", dir).is_err());
}

#[test]
fn agents_dir_under_home() {
    assert_eq!(get_user_agents_dir("/Users/me"), "/Users/me/Library/LaunchAgents");
    assert_eq!(get_user_agents_dir("/Users/me/"), "/Users/me/Library/LaunchAgents");
    assert_eq!(get_user_agents_dir(""), "Library/LaunchAgents");
}

#[test]
fn sources_by_path() {
    assert_eq!(job_source_of("/Library/LaunchDaemons/a.plist"), JobSource::SystemDaemon);
    assert_eq!(job_source_of("/System/Library/LaunchDaemons/a.plist"), JobSource::SystemDaemon);
    assert_eq!(job_source_of("/Library/LaunchAgents/a.plist"), JobSource::SystemAgent);
    assert_eq!(job_source_of("/Users/me/Library/LaunchAgents/a.plist"), JobSource::UserAgent);
}

#[test]
fn states_from_loaded_services() {
    let loaded = vec![svc("a", Some(10), Some(0)), svc("b", None, Some(78)), svc("a", None, None)];
    assert_eq!(service_state(&loaded, "a"), (JobStatus::Running, Some(10), Some(0)));
    assert_eq!(service_state(&loaded, "b"), (JobStatus::Stopped, None, Some(78)));
    assert_eq!(service_state(&loaded, "c"), (JobStatus::Stopped, None, None));
    assert!(!needs_bootstrap(&loaded, "b"));
    assert!(needs_bootstrap(&loaded, "c"));
}

#[test]
fn job_detail() {
    let loaded = vec![svc("com.x", Some(5), Some(0))];
    match get_job_detail("/nope.plist".to_string(), None, &loaded) {
        Err(AppError::NotFound(p)) => assert_eq!(p, "/nope.plist"),
        other => panic!("unexpected {:?}", other),
    }
    let job = get_job_detail("/Library/LaunchDaemons/com.x.plist".to_string(), Some(job_xml("com.x")), &loaded)
        .unwrap();
    assert_eq!(job.label, "com.x");
    assert_eq!(job.source, JobSource::SystemDaemon);
    assert_eq!(job.status, JobStatus::Running);
    assert_eq!(job.pid, Some(5));
    assert!(get_job_detail("/b.plist".to_string(), Some(b"junk".to_vec()), &loaded).is_err());
}

#[test]
fn listing_merges_and_sorts() {
    let files = vec![
        ("/u/zeta.plist".to_string(), JobSource::UserAgent, job_xml("zeta")),
        ("/u/bad.plist".to_string(), JobSource::UserAgent, b"junk".to_vec()),
        ("/Library/LaunchAgents/alpha.plist".to_string(), JobSource::SystemAgent, job_xml("alpha")),
        ("/u/Mid.plist".to_string(), JobSource::UserAgent, job_xml("Mid")),
    ];
    let loaded = vec![svc("alpha", None, Some(1)), svc("zeta", Some(9), Some(0))];
    let entries = list_jobs(&files, &loaded);
    let labels: Vec<&str> = entries.iter().map(|e| e.label.as_str()).collect();
    assert_eq!(labels, vec!["Mid", "alpha", "zeta"]);
    assert_eq!(entries[0].status, JobStatus::Stopped);
    assert_eq!(entries[0].pid, None);
    assert_eq!(entries[1].source, JobSource::SystemAgent);
    assert_eq!(entries[1].last_exit_code, Some(1));
    assert_eq!(entries[2].status, JobStatus::Running);
    assert_eq!(entries[2].pid, Some(9));
    assert_eq!(list_jobs(&vec![], &loaded).len(), 0);
}

#[test]
fn control_plans() {
    let start = control_plan(ControlOp::Start, true);
    assert_eq!(
        start,
        vec![
            ControlStep { call: ControlCall::Bootout, best_effort: true },
            ControlStep { call: ControlCall::Bootstrap, best_effort: false },
        ]
    );
    assert_eq!(control_plan(ControlOp::Restart, false), start);
    assert_eq!(
        control_plan(ControlOp::Stop, true),
        vec![ControlStep { call: ControlCall::Bootout, best_effort: false }]
    );
    assert_eq!(
        control_plan(ControlOp::Kickstart, true),
        vec![ControlStep { call: ControlCall::Kickstart, best_effort: false }]
    );
    assert_eq!(control_plan(ControlOp::Kickstart, false).len(), 2);
    assert_eq!(control_plan(ControlOp::Delete, false)[1].call, ControlCall::Disable);

    let err = || Err(AppError::Launchctl("x".to_string()));
    assert!(next_after(start[0], err(), false).is_none());
    assert!(matches!(next_after(start[1], err(), true), Some(Err(AppError::Launchctl(_)))));
    assert!(matches!(next_after(start[1], Ok(()), true), Some(Ok(()))));
}

#[test]
fn gate_uses_the_home_directory() {
    assert!(ensure_user_agent("/Library/LaunchDaemons/com.x.plist").is_err());
    if let Some(home) = dirs::home_dir().and_then(|p| p.to_str().map(String::from)) {
        let path = format!("{}/com.x.plist", get_user_agents_dir(&home));
        assert!(ensure_user_agent(&path).is_ok());
    }
}
