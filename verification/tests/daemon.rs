use qingluan::daemon::{
    create_task_response, health_response, task_events_response, task_queued_response,
    DaemonConfig,
};
use qingluan::protocol::{HealthResponse, TaskEvent, TaskId};
use qingluan::sandbox::{
    command_result, cube_not_implemented_message, local_sandbox_handle, shell_invocation,
    CubeConfig, CubeSandboxProvider,
};

#[test]
fn daemon_listens_on_loopback_port_47129() {
    let config = DaemonConfig::default();
    assert_eq!(config.host, "127.0.0.1");
    assert_eq!(config.port, 47129);
    assert_eq!(config.listen_address(), "127.0.0.1:47129");
}

#[test]
fn health_reports_ok_and_version() {
    let r = health_response("0.1.0".to_string());
    assert!(r.ok);
    assert!(r.error.is_none());
    assert_eq!(r.data, Some(HealthResponse { ok: true, version: "0.1.0".to_string() }));
}

#[test]
fn queued_response_carries_the_task_id() {
    let r = task_queued_response("t-1".to_string());
    assert!(r.ok);
    assert_eq!(r.data, Some(TaskEvent::TaskQueued { task_id: TaskId("t-1".to_string()) }));
}

#[test]
fn created_tasks_get_fresh_v7_uuids() {
    let a = create_task_response();
    let b = create_task_response();
    let id_of = |r: &qingluan::protocol::ApiResponse<TaskEvent>| match &r.data {
        Some(TaskEvent::TaskQueued { task_id }) => task_id.0.clone(),
        other => panic!("unexpected data {other:?}"),
    };
    let (x, y) = (id_of(&a), id_of(&b));
    assert!(a.ok && b.ok);
    assert_eq!(x.len(), 36);
    let chars: Vec<char> = x.chars().collect();
    for i in [8, 13, 18, 23] {
        assert_eq!(chars[i], '-');
    }
    assert_eq!(chars[14], '7');
    assert!(x.chars().all(|c| c == '-' || c.is_ascii_digit() || ('a'..='f').contains(&c)));
    assert_ne!(x, y);
}

#[test]
fn task_events_are_not_implemented_yet() {
    let r = task_events_response::<String>("abc");
    assert!(!r.ok);
    assert!(r.data.is_none());
    let e = r.error.unwrap();
    assert_eq!(e.code, "events_not_implemented");
    assert_eq!(e.message, "SSE event stream for task abc not yet implemented");
}

#[test]
fn local_sandbox_runs_through_the_platform_shell() {
    let (program, args) = shell_invocation("echo hi", false);
    assert_eq!(program, "sh");
    assert_eq!(args, vec!["-c".to_string(), "echo hi".to_string()]);
    let (program, args) = shell_invocation("dir", true);
    assert_eq!(program, "cmd");
    assert_eq!(args, vec!["/C".to_string(), "dir".to_string()]);
    assert_eq!(local_sandbox_handle().id, "local");
}

#[test]
fn command_results_decode_output_and_default_the_exit_code() {
    let r = command_result(Some(3), b"out\n", b"err");
    assert_eq!(r.exit_code, 3);
    assert_eq!(r.stdout, "out\n");
    assert_eq!(r.stderr, "err");
    let r = command_result(None, &[0x68, 0xff, 0x69], "é".as_bytes());
    assert_eq!(r.exit_code, -1);
    assert_eq!(r.stdout, "h\u{FFFD}i");
    assert_eq!(r.stderr, "é");
}

#[test]
fn cube_provider_is_pending() {
    let config = CubeConfig {
        endpoint: "https://cube".to_string(),
        api_key: "k".to_string(),
        template: "t".to_string(),
    };
    let p = CubeSandboxProvider::new(config.clone());
    assert_eq!(p.config, config);
    assert_eq!(
        cube_not_implemented_message(),
        "cube_provider_not_implemented: CubeSandbox integration is pending"
    );
}

#[test]
fn api_responses_are_either_data_or_error() {
    let ok = qingluan::protocol::ApiResponse::success(7u32);
    assert!(ok.ok);
    assert_eq!(ok.data, Some(7));
    assert!(ok.error.is_none());
    let err = qingluan::protocol::ApiResponse::<u32>::error("bad".to_string(), "went wrong".to_string());
    assert!(!err.ok);
    assert!(err.data.is_none());
    let e = err.error.unwrap();
    assert_eq!((e.code.as_str(), e.message.as_str()), ("bad", "went wrong"));
}

#[test]
fn task_ids_display_as_their_text() {
    assert_eq!(TaskId("abc-1".to_string()).to_display_string(), "abc-1");
    assert_eq!(qingluan::version(), "0.1.0");
}
