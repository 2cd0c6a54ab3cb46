use qingluan::catalog::{build_catalog, RegisteredWorkspace, RootProbe};
use qingluan::sessions::{
    extract_text, summarize_session_entries, ContentBlock, ContentField, LineEntry, MessageBody,
    MessageField, ScannedSession, SessionLine,
};
use qingluan::workspace::{
    interpret_workspace_list, parse_workspace_list_output, WorkspaceError,
    WORKSPACE_LIST_TEMPLATE,
};

fn s(x: &str) -> Option<String> {
    Some(x.to_owned())
}

fn header(id: Option<&str>, cwd: Option<&str>, ts: &str) -> SessionLine {
    SessionLine::Entry(LineEntry {
        entry_type: s("session"),
        id: id.map(str::to_owned),
        cwd: cwd.map(str::to_owned),
        timestamp: s(ts),
        name: None,
        message: MessageField::Invalid,
    })
}

fn std_header() -> SessionLine {
    header(Some("s1"), Some("/w"), "2026-08-16T10:00:00.000Z")
}

fn info(name: Option<&str>) -> SessionLine {
    SessionLine::Entry(LineEntry {
        entry_type: s("session_info"),
        id: s("i"),
        cwd: None,
        timestamp: s("2026-08-16T10:02:00.000Z"),
        name: name.map(str::to_owned),
        message: MessageField::Invalid,
    })
}

fn message(role: Option<&str>, content: ContentField, ms: Option<u64>, ts: &str) -> SessionLine {
    SessionLine::Entry(LineEntry {
        entry_type: s("message"),
        id: s("m"),
        cwd: None,
        timestamp: s(ts),
        name: None,
        message: MessageField::Object(MessageBody {
            role: role.map(str::to_owned),
            content,
            timestamp_ms: ms,
        }),
    })
}

fn text(t: &str) -> ContentField {
    ContentField::Text(t.to_owned())
}

fn blocks(bs: &[(&str, &str)]) -> ContentField {
    ContentField::Blocks(
        bs.iter()
            .map(|(k, t)| ContentBlock { block_type: s(k), text: s(t) })
            .collect(),
    )
}

fn summarize(lines: Vec<SessionLine>) -> Option<ScannedSession> {
    summarize_session_entries(&lines, "/tmp/fake/session.jsonl", 111_111)
}

#[test]
fn title_prefers_latest_nonblank_session_info_name() {
    let first = message(Some("user"), blocks(&[("text", "first user text")]), None, "2026-08-16T10:01:00.000Z");
    let s1 = summarize(vec![std_header(), first.clone(), info(Some("named session"))]).unwrap();
    assert_eq!(s1.title, "named session");
    let s2 = summarize(vec![std_header(), first, info(Some("named session")), info(Some("   "))])
        .unwrap();
    assert_eq!(s2.title, "first user text");
}

#[test]
fn title_from_first_nonempty_user_text_string_or_blocks() {
    let s1 = summarize(vec![
        std_header(),
        message(Some("assistant"), text("assistant says hi"), Some(1_786_876_860_000), "2026-08-16T10:01:00.000Z"),
        message(
            Some("user"),
            ContentField::Blocks(vec![
                ContentBlock { block_type: s("thinking"), text: None },
                ContentBlock { block_type: s("text"), text: s("hello ") },
                ContentBlock { block_type: s("text"), text: s("blocks") },
            ]),
            Some(1_786_876_920_000),
            "2026-08-16T10:02:00.000Z",
        ),
    ])
    .unwrap();
    assert_eq!(s1.title, "hello  blocks");
    let s2 = summarize(vec![
        std_header(),
        message(Some("assistant"), blocks(&[]), Some(1_786_876_860_000), "2026-08-16T10:01:00.000Z"),
    ])
    .unwrap();
    assert_eq!(s2.title, "(no messages)");
    let s3 = summarize(vec![std_header()]).unwrap();
    assert_eq!(s3.title, "(no messages)");
}

#[test]
fn message_count_counts_all_message_entries() {
    let s1 = summarize(vec![
        std_header(),
        message(Some("user"), text("hi"), Some(1_786_876_860_000), "2026-08-16T10:01:00.000Z"),
        message(Some("toolResult"), blocks(&[("text", "out")]), Some(1_786_877_100_000), "2026-08-16T10:05:00.000Z"),
        message(Some("user"), ContentField::Absent, None, "2026-08-16T10:06:00.000Z"),
        SessionLine::Skipped,
        SessionLine::Skipped,
        SessionLine::Entry(LineEntry {
            entry_type: s("model_change"),
            id: s("x"),
            cwd: None,
            timestamp: s("2026-08-16T10:07:00.000Z"),
            name: None,
            message: MessageField::Invalid,
        }),
    ])
    .unwrap();
    assert_eq!(s1.message_count, 3);
    assert_eq!(s1.title, "hi");
}

#[test]
fn modified_prefers_message_ms_then_entry_iso_then_header_then_mtime() {
    let a = summarize(vec![
        std_header(),
        message(Some("user"), text("a"), Some(1000), "2026-08-16T23:59:59.000Z"),
        message(Some("assistant"), text("b"), None, "2026-08-16T20:00:00.000Z"),
    ])
    .unwrap();
    assert_eq!(a.modified_ms(), 1_786_910_400_000);
    let b = summarize(vec![
        std_header(),
        message(Some("user"), text("a"), Some(1_786_876_860_000), "2026-08-16T10:01:00.000Z"),
        message(Some("assistant"), text("b"), Some(1_786_876_920_000), "2026-08-16T10:02:00.000Z"),
    ])
    .unwrap();
    assert_eq!(b.modified_ms(), 1_786_876_920_000);
    let c = summarize(vec![
        std_header(),
        message(Some("toolResult"), text("out"), None, "2026-08-16T10:01:00.000Z"),
    ])
    .unwrap();
    assert_eq!(c.modified_ms(), 1_786_874_400_000);
    let d = summarize(vec![header(Some("s1"), Some("/w"), "bogus")]).unwrap();
    assert_eq!(d.modified_ms(), 111_111);
    assert_eq!(d.modified_iso(), "1970-01-01T00:01:51.111Z");
}

#[test]
fn invalid_when_first_valid_entry_is_not_a_session_header() {
    assert!(summarize(vec![
        message(Some("user"), text("hi"), None, "2026-08-16T10:01:00.000Z"),
        std_header(),
    ])
    .is_none());
    assert!(summarize(vec![SessionLine::Skipped, SessionLine::Skipped, std_header()]).is_some());
    assert!(summarize(vec![]).is_none());
}

#[test]
fn falsey_leading_json_values_are_skipped_before_the_header() {
    let s1 = summarize(vec![
        SessionLine::Skipped,
        SessionLine::Skipped,
        SessionLine::Skipped,
        SessionLine::Skipped,
        SessionLine::Skipped,
        std_header(),
        message(Some("user"), text("hi"), Some(1_786_876_860_000), "2026-08-16T10:01:00.000Z"),
    ])
    .unwrap();
    assert_eq!(s1.title, "hi");
    assert_eq!(s1.session_id.as_deref(), Some("s1"));
}

#[test]
fn header_requires_string_id_and_absolute_cwd() {
    let ok = |h: SessionLine| summarize(vec![h]).is_some();
    let ts = "2026-08-16T10:00:00.000Z";
    assert!(ok(header(Some("s1"), Some("/w"), ts)));
    assert!(!ok(header(None, Some("/w"), ts)));
    assert!(!ok(header(Some("s1"), None, ts)));
    assert!(!ok(header(Some("s1"), Some(""), ts)));
    assert!(!ok(header(Some("s1"), Some("relative/ws"), ts)));
    assert!(!ok(header(Some("s1"), Some("."), ts)));
}

#[test]
fn fatal_lines_reject_the_file() {
    assert!(summarize(vec![std_header(), SessionLine::Unreadable]).is_none());
    assert!(summarize(vec![SessionLine::Unreadable, std_header()]).is_none());
    let invalid_message = SessionLine::Entry(LineEntry {
        entry_type: s("message"),
        id: s("m"),
        cwd: None,
        timestamp: None,
        name: None,
        message: MessageField::Invalid,
    });
    assert!(summarize(vec![std_header(), invalid_message]).is_none());
    assert!(summarize(vec![
        std_header(),
        message(Some("user"), ContentField::Other, None, "2026-08-16T10:01:00.000Z"),
    ])
    .is_none());
    // Other content shapes of non-qualifying roles are tolerated.
    assert!(summarize(vec![
        std_header(),
        message(Some("toolResult"), ContentField::Other, None, "2026-08-16T10:01:00.000Z"),
    ])
    .is_some());
}

#[test]
fn extract_text_joins_text_blocks() {
    assert_eq!(extract_text(&text("x")), Some("x".to_owned()));
    assert_eq!(extract_text(&blocks(&[("text", "a"), ("image", "b"), ("text", "c")])), Some("a c".to_owned()));
    assert_eq!(extract_text(&blocks(&[])), Some(String::new()));
    assert_eq!(extract_text(&ContentField::Other), None);
    assert_eq!(extract_text(&ContentField::Absent), None);
}

fn scanned(cwd: &str, title: &str, ms: u64) -> ScannedSession {
    summarize_session_entries(
        &vec![
            header(Some(title), Some(cwd), "2026-08-16T10:00:00.000Z"),
            message(Some("user"), text(title), Some(ms), "2026-08-16T10:01:00.000Z"),
        ],
        &format!("/sessions/{title}.jsonl"),
        0,
    )
    .unwrap()
}

#[test]
fn catalog_associates_by_key_and_sorts_sessions_desc() {
    let registered = vec![RegisteredWorkspace { name: "main".into(), root: "/w/real".into() }];
    let probes = vec![RootProbe { exists: true, key: "/w/real".into() }];
    let sessions = vec![
        scanned("/w/real", "old", 1_000_000),
        scanned("/w/alias", "new", 2_000_000),
        scanned("/somewhere/else", "foreign", 3_000_000),
    ];
    let keys = vec!["/w/real".to_owned(), "/w/real".to_owned(), "/somewhere/else".to_owned()];
    let catalog = build_catalog(&registered, &probes, sessions, &keys);
    assert_eq!(catalog.schema_version, 1);
    assert_eq!(catalog.workspaces.len(), 1);
    let ws = &catalog.workspaces[0];
    assert!(ws.available);
    assert_eq!(ws.unavailable_reason, None);
    assert_eq!(ws.sessions.len(), 2);
    assert_eq!(ws.sessions[0].title, "new");
    assert_eq!(ws.sessions[1].title, "old");
    assert_eq!(ws.sessions[0].modified, "1970-01-01T00:33:20.000Z");
    assert_eq!(ws.sessions[0].message_count, 1);
    assert_eq!(ws.sessions[0].file, "/sessions/new.jsonl");
    assert_eq!(ws.sessions[0].id.as_deref(), Some("new"));
}

#[test]
fn catalog_keeps_unavailable_workspace_representable() {
    let registered = vec![RegisteredWorkspace { name: "gone".into(), root: "/tmp/gone-ws".into() }];
    let probes = vec![RootProbe { exists: false, key: "/tmp/gone-ws".into() }];
    let sessions = vec![scanned("/tmp/gone-ws", "s", 5)];
    let keys = vec!["/tmp/gone-ws".to_owned()];
    let catalog = build_catalog(&registered, &probes, sessions, &keys);
    assert_eq!(catalog.workspaces.len(), 1);
    let ws = &catalog.workspaces[0];
    assert!(!ws.available);
    assert!(ws.unavailable_reason.is_some());
    assert_eq!(ws.sessions.len(), 1);
}

#[test]
fn catalog_first_matching_workspace_wins_and_ties_keep_scan_order() {
    let registered = vec![
        RegisteredWorkspace { name: "a".into(), root: "/r".into() },
        RegisteredWorkspace { name: "b".into(), root: "/r".into() },
    ];
    let probes = vec![
        RootProbe { exists: true, key: "/r".into() },
        RootProbe { exists: true, key: "/r".into() },
    ];
    let sessions = vec![scanned("/r", "x", 7), scanned("/r", "y", 7)];
    let keys = vec!["/r".to_owned(), "/r".to_owned()];
    let catalog = build_catalog(&registered, &probes, sessions, &keys);
    assert_eq!(catalog.workspaces[0].sessions.len(), 2);
    assert_eq!(catalog.workspaces[0].sessions[0].title, "x");
    assert_eq!(catalog.workspaces[0].sessions[1].title, "y");
    assert!(catalog.workspaces[1].sessions.is_empty());
    assert_eq!(
        catalog.workspaces[0].unavailable_reason, None,
    );
}

#[test]
fn parses_jj_workspace_list_template_output() {
    let output = "\"default\"\t\"/home/u/proj\"\n\"装饰 ws\"\t\"/home/u/пр\\u001bоект\"\n";
    let ws = parse_workspace_list_output(output);
    assert_eq!(
        ws,
        vec![
            RegisteredWorkspace { name: "default".into(), root: "/home/u/proj".into() },
            RegisteredWorkspace { name: "装饰 ws".into(), root: "/home/u/пр\u{1b}оект".into() },
        ]
    );
    assert!(parse_workspace_list_output("").is_empty());
}

#[test]
fn workspace_list_output_ignores_non_strings_and_odd_tail() {
    let ws = parse_workspace_list_output("\"a\" 1 \"/a\" \"b\"");
    assert_eq!(ws, vec![RegisteredWorkspace { name: "a".into(), root: "/a".into() }]);
    assert!(WORKSPACE_LIST_TEMPLATE.contains("json(self.root())"));
}

#[test]
fn jj_failures_are_typed() {
    let e = interpret_workspace_list(false, Some(1), b"", b"  Error: There is no jj repo in \".\"\n")
        .unwrap_err();
    assert_eq!(
        e,
        WorkspaceError::NotInJjRepository { stderr: "Error: There is no jj repo in \".\"".into() }
    );
    assert_eq!(e.code(), "not_in_jj_repository");
    assert_eq!(e.message(), "not inside a jj repository: Error: There is no jj repo in \".\"");
    let e = interpret_workspace_list(false, Some(2), b"", b"boom\n").unwrap_err();
    assert_eq!(e.code(), "jj_command_failed");
    assert_eq!(e.message(), "jj workspace list failed (exit code Some(2)): boom");
    let e = interpret_workspace_list(false, None, b"", b"").unwrap_err();
    assert_eq!(e.message(), "jj workspace list failed (exit code None): ");
    let spawn = WorkspaceError::JjSpawn { message: "not found".into() };
    assert_eq!(spawn.code(), "jj_spawn_failed");
    assert_eq!(spawn.message(), "failed to run jj: not found");
    let ok = interpret_workspace_list(true, Some(0), b"\"d\"\t\"/r\"\n", b"warning").unwrap();
    assert_eq!(ok, vec![RegisteredWorkspace { name: "d".into(), root: "/r".into() }]);
}

#[test]
fn jj_output_is_decoded_lossily() {
    let e = interpret_workspace_list(false, Some(1), b"", b" \xffboom \n").unwrap_err();
    assert_eq!(e, WorkspaceError::JjCommandFailed { code: Some(1), stderr: "\u{FFFD}boom".into() });
    let ok = interpret_workspace_list(true, Some(0), "\"\u{88c5}\"\t\"/r\"\n".as_bytes(), b"").unwrap();
    assert_eq!(ok, vec![RegisteredWorkspace { name: "\u{88c5}".into(), root: "/r".into() }]);
}
