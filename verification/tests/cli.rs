use qingluan::catalog::{SessionSummary, WorkspaceCatalog, WorkspaceSummary};
use qingluan::cli::{
    build_session_choices, build_task_request, catalog_human_lines, daemon_unreachable_line,
    display_title, open_selection, parse_error_line, run_task_kind, unique_label, OpenStep,
    SessionChoice,
};
use qingluan::json::machine_error_payload;
use qingluan::protocol::{SandboxProviderKind, TaskKind};

fn session(title: &str, message_count: u32, modified: &str) -> SessionSummary {
    SessionSummary {
        file: format!("/sessions/{title}.jsonl"),
        id: Some(format!("id-{title}")),
        title: title.to_owned(),
        message_count,
        modified: modified.to_owned(),
    }
}

fn workspace(
    name: &str,
    root: &str,
    available: bool,
    reason: Option<&str>,
    sessions: Vec<SessionSummary>,
) -> WorkspaceSummary {
    WorkspaceSummary {
        name: name.to_owned(),
        root: root.to_owned(),
        available,
        unavailable_reason: reason.map(str::to_owned),
        sessions,
    }
}

#[test]
fn choices_keep_unavailable_sessions_visible() {
    let catalog = WorkspaceCatalog {
        schema_version: 1,
        workspaces: vec![
            workspace(
                "default",
                "/w/main",
                true,
                None,
                vec![session("t", 1, "2026-08-16T10:00:00.000Z")],
            ),
            workspace(
                "gone",
                "/w/gone",
                false,
                Some("workspace root not found on disk"),
                vec![session("stale", 2, "2026-08-16T11:00:00.000Z")],
            ),
        ],
    };

    let (labels, choices) = build_session_choices(&catalog);

    assert_eq!(
        labels,
        vec![
            "default ── t (1 msgs, 2026-08-16T10:00:00.000Z)".to_owned(),
            "default ── ✚ new session".to_owned(),
            "gone ── × stale (2 msgs, 2026-08-16T11:00:00.000Z) [workspace root not found on disk]".to_owned(),
        ]
    );
    assert_eq!(
        choices[2],
        SessionChoice::Unavailable {
            name: "gone".into(),
            reason: "workspace root not found on disk".into(),
        }
    );
    assert!(matches!(choices[0], SessionChoice::Resume { .. }));
    assert!(matches!(choices[1], SessionChoice::New { .. }));
    assert!(labels.iter().any(|label| label.contains("stale")));
}

#[test]
fn duplicate_labels_get_unique_suffixes() {
    let catalog = WorkspaceCatalog {
        schema_version: 1,
        workspaces: vec![
            workspace(
                "same",
                "/w/a",
                true,
                None,
                vec![
                    session("dup", 1, "2026-08-16T10:00:00.000Z"),
                    session("dup", 1, "2026-08-16T10:00:00.000Z"),
                ],
            ),
            workspace(
                "same",
                "/w/b",
                false,
                Some("workspace root not found on disk"),
                vec![],
            ),
            workspace(
                "same",
                "/w/b",
                false,
                Some("workspace root not found on disk"),
                vec![],
            ),
        ],
    };

    let (labels, choices) = build_session_choices(&catalog);

    assert_eq!(
        labels,
        vec![
            "same ── dup (1 msgs, 2026-08-16T10:00:00.000Z)".to_owned(),
            "same ── dup (1 msgs, 2026-08-16T10:00:00.000Z) [#2]".to_owned(),
            "same ── ✚ new session".to_owned(),
            "same ── × workspace root not found on disk".to_owned(),
            "same ── × workspace root not found on disk [#2]".to_owned(),
        ]
    );
    assert_eq!(choices.len(), labels.len());
    assert_eq!(
        choices[4],
        SessionChoice::Unavailable {
            name: "same".into(),
            reason: "workspace root not found on disk".into(),
        }
    );
}

#[test]
fn unavailable_without_reason_says_unavailable() {
    let catalog = WorkspaceCatalog {
        schema_version: 1,
        workspaces: vec![workspace("w", "/w", false, None, vec![])],
    };
    let (labels, choices) = build_session_choices(&catalog);
    assert_eq!(labels, vec!["w ── × unavailable".to_owned()]);
    assert_eq!(
        choices,
        vec![SessionChoice::Unavailable { name: "w".into(), reason: "unavailable".into() }]
    );
    let empty = WorkspaceCatalog { schema_version: 1, workspaces: vec![] };
    let (labels, choices) = build_session_choices(&empty);
    assert!(labels.is_empty() && choices.is_empty());
}

#[test]
fn unique_label_counts_each_label_separately() {
    let mut seen = Vec::new();
    assert_eq!(unique_label(&mut seen, "a".into()), "a");
    assert_eq!(unique_label(&mut seen, "b".into()), "b");
    assert_eq!(unique_label(&mut seen, "a".into()), "a [#2]");
    assert_eq!(unique_label(&mut seen, "a".into()), "a [#3]");
    assert_eq!(seen.len(), 4);
}

#[test]
fn display_title_collapses_and_truncates() {
    assert_eq!(display_title("  hello \n\t world  ", 80), "hello world");
    assert_eq!(display_title("abcdef", 6), "abcdef");
    assert_eq!(display_title("abcdefg", 6), "abcde…");
    assert_eq!(display_title("abc", 0), "…");
    assert_eq!(display_title("a\u{3000}b\u{a0}c", 80), "a b c");
    assert_eq!(display_title("", 80), "");
}

#[test]
fn human_lines_list_workspaces_and_sessions() {
    let catalog = WorkspaceCatalog {
        schema_version: 1,
        workspaces: vec![
            workspace("main", "/w/main", true, None, vec![session("t", 3, "M")]),
            workspace("gone", "/w/gone", false, Some("missing"), vec![]),
        ],
    };
    assert_eq!(
        catalog_human_lines(&catalog),
        vec![
            "main\t/w/main\t1 session(s)".to_owned(),
            "  t\t3 msgs\tM".to_owned(),
            "gone\t/w/gone\t(unavailable: missing)".to_owned(),
        ]
    );
}

#[test]
fn open_selection_decides_next_step() {
    let choices = vec![
        SessionChoice::New { root: "/w".into() },
        SessionChoice::Resume { root: "/w".into(), file: "/s.jsonl".into() },
        SessionChoice::Unavailable { name: "g".into(), reason: "gone".into() },
    ];
    assert_eq!(open_selection(&choices, None), OpenStep::Cancel);
    assert_eq!(
        open_selection(&choices, Some(0)),
        OpenStep::Launch { root: "/w".into(), args: vec![] }
    );
    assert_eq!(
        open_selection(&choices, Some(1)),
        OpenStep::Launch { root: "/w".into(), args: vec!["--session".into(), "/s.jsonl".into()] }
    );
    assert_eq!(open_selection(&choices, Some(2)), OpenStep::Retry { notice: "× g: gone".into() });
}

#[test]
fn task_requests_parse_kind_then_provider() {
    let req = build_task_request(".".into(), "build", "local").unwrap();
    assert_eq!(req.kind, TaskKind::Build);
    assert_eq!(req.sandbox.provider, SandboxProviderKind::Local);
    assert_eq!(req.sandbox.template, None);
    assert_eq!(req.workspace_path, ".");
    let req = build_task_request("/p".into(), &run_task_kind("make all"), "cube").unwrap();
    assert_eq!(req.kind, TaskKind::CustomCommand { command: "make all".into() });
    assert_eq!(req.sandbox.provider, SandboxProviderKind::Cube);
    assert_eq!(
        build_task_request(".".into(), "code-review", "local").unwrap().kind,
        TaskKind::CodeReview
    );
    assert_eq!(build_task_request(".".into(), "test", "local").unwrap().kind, TaskKind::Test);
    assert_eq!(
        build_task_request(".".into(), "deploy", "nowhere").unwrap_err(),
        "{\"ok\":false,\"error\":\"invalid_kind\",\"message\":\"Unknown task kind: deploy\"}"
    );
    assert_eq!(
        build_task_request(".".into(), "build", "nowhere").unwrap_err(),
        "{\"ok\":false,\"error\":\"invalid_provider\",\"message\":\"Unknown provider: nowhere\"}"
    );
}

#[test]
fn machine_error_payload_is_escaped_json() {
    assert_eq!(
        machine_error_payload("not_in_jj_repository", "say \"hi\"\n\\ \u{1}"),
        "{\"error\":\"not_in_jj_repository\",\"message\":\"say \\\"hi\\\"\\n\\\\ \\u0001\",\"ok\":false}"
    );
    let v: serde_json::Value =
        serde_json::from_str(&machine_error_payload("c", "é\t\u{7f}")).unwrap();
    assert_eq!(v["error"], "c");
    assert_eq!(v["message"], "é\t\u{7f}");
    assert_eq!(v["ok"], false);
}

#[test]
fn daemon_messages() {
    assert_eq!(
        daemon_unreachable_line("http://h:1"),
        "{\"ok\":false,\"error\":\"daemon_unreachable\",\"message\":\"Daemon is not running at http://h:1. Start it with: qingluan-daemon\"}"
    );
    assert_eq!(
        parse_error_line("boom"),
        "{\"ok\":false,\"error\":\"parse_error\",\"message\":\"boom\"}"
    );
}

#[test]
fn displayed_titles_are_single_short_lines() {
    let t = display_title("line one\nline two\r\nline three", 12);
    assert_eq!(t, "line one li\u{2026}");
    assert_eq!(t.chars().count(), 12);
    assert!(!t.contains('\n') && !t.contains('\r'));
}

#[test]
fn labels_stay_unique_when_a_reason_looks_like_a_counter() {
    let catalog = WorkspaceCatalog {
        schema_version: 1,
        workspaces: vec![
            workspace("w", "/w/1", false, Some("r"), vec![]),
            workspace("w", "/w/2", false, Some("r"), vec![]),
            workspace("w", "/w/3", false, Some("r [#2]"), vec![]),
        ],
    };
    let (labels, choices) = build_session_choices(&catalog);
    assert_eq!(
        labels,
        vec![
            "w \u{2500}\u{2500} \u{d7} r".to_string(),
            "w \u{2500}\u{2500} \u{d7} r [#2]".to_string(),
            "w \u{2500}\u{2500} \u{d7} r [#2] [#2]".to_string(),
        ]
    );
    assert_eq!(choices.len(), 3);
}

#[test]
fn unique_label_skips_numbers_already_taken() {
    let mut seen = Vec::new();
    assert_eq!(unique_label(&mut seen, "a [#2]".into()), "a [#2]");
    assert_eq!(unique_label(&mut seen, "a".into()), "a");
    assert_eq!(unique_label(&mut seen, "a".into()), "a [#3]");
    assert_eq!(unique_label(&mut seen, "a".into()), "a [#4]");
    assert_eq!(unique_label(&mut seen, "a [#2]".into()), "a [#2] [#2]");
    assert_eq!(seen, vec!["a [#2]", "a", "a [#3]", "a [#4]", "a [#2] [#2]"]);
}
