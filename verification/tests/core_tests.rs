use filessh::cli::{ConnectArgs, ResolveError, ResolvedConnectArgs};
use filessh::config::{DefaultTheme, LogLevel, LoggingConfig};
use filessh::delete::{delete_plan, DeleteOp};
use filessh::files::{format_timestamp, EntryKind, FileAttrs, FileEntry};
use filessh::paths::{dir_path, join_path, target_rel};
use filessh::session::{SessionError, SessionGuardian};
use filessh::transfer::{TransferCommand, TransferError, TransferWorker};
use filessh::tui::{filter_entries, name_contains, preview_window};
use filessh::walker::{walk_parallel, DirTree, WalkState};

fn entry(name: &str, kind: EntryKind) -> FileEntry {
    FileEntry {
        name: name.to_string(),
        type_: kind,
        attributes: FileAttrs { size: Some(1), mtime: None, user: None, permissions: None },
    }
}

fn file_node(name: &str) -> DirTree {
    DirTree { entry: entry(name, EntryKind::File), children: Vec::new() }
}

fn dir_node(name: &str, children: Vec<DirTree>) -> DirTree {
    DirTree { entry: entry(name, EntryKind::Dir), children }
}

/// The sample tree `/var/www/{site, sub/{a.txt, b.txt}}` rooted at the
/// synthetic entry named after the root path.
fn sample_tree() -> DirTree {
    dir_node(
        "/var/www",
        vec![
            file_node("site"),
            dir_node("sub", vec![file_node("a.txt"), file_node("b.txt")]),
        ],
    )
}

fn visited_names(workers: usize, max_depth: Option<usize>) -> Vec<String> {
    let outcome = walk_parallel(sample_tree(), "/var/www", max_depth, workers);
    let mut names: Vec<String> = outcome.visited.iter().map(|e| e.name.clone()).collect();
    names.sort();
    names
}

#[test]
fn walk_visits_every_entry_once() {
    let names = visited_names(1, None);
    assert_eq!(
        names,
        vec!["/var/www", "/var/www/site", "/var/www/sub", "/var/www/sub/a.txt", "/var/www/sub/b.txt"]
    );
}

#[test]
fn walk_set_is_independent_of_worker_count() {
    let one = visited_names(1, None);
    let four = visited_names(4, None);
    let many = visited_names(9, None);
    assert_eq!(one, four);
    assert_eq!(one, many);
}

#[test]
fn walk_respects_max_depth() {
    // depth 0: the root only; depth 1: root and its immediate children
    assert_eq!(visited_names(2, Some(0)), vec!["/var/www"]);
    assert_eq!(
        visited_names(2, Some(1)),
        vec!["/var/www", "/var/www/site", "/var/www/sub"]
    );
}

#[test]
fn walk_reports_absolute_child_paths() {
    // the path is composed with exactly one separator
    let names = visited_names(3, Some(1));
    assert!(names.contains(&"/var/www/site".to_string()));
    assert!(!names.iter().any(|n| n.contains("//")));
}

#[test]
fn every_worker_observes_quit() {
    let outcome = walk_parallel(sample_tree(), "/var/www", None, 5);
    assert_eq!(outcome.quit_seen.len(), 5);
    assert!(outcome.quit_seen.iter().all(|&seen| seen));
}

#[test]
fn walk_state_queries() {
    assert!(WalkState::Continue.is_continue());
    assert!(!WalkState::Continue.is_quit());
    assert!(WalkState::Quit.is_quit());
}

#[test]
fn join_path_uses_one_separator() {
    assert_eq!(join_path("/var/www", "site"), "/var/www/site");
    assert_eq!(join_path("/var/www/", "site"), "/var/www/site");
    assert_eq!(join_path("/", "etc"), "/etc");
    assert_eq!(join_path("", "x"), "/x");
}

#[test]
fn dir_path_keeps_a_self_named_cwd() {
    // the synthetic root's cwd already ends with its own name
    assert_eq!(dir_path("/var/www", "www"), "/var/www");
    assert_eq!(dir_path("/var/www", "site"), "/var/www/site");
}

#[test]
fn target_rel_strips_the_root() {
    assert_eq!(target_rel("/var/www/site/a", "/var/www"), "site/a");
    assert_eq!(target_rel("/elsewhere/x", "/var/www"), "elsewhere/x");
}

#[test]
fn transfer_replies_in_submission_order() {
    let mut worker = TransferWorker::new();
    for name in ["a", "b", "c"] {
        worker.submit(TransferCommand {
            remote_path: format!("/r/{}", name),
            local_path: format!("/l/{}", name),
        });
    }
    let outcomes = vec![Ok(()), Ok(()), Ok(())];
    let replies = worker.process_all(&outcomes);
    let order: Vec<String> = replies.iter().map(|r| r.command.remote_path.clone()).collect();
    assert_eq!(order, vec!["/r/a", "/r/b", "/r/c"]);
}

#[test]
fn transfer_failure_is_isolated() {
    let mut worker = TransferWorker::new();
    for name in ["a", "b", "c"] {
        worker.submit(TransferCommand {
            remote_path: format!("/r/{}", name),
            local_path: format!("/l/{}", name),
        });
    }
    // the middle file is missing on the remote side
    let outcomes = vec![Ok(()), Err(TransferError::RemoteRead), Ok(())];
    let replies = worker.process_all(&outcomes);
    assert_eq!(replies.len(), 3);
    assert!(replies[0].outcome.is_ok());
    assert_eq!(replies[1].outcome, Err(TransferError::RemoteRead));
    assert!(replies[2].outcome.is_ok());
    // the worker keeps running afterward
    worker.submit(TransferCommand { remote_path: "/r/d".to_string(), local_path: "/l/d".to_string() });
    let more = worker.process_all(&vec![Ok(())]);
    assert_eq!(more.len(), 1);
    assert_eq!(more[0].command.remote_path, "/r/d");
}

#[test]
fn download_commands_compose_both_paths() {
    let entries = vec![entry("/var/www/sub/a.txt", EntryKind::File)];
    let cmds = filessh::transfer::download_commands(&entries, "/var/www", "/tmp/dest");
    assert_eq!(cmds.len(), 1);
    assert_eq!(cmds[0].remote_path, "/var/www/sub/a.txt");
    assert_eq!(cmds[0].local_path, "/tmp/dest/sub/a.txt");
}

#[test]
fn delete_removes_children_before_directories() {
    let tree = dir_node("root", vec![file_node("a"), dir_node("sub", vec![file_node("b")])]);
    let plan = delete_plan(&tree, "root");
    assert_eq!(
        plan,
        vec![
            DeleteOp::RemoveFile("root/a".to_string()),
            DeleteOp::RemoveFile("root/sub/b".to_string()),
            DeleteOp::RemoveDir("root/sub".to_string()),
            DeleteOp::RemoveDir("root".to_string()),
        ]
    );
}

#[test]
fn channel_ids_never_collide() {
    let mut guardian = SessionGuardian::new();
    let ids = guardian.acquire_channels(10).unwrap();
    for i in 0..ids.len() {
        for j in 0..ids.len() {
            if i != j {
                assert_ne!(ids[i], ids[j]);
            }
        }
    }
}

#[test]
fn closed_session_refuses_channels() {
    let mut guardian = SessionGuardian::new();
    let first = guardian.acquire_channel().unwrap();
    assert_eq!(first, 0);
    guardian.close();
    assert_eq!(guardian.acquire_channel(), Err(SessionError::Closed));
    // closing is idempotent
    guardian.close();
    assert_eq!(guardian.acquire_channel(), Err(SessionError::Closed));
}

#[test]
fn resolve_names_the_first_missing_argument() {
    let args = ConnectArgs {
        host: None,
        port: 22,
        username: None,
        private_key: None,
        openssh_certificate: None,
        path: None,
    };
    assert_eq!(args.resolve().unwrap_err(), ResolveError::MissingHost);
    let args = ConnectArgs { host: Some("h".to_string()), ..args };
    assert_eq!(args.resolve().unwrap_err(), ResolveError::MissingPath);
    let args = ConnectArgs { path: Some("/srv".to_string()), ..args };
    assert_eq!(args.resolve().unwrap_err(), ResolveError::MissingPrivateKey);
    let args = ConnectArgs { private_key: Some("key".to_string()), ..args };
    let resolved = args.resolve().unwrap();
    assert_eq!(resolved.host, "h");
    assert_eq!(resolved.path, "/srv");
}

#[test]
fn ssh_command_arguments() {
    let args = ResolvedConnectArgs {
        host: "example.com".to_string(),
        port: 2222,
        username: Some("alice".to_string()),
        private_key: "/home/alice/.ssh/id".to_string(),
        openssh_certificate: None,
        path: "/srv".to_string(),
    };
    assert_eq!(
        args.ssh_command_args(),
        vec!["-l", "alice", "-p", "2222", "-i", "/home/alice/.ssh/id", "alice@example.com"]
    );
    let with_path = args.ssh_args_with_path("/srv/www");
    assert_eq!(with_path[7], "-t");
    assert_eq!(with_path[8], "cd /srv/www; bash --login");
    let rootless = ResolvedConnectArgs { username: None, ..args };
    assert_eq!(
        rootless.ssh_command_args(),
        vec!["-p", "2222", "-i", "/home/alice/.ssh/id", "root@example.com"]
    );
}

#[test]
fn logging_level_decision() {
    assert_eq!(LoggingConfig { silent: false, debug: true }.get_level(), LogLevel::Debug);
    assert_eq!(LoggingConfig { silent: true, debug: true }.get_level(), LogLevel::Debug);
    assert_eq!(LoggingConfig { silent: true, debug: false }.get_level(), LogLevel::Error);
    assert_eq!(LoggingConfig { silent: false, debug: false }.get_level(), LogLevel::Info);
}

#[test]
fn theme_display_names() {
    assert_eq!(DefaultTheme::ImperialDark.display_name(), "Imperial Dark");
    assert_eq!(DefaultTheme::BlackWhiteShell.display_name(), "Black & White Shell");
}

#[test]
fn entry_kind_queries() {
    assert!(entry("d", EntryKind::Dir).is_dir());
    assert!(entry("f", EntryKind::File).is_file());
    assert!(entry("s", EntryKind::Symlink).is_symlink());
    assert!(!entry("o", EntryKind::Other).is_dir());
}

#[test]
fn timestamps_are_rendered() {
    assert_eq!(format_timestamp(None), None);
    assert_eq!(format_timestamp(Some(0)).unwrap(), "1970-01-01 00:00:00");
    assert_eq!(format_timestamp(Some(1718236800)).unwrap(), "2024-06-13 00:00:00");
}

#[test]
fn filtering_keeps_matching_names() {
    let entries = vec![
        entry("notes.txt", EntryKind::File),
        entry("music", EntryKind::Dir),
        entry("more-notes.md", EntryKind::File),
    ];
    let hits = filter_entries(&entries, "notes");
    let names: Vec<&str> = hits.iter().map(|e| e.name.as_str()).collect();
    assert_eq!(names, vec!["notes.txt", "more-notes.md"]);
    assert!(name_contains("abcdef", "cde"));
    assert!(!name_contains("abcdef", "xyz"));
    assert!(name_contains("anything", ""));
}

#[test]
fn preview_clips_at_the_end() {
    let entries = vec![
        entry("a", EntryKind::File),
        entry("b", EntryKind::File),
        entry("c", EntryKind::File),
    ];
    let w = preview_window(&entries, 1, 5);
    let names: Vec<&str> = w.iter().map(|e| e.name.as_str()).collect();
    assert_eq!(names, vec!["b", "c"]);
    assert_eq!(preview_window(&entries, 7, 5).len(), 0);
}

#[test]
fn numbers_render_in_decimal() {
    assert_eq!(filessh::text::u16_to_string(0), "0");
    assert_eq!(filessh::text::u16_to_string(65535), "65535");
    assert_eq!(filessh::text::u16_to_string(8080), "8080");
}

#[test]
fn parent_path_steps_up() {
    assert_eq!(filessh::paths::parent_path("/var/www"), Some("/var".to_string()));
    assert_eq!(filessh::paths::parent_path("/var"), Some("/".to_string()));
    assert_eq!(filessh::paths::parent_path("/"), None);
    assert_eq!(filessh::paths::parent_path("name"), Some("".to_string()));
    assert_eq!(filessh::paths::parent_path(""), None);
}

#[test]
fn change_dir_falls_back_to_here() {
    assert_eq!(filessh::tui::change_dir_target("/srv"), "/srv");
    assert_eq!(filessh::tui::change_dir_target(""), ".");
}

#[test]
fn walk_parallel_config_runs() {
    let conf = filessh::walker::WalkParallel {
        path: "/var/www".to_string(),
        max_depth: None,
        min_depth: None,
        threads: 2,
    };
    let outcome = conf.run(sample_tree());
    assert_eq!(outcome.visited.len(), 5);
    assert_eq!(outcome.quit_seen, vec![true, true]);
}
