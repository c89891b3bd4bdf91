use ai_imessage::config::{Config, LoadedConfig};
use ai_imessage::contacts::ContactsError;
use ai_imessage::doctor::{
    check_contacts, check_destination_writable, check_fts5, check_platform, check_source_present,
    check_source_readable, has_failure, render, run_checks, Check, CheckStatus, ContactsState,
    DestinationProbe, Presence, Probes, Readability, SourceProbe, Writability, FDA_HELP,
};
use ai_imessage::extract::{SchemaCaps, SourceError};
use ai_imessage::paths::PathError;
use rusqlite::Connection;

fn passing() -> Check {
    Check::pass("example", "fine".to_string())
}

#[test]
fn render_includes_status_name_and_detail() {
    let out = render(&[passing()]);
    assert!(out.contains("PASS  example — fine"));
    assert!(out.contains("1 passed, 0 warnings, 0 failed"));
}

#[test]
fn render_indents_resolution_lines() {
    let out = render(&[Check::fail("thing", "broke".to_string(), "line one\nline two")]);
    assert!(out.contains("FAIL  thing — broke"));
    assert!(out.contains("        line one"));
    assert!(out.contains("        line two"));
}

#[test]
fn has_failure_only_on_fail() {
    assert!(!has_failure(&[passing()]));
    assert!(!has_failure(&[Check::warn("w", "d".to_string(), "r")]));
    assert!(has_failure(&[passing(), Check::fail("f", "d".to_string(), "r")]));
}

#[test]
fn fts5_is_available_in_bundled_sqlite() {
    // The whole search architecture depends on this.
    let probe = Connection::open_in_memory()
        .and_then(|conn| conn.execute_batch("CREATE VIRTUAL TABLE fts_probe USING fts5(content);"));
    let error = probe.err().map(|e| e.to_string());
    let check = check_fts5(error.as_deref());
    assert_eq!(check.status, CheckStatus::Pass, "{}", check.detail);
    assert_eq!(check_fts5(Some("no such module")).status, CheckStatus::Warn);
}

#[test]
fn fda_help_names_the_settings_path() {
    assert!(FDA_HELP.contains("System Settings"));
    assert!(FDA_HELP.contains("Full Disk Access"));
    assert!(FDA_HELP.contains("doctor"));
}

#[test]
fn status_display_matches_expected_tokens() {
    assert_eq!(CheckStatus::Pass.label(), "PASS");
    assert_eq!(CheckStatus::Warn.label(), "WARN");
    assert_eq!(CheckStatus::Fail.label(), "FAIL");
}

#[test]
fn present_check_passes_on_real_fixture() {
    let present = Presence::Present {
        megabytes: "0.1".into(),
    };
    let check = check_source_present("/tmp/chat.db", &present);
    assert_eq!(check.status, CheckStatus::Pass, "{}", check.detail);
    assert!(check.detail.contains("MB"));
}

#[test]
fn present_check_fails_on_missing_file_with_guidance() {
    let check = check_source_present("/nonexistent/dir/chat.db", &Presence::Missing);
    assert_eq!(check.status, CheckStatus::Fail);
    let resolution = check.resolution.expect("failures carry a resolution");
    assert!(resolution.contains("database_path"));
}

#[test]
fn present_check_reports_full_disk_access_on_permission_denied() {
    let check = check_source_present("/locked/chat.db", &Presence::Denied);
    assert_eq!(check.status, CheckStatus::Fail);
    assert!(check.detail.contains("Full Disk Access"));
    let resolution = check.resolution.unwrap();
    assert!(resolution.contains("System Settings"));
    assert!(resolution.contains("Privacy & Security"));
}

#[test]
fn readable_check_passes_and_reports_count() {
    let check = check_source_readable(&Readability::Counted {
        messages: 1,
        caps: SchemaCaps::default(),
    });
    assert_eq!(check.status, CheckStatus::Pass, "{}", check.detail);
    assert!(check.detail.contains("read-only"));
    assert!(check.detail.contains("1 messages visible"));
}

#[test]
fn readable_check_fails_on_non_messages_database() {
    let check = check_source_readable(&Readability::NotOpened(SourceError::UnexpectedSchema {
        path: "/tmp/other.db".into(),
        missing: "message, chat".into(),
    }));
    assert_eq!(check.status, CheckStatus::Fail);
    assert!(check.detail.contains("missing tables"));
}

#[test]
fn readable_check_fails_on_corrupt_file() {
    let check = check_source_readable(&Readability::NotOpened(SourceError::Query(
        "file is not a database".into(),
    )));
    assert_eq!(check.status, CheckStatus::Fail);
    let check = check_source_readable(&Readability::CountFailed(SourceError::Query("x".into())));
    assert_eq!(check.status, CheckStatus::Fail);
    let check =
        check_source_readable(&Readability::NotOpened(SourceError::PermissionDenied("/x".into())));
    assert_eq!(check.resolution.as_deref(), Some(FDA_HELP));
}

#[test]
fn destination_check_creates_and_passes() {
    let check = check_destination_writable("/tmp/nested/app-dir", &Writability::Writable);
    assert_eq!(check.status, CheckStatus::Pass, "{}", check.detail);
    assert_eq!(check.detail, "/tmp/nested/app-dir");
}

#[test]
fn destination_check_fails_when_unwritable() {
    for w in [
        Writability::NotCreated("denied".into()),
        Writability::NotWritable("denied".into()),
    ] {
        let check = check_destination_writable("/locked/sub", &w);
        assert_eq!(check.status, CheckStatus::Fail);
        assert!(check.detail.ends_with("/locked/sub: denied"));
    }
}

#[test]
fn contacts_warn_and_never_fail() {
    let states = [
        ContactsState::Disabled,
        ContactsState::Loaded {
            names: 3,
            databases: 2,
        },
        ContactsState::NotLoaded(ContactsError::NotFound("/c".into())),
        ContactsState::NoPath(PathError::NoHome),
    ];
    let checks: Vec<Check> = states.iter().map(check_contacts).collect();
    assert_eq!(checks[0].status, CheckStatus::Pass);
    assert_eq!(checks[1].detail, "3 names loaded from 2 database(s)");
    assert_eq!(checks[2].status, CheckStatus::Warn);
    assert_eq!(checks[3].status, CheckStatus::Warn);
}

fn probes(source: Result<SourceProbe, PathError>) -> Probes {
    Probes {
        os: "macos".into(),
        source,
        destination: Ok(DestinationProbe {
            dir: "/d".into(),
            writability: Writability::Writable,
        }),
        contacts: ContactsState::Disabled,
        fts5_error: None,
    }
}

fn loaded() -> LoadedConfig {
    LoadedConfig {
        config: Config::default(),
        path: "/c.toml".into(),
        from_file: true,
    }
}

#[test]
fn doctor_succeeds_against_fixture() {
    let checks = run_checks(
        &loaded(),
        &probes(Ok(SourceProbe {
            path: "/s".into(),
            presence: Presence::Present {
                megabytes: "1.0".into(),
            },
            readability: Some(Readability::Counted {
                messages: 2,
                caps: SchemaCaps::default(),
            }),
        })),
    );
    let out = render(&checks);
    assert!(out.contains("source database present"));
    assert!(out.contains("source database readable"));
    assert!(out.contains("destination directory writable"));
    assert!(out.contains("0 failed"));
    assert!(!has_failure(&checks));
    let names: Vec<&str> = checks.iter().map(|c| c.name).collect();
    assert_eq!(
        names,
        [
            "platform",
            "configuration",
            "source database present",
            "source database readable",
            "destination directory writable",
            "contacts database",
            "SQLite FTS5 support"
        ]
    );
}

#[test]
fn doctor_fails_with_nonzero_exit_when_source_is_missing() {
    let checks = run_checks(
        &loaded(),
        &probes(Ok(SourceProbe {
            path: "/no-such.db".into(),
            presence: Presence::Missing,
            readability: None,
        })),
    );
    assert!(has_failure(&checks));
    assert!(render(&checks).contains("FAIL"));
    let checks = run_checks(&loaded(), &probes(Err(PathError::NoHome)));
    assert_eq!(checks[2].name, "source path");
    assert!(has_failure(&checks));
}

#[test]
fn a_present_database_that_was_not_opened_fails() {
    let checks = run_checks(
        &loaded(),
        &probes(Ok(SourceProbe {
            path: "/s".into(),
            presence: Presence::Present {
                megabytes: "1.0".into(),
            },
            readability: None,
        })),
    );
    assert_eq!(checks[3].name, "source database readable");
    assert_eq!(checks[3].status, CheckStatus::Fail);
    assert!(has_failure(&checks));
}

#[test]
fn another_system_only_warns() {
    assert_eq!(check_platform("macos").status, CheckStatus::Pass);
    let check = check_platform("linux");
    assert_eq!(check.status, CheckStatus::Warn);
    assert_eq!(check.detail, "not macOS (linux)");
}
