use epub_mgr::cli::{is_cli_invocation, NormalizeArgs};
use epub_mgr::normalize::{scan_epub_paths, NormalizeConfig, NormalizeError, WalkedEntry};
use epub_mgr::scan::{check_scan_root, scan_event, ScanEvent};

fn walked(path: &str, is_file: bool) -> Result<WalkedEntry, String> {
    Ok(WalkedEntry {
        path: path.to_string(),
        is_file,
    })
}

#[test]
fn scans_take_epub_files_in_order() {
    let found = scan_epub_paths(
        "/l",
        vec![
            walked("/l", false),
            walked("/l/z.epub", true),
            walked("/l/folder.epub", false),
            walked("/l/a/b.EPUB", true),
            walked("/l/notes.txt", true),
            walked("/l/a.epub", true),
        ],
    );
    assert_eq!(
        found,
        Ok(vec![
            "/l/a/b.EPUB".to_string(),
            "/l/a.epub".to_string(),
            "/l/z.epub".to_string()
        ])
    );
}

#[test]
fn the_first_failure_fails_the_scan() {
    let error = scan_epub_paths(
        "/l",
        vec![
            walked("/l/a.epub", true),
            Err("denied".to_string()),
            Err("other".to_string()),
        ],
    )
    .expect_err("scan fails");
    assert_eq!(
        error,
        NormalizeError::Scan {
            path: "/l".to_string(),
            message: "denied".to_string()
        }
    );
    assert_eq!(error.message(), "failed to scan /l: denied");
}

#[test]
fn listeners_are_told_of_files_and_failures() {
    let found = scan_event("7", walked("/l/a.epub", true)).expect("event");
    assert_eq!(
        found,
        ScanEvent::EpubFound {
            scan_id: "7".to_string(),
            path: "/l/a.epub".to_string()
        }
    );
    assert_eq!(found.name(), "epub-found");
    assert!(found.ends_scan(false));
    assert!(!found.ends_scan(true));
    assert_eq!(scan_event("7", walked("/l/a.epub", false)), None);
    assert_eq!(scan_event("7", walked("/l/a.pdf", true)), None);
    let error = scan_event("7", Err("denied".to_string())).expect("event");
    assert_eq!(
        error,
        ScanEvent::ScanError {
            scan_id: "7".to_string(),
            message: "denied".to_string()
        }
    );
    assert_eq!(error.name(), "scan-error");
    assert!(!error.ends_scan(false));
    let finished = ScanEvent::finished("7");
    assert_eq!(
        finished,
        ScanEvent::ScanFinished {
            scan_id: "7".to_string()
        }
    );
    assert_eq!(finished.name(), "scan-finished");
}

#[test]
fn scans_start_from_directories() {
    assert_eq!(check_scan_root("/l", true), Ok(()));
    assert_eq!(
        check_scan_root("/l", false),
        Err("/l is not a directory".to_string())
    );
}

#[test]
fn the_first_argument_decides_for_the_command_line() {
    assert!(is_cli_invocation(Some("normalize")));
    assert!(!is_cli_invocation(Some("normalise")));
    assert!(!is_cli_invocation(None));
}

#[test]
fn arguments_become_a_configuration() {
    let args = NormalizeArgs {
        source_library: "source".to_string(),
        output_library: "output".to_string(),
        template: "{title}.epub".to_string(),
        dry_run: true,
        report: Some("report.json".to_string()),
    };
    let (config, report) = args.into_config();
    assert_eq!(
        config,
        NormalizeConfig {
            source_library: "source".to_string(),
            output_library: "output".to_string(),
            output_path_template: "{title}.epub".to_string(),
            dry_run: true,
            enrichment: None,
        }
    );
    assert_eq!(report.as_deref(), Some("report.json"));
}
