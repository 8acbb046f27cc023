use epub_mgr::copier::{
    unique_temp_file_name_for_counter, CopyError, CopyEvent, CopyOutcome, CopyStep, EpubCopy,
    IoFailure, IoFailureKind,
};

fn start() -> EpubCopy {
    EpubCopy::start(
        "/in/book.epub".to_string(),
        "/out/a/book.epub".to_string(),
        Some("/out/a".to_string()),
        Some("book.epub".to_string()),
        42,
    )
}

fn failed(kind: IoFailureKind, message: &str) -> CopyEvent {
    CopyEvent::Did(Err(IoFailure {
        kind,
        message: message.to_string(),
    }))
}

fn done() -> CopyEvent {
    CopyEvent::Did(Ok(()))
}

fn missing() -> CopyEvent {
    CopyEvent::Exists(Ok(false))
}

fn with_temp() -> EpubCopy {
    start()
        .advance(missing())
        .advance(done())
        .advance(missing())
        .advance(CopyEvent::TempId(7))
        .advance(done())
}

fn placing() -> EpubCopy {
    with_temp()
        .advance(done())
        .advance(done())
        .advance(done())
        .advance(done())
}

fn outcome(copy: &EpubCopy) -> Option<CopyOutcome> {
    match copy.step() {
        CopyStep::Finished { result: Ok(found) } => Some(*found),
        _ => None,
    }
}

fn message(copy: &EpubCopy) -> Option<String> {
    match copy.step() {
        CopyStep::Finished { result: Err(error) } => Some(error.message()),
        _ => None,
    }
}

#[test]
fn copies_go_through_a_temporary_file() {
    let copy = start();
    assert_eq!(*copy.step(), CopyStep::CheckTarget);
    let copy = copy.advance(missing());
    assert_eq!(*copy.step(), CopyStep::CreateParent);
    let copy = copy.advance(done());
    assert_eq!(*copy.step(), CopyStep::CheckTargetAgain);
    let copy = copy.advance(missing());
    assert_eq!(*copy.step(), CopyStep::TakeTempId { attempt: 1 });
    let copy = copy.advance(CopyEvent::TempId(7));
    let temp = "/out/a/.book.epub.tmp.42.7".to_string();
    assert_eq!(
        *copy.step(),
        CopyStep::CreateTemp {
            attempt: 1,
            temp: temp.clone()
        }
    );
    let copy = copy.advance(done());
    assert_eq!(*copy.step(), CopyStep::OpenSource { temp: temp.clone() });
    let copy = copy.advance(done());
    assert_eq!(*copy.step(), CopyStep::CopyBytes { temp: temp.clone() });
    let copy = copy.advance(done());
    assert_eq!(*copy.step(), CopyStep::FlushTemp { temp: temp.clone() });
    let copy = copy.advance(done());
    assert_eq!(*copy.step(), CopyStep::SyncTemp { temp: temp.clone() });
    let copy = copy.advance(done());
    assert_eq!(*copy.step(), CopyStep::Place { temp });
    let copy = copy.advance(done());
    assert_eq!(*copy.step(), CopyStep::SyncParent);
    let copy = copy.advance(failed(IoFailureKind::Other, "ignored"));
    assert_eq!(outcome(&copy), Some(CopyOutcome::Copied));
}

#[test]
fn existing_targets_are_left_alone() {
    let exists = || CopyEvent::Exists(Ok(true));
    assert_eq!(
        outcome(&start().advance(exists())),
        Some(CopyOutcome::OutputExists)
    );
    assert_eq!(
        outcome(&start().advance(missing()).advance(done()).advance(exists())),
        Some(CopyOutcome::OutputExists)
    );
    let late = placing().advance(failed(IoFailureKind::AlreadyExists, "exists"));
    assert!(matches!(late.step(), CopyStep::DropTemp { .. }));
    assert_eq!(
        outcome(&late.advance(done())),
        Some(CopyOutcome::OutputExists)
    );
}

#[test]
fn create_unique_temp_file_uses_a_fresh_name_when_a_candidate_exists() {
    let copy = start()
        .advance(missing())
        .advance(done())
        .advance(missing())
        .advance(CopyEvent::TempId(0));
    let reserved = "/out/a/.book.epub.tmp.42.0".to_string();
    assert_eq!(
        *copy.step(),
        CopyStep::CreateTemp {
            attempt: 1,
            temp: reserved.clone()
        }
    );
    let copy = copy.advance(failed(IoFailureKind::AlreadyExists, "exists"));
    assert_eq!(*copy.step(), CopyStep::TakeTempId { attempt: 2 });
    let copy = copy.advance(CopyEvent::TempId(1)).advance(done());
    let fresh = "/out/a/.book.epub.tmp.42.1".to_string();
    assert_ne!(fresh, reserved);
    assert_eq!(*copy.step(), CopyStep::OpenSource { temp: fresh });
}

#[test]
fn names_for_temporary_files_run_out() {
    let mut copy = start().advance(missing()).advance(done()).advance(missing());
    for id in 0..100 {
        copy = copy
            .advance(CopyEvent::TempId(id))
            .advance(failed(IoFailureKind::AlreadyExists, "exists"));
    }
    assert_eq!(
        message(&copy).as_deref(),
        Some("failed to create a unique temporary file in /out/a after 100 attempts")
    );
}

#[test]
fn failures_say_what_failed() {
    let copy = start().advance(CopyEvent::Exists(Err(IoFailure {
        kind: IoFailureKind::Other,
        message: "denied".to_string(),
    })));
    assert_eq!(
        message(&copy).as_deref(),
        Some("failed to check whether output exists /out/a/book.epub: denied")
    );
    let copy = start()
        .advance(missing())
        .advance(failed(IoFailureKind::Other, "denied"));
    assert_eq!(
        message(&copy).as_deref(),
        Some("failed to create parent directories for /out/a/book.epub: denied")
    );
    let copy = start()
        .advance(missing())
        .advance(done())
        .advance(missing())
        .advance(CopyEvent::TempId(3))
        .advance(failed(IoFailureKind::Other, "denied"));
    assert_eq!(
        message(&copy).as_deref(),
        Some("failed to create unique temporary file in target directory /out/a/.book.epub.tmp.42.3: denied")
    );
}

#[test]
fn failures_with_a_temporary_file_clean_it_up() {
    let expected = [
        "failed to open source EPUB /in/book.epub: e",
        "failed to copy source EPUB bytes to temporary file /out/a/.book.epub.tmp.42.7: e",
        "failed to flush temporary file /out/a/.book.epub.tmp.42.7: e",
        "failed to sync temporary file /out/a/.book.epub.tmp.42.7: e",
        "failed to place temporary file at final Cleaned EPUB path /out/a/book.epub: e",
    ];
    for (steps, text) in expected.iter().enumerate() {
        let mut copy = with_temp();
        for _ in 0..steps {
            copy = copy.advance(done());
        }
        let copy = copy.advance(failed(IoFailureKind::Other, "e"));
        assert!(matches!(copy.step(), CopyStep::CleanUp { .. }));
        assert_eq!(message(&copy.advance(done())).as_deref(), Some(*text));
    }
}

#[test]
fn failed_clean_ups_are_told_of() {
    let failing = || with_temp().advance(failed(IoFailureKind::Other, "e"));
    assert_eq!(
        message(&failing().advance(failed(IoFailureKind::NotFound, "gone"))).as_deref(),
        Some("failed to open source EPUB /in/book.epub: e")
    );
    assert_eq!(
        message(&failing().advance(failed(IoFailureKind::Other, "busy"))).as_deref(),
        Some("failed to open source EPUB /in/book.epub: e; additionally failed to remove temporary file /out/a/.book.epub.tmp.42.7: busy")
    );
    let copy = placing()
        .advance(failed(IoFailureKind::AlreadyExists, "exists"))
        .advance(failed(IoFailureKind::Other, "busy"))
        .advance(done());
    assert_eq!(
        message(&copy).as_deref(),
        Some("output path already exists: /out/a/book.epub; additionally failed to remove temporary file /out/a/.book.epub.tmp.42.7: busy")
    );
}

#[test]
fn targets_need_a_parent_and_a_name() {
    let copy = EpubCopy::start("s".to_string(), "/".to_string(), None, None, 1);
    assert_eq!(
        message(&copy.advance(missing())).as_deref(),
        Some("Cleaned EPUB output path has no parent directory: /")
    );
    let copy = EpubCopy::start(
        "s".to_string(),
        "a/..".to_string(),
        Some("a".to_string()),
        None,
        1,
    );
    let copy = copy
        .advance(missing())
        .advance(done())
        .advance(missing())
        .advance(CopyEvent::TempId(0));
    assert_eq!(
        message(&copy).as_deref(),
        Some("Cleaned EPUB output path has no file name: a/..")
    );
}

#[test]
fn temporary_names_are_hidden_and_numbered() {
    let name = "book.epub".to_string();
    assert_eq!(
        unique_temp_file_name_for_counter("/out/book.epub", Some(&name), 123, 4567)
            .expect("name"),
        ".book.epub.tmp.123.4567"
    );
    let error: CopyError =
        unique_temp_file_name_for_counter("/", None, 1, 1).expect_err("no name");
    assert_eq!(
        error.message(),
        "Cleaned EPUB output path has no file name: /"
    );
}

#[test]
fn events_that_do_not_fit_change_nothing() {
    assert_eq!(start().advance(done()), start());
    assert_eq!(start().advance(CopyEvent::TempId(1)), start());
}
