use std::io::{Cursor, Read, Write};

use epub_mgr::archive::ArchivedEntry;
use epub_mgr::enrichment::merge::{FieldPatch, MetadataField};
use epub_mgr::enrichment::{Confidence, Provenance};
use epub_mgr::epub_writer::{
    apply_patches_to_opf, escape_xml, rewrite_entry, rewrite_epub, temp_output_file_name, EpubWriteError,
    OpenedBook, PatchedCopy, PatchedCopyEvent,
};
use epub_mgr::series_metadata::find_existing_series;
use zip::write::SimpleFileOptions;
use zip::{ZipArchive, ZipWriter};

const OPF: &str = r#"<package xmlns:dc="http://purl.org/dc/elements/1.1/"><metadata><dc:title>Old</dc:title><dc:creator>Old Author</dc:creator></metadata></package>"#;

const CONTAINER: &str =
    r#"<container><rootfiles><rootfile full-path="OPS/content.opf"/></rootfiles></container>"#;

fn patch(field: MetadataField, value: &str) -> FieldPatch {
    FieldPatch {
        field,
        old_value: None,
        new_value: value.to_string(),
        confidence: Confidence::High,
        provenance: Provenance {
            source: "test".to_string(),
            record_id: "record".to_string(),
            url: "https://example.test".to_string(),
        },
        applied: true,
        reason: "test".to_string(),
    }
}

fn archive(entries: &[(&str, &[u8])]) -> Vec<u8> {
    let mut zip = ZipWriter::new(Cursor::new(Vec::new()));
    for (name, contents) in entries {
        if name.ends_with('/') {
            zip.add_directory(*name, SimpleFileOptions::default())
                .expect("directory");
        } else {
            zip.start_file(*name, SimpleFileOptions::default())
                .expect("start file");
            zip.write_all(contents).expect("write file");
        }
    }
    zip.finish().expect("finish archive").into_inner()
}

fn entries(bytes: Vec<u8>) -> Vec<(String, Vec<u8>)> {
    let mut archive = ZipArchive::new(Cursor::new(bytes)).expect("open archive");
    (0..archive.len())
        .map(|index| {
            let mut file = archive.by_index(index).expect("entry");
            let mut contents = Vec::new();
            file.read_to_end(&mut contents).expect("read entry");
            (file.name().to_string(), contents)
        })
        .collect()
}

fn malformed(message: &str) -> EpubWriteError {
    EpubWriteError::MalformedPackageDocument {
        message: message.to_string(),
    }
}

#[test]
fn writes_title_author_and_epub3_series_metadata() {
    let opf = r#"<package xmlns:dc="http://purl.org/dc/elements/1.1/"><metadata><dc:title>Old</dc:title><dc:creator>Old Author</dc:creator></metadata></package>"#;

    let updated = apply_patches_to_opf(
        opf,
        &[
            patch(MetadataField::Title, "The Way of Kings"),
            patch(MetadataField::Author, "Brandon Sanderson"),
            patch(MetadataField::Series, "The Stormlight Archive"),
            patch(MetadataField::SeriesIndex, "1"),
        ],
    )
    .expect("patches apply");

    assert!(updated.contains("<dc:title>The Way of Kings</dc:title>"));
    assert!(updated.contains("<dc:creator>Brandon Sanderson</dc:creator>"));
    assert!(updated.contains("property=\"belongs-to-collection\""));
    assert!(updated.contains("The Stormlight Archive"));
    assert!(updated.contains("property=\"group-position\">1</meta>"));
    assert!(updated.contains("name=\"calibre:series\""));
}

#[test]
fn series_elements_are_written_in_full() {
    let updated = apply_patches_to_opf(
        "<metadata>\n  <dc:title>T</dc:title>\n  <meta name=\"calibre:series\" content=\"Old\"/>\n  <meta property=\"belongs-to-collection\" id=\"x\">Old</meta>\n  <x/>\n</metadata>",
        &[
            patch(MetadataField::Series, "A & B"),
            patch(MetadataField::SeriesIndex, "2"),
        ],
    )
    .expect("patches apply");
    assert_eq!(
        updated,
        "<metadata>\n  <dc:title>T</dc:title>\n  <x/>\n\n    <meta property=\"belongs-to-collection\" id=\"epub-mgr-series\">A &amp; B</meta>\n    <meta refines=\"#epub-mgr-series\" property=\"collection-type\">series</meta>\n    <meta refines=\"#epub-mgr-series\" property=\"group-position\">2</meta>\n    <meta name=\"calibre:series\" content=\"A &amp; B\"/>\n    <meta name=\"calibre:series_index\" content=\"2\"/>\n</metadata>"
    );
}

#[test]
fn a_place_without_a_series_is_written_too() {
    let updated = apply_patches_to_opf(
        "<metadata></metadata>",
        &[patch(MetadataField::SeriesIndex, "3")],
    )
    .expect("patch applies");
    assert_eq!(
        updated,
        "<metadata>\n    <meta property=\"belongs-to-collection\" id=\"epub-mgr-series\"></meta>\n    <meta refines=\"#epub-mgr-series\" property=\"collection-type\">series</meta>\n    <meta refines=\"#epub-mgr-series\" property=\"group-position\">3</meta>\n    <meta name=\"calibre:series_index\" content=\"3\"/>\n</metadata>"
    );
}

#[test]
fn titles_are_replaced_or_added_with_escapes() {
    let value = "<A> & \"B\"";
    let updated = apply_patches_to_opf(OPF, &[patch(MetadataField::Title, value)]).expect("title");
    assert_eq!(
        updated,
        OPF.replace(">Old<", ">&lt;A&gt; &amp; &quot;B&quot;<")
    );
    let added = apply_patches_to_opf(
        "a<metadata x=\"y\"></metadata>b",
        &[
            patch(MetadataField::Title, "T"),
            patch(MetadataField::Author, "C"),
        ],
    )
    .expect("added");
    assert_eq!(
        added,
        "a<metadata x=\"y\">\n    <dc:title>T</dc:title>\n    <dc:creator>C</dc:creator></metadata>b"
    );
    let attributes = apply_patches_to_opf(
        "<metadata><dc:title id=\"t\">Old</dc:title></metadata>",
        &[patch(MetadataField::Title, "New")],
    )
    .expect("attributes");
    assert_eq!(
        attributes,
        "<metadata><dc:title id=\"t\">New</dc:title></metadata>"
    );
}

#[test]
fn patches_that_are_not_applied_change_nothing() {
    let mut title = patch(MetadataField::Title, "New");
    title.applied = false;
    let mut series = patch(MetadataField::Series, "New");
    series.applied = false;
    assert_eq!(
        apply_patches_to_opf(OPF, &[title, series]).expect("unchanged"),
        OPF
    );
}

#[test]
fn package_documents_need_a_metadata_element() {
    assert_eq!(
        apply_patches_to_opf("<package/>", &[]),
        Err(malformed("missing metadata element"))
    );
    assert_eq!(
        apply_patches_to_opf("<package><metadata", &[]),
        Err(malformed("unclosed metadata element"))
    );
    assert_eq!(
        apply_patches_to_opf("<metadata>x", &[]),
        Err(malformed("missing metadata close element"))
    );
}

#[test]
fn copies_keep_every_entry_but_the_package_document() {
    let source = archive(&[
        ("mimetype", b"application/epub+zip"),
        ("META-INF/container.xml", CONTAINER.as_bytes()),
        ("OPS/", b""),
        ("OPS/content.opf", OPF.as_bytes()),
        ("OPS/\u{fc}ber.xhtml", b"<html/>"),
        ("empty", b""),
    ]);
    let patches = [patch(MetadataField::Title, "New")];
    let copy = rewrite_epub(source.clone(), &patches).expect("copy");
    let before = entries(source);
    let after = entries(copy);
    assert_eq!(after.len(), before.len());
    for (old, new) in before.iter().zip(&after) {
        assert_eq!(old.0, new.0);
        if old.0 == "OPS/content.opf" {
            let expected = apply_patches_to_opf(OPF, &patches).expect("patched");
            assert_eq!(new.1, expected.as_bytes());
        } else {
            assert_eq!(old.1, new.1);
        }
    }
}

#[test]
fn books_that_cannot_be_copied_say_why() {
    assert!(matches!(
        rewrite_epub(b"not a zip".to_vec(), &[]),
        Err(EpubWriteError::Zip { .. })
    ));
    assert_eq!(
        rewrite_epub(archive(&[("mimetype", b"x")]), &[]),
        Err(EpubWriteError::MissingContainer)
    );
    assert_eq!(
        rewrite_epub(archive(&[("META-INF/container.xml", b"<container/>")]), &[]),
        Err(EpubWriteError::MissingRootfile)
    );
    assert_eq!(
        rewrite_epub(
            archive(&[("META-INF/container.xml", b"full-path=\"unclosed")]),
            &[]
        ),
        Err(EpubWriteError::MissingRootfile)
    );
    assert!(matches!(
        rewrite_epub(archive(&[("META-INF/container.xml", b"\xff\xfe")]), &[]),
        Err(EpubWriteError::Io { .. })
    ));
    assert!(matches!(
        rewrite_epub(
            archive(&[
                ("META-INF/container.xml", CONTAINER.as_bytes()),
                ("OPS/content.opf", b"\xff"),
            ]),
            &[]
        ),
        Err(EpubWriteError::MalformedPackageDocument { .. })
    ));
    assert_eq!(
        rewrite_epub(
            archive(&[
                ("META-INF/container.xml", CONTAINER.as_bytes()),
                ("OPS/content.opf", b"<package/>"),
            ]),
            &[]
        ),
        Err(malformed("missing metadata element"))
    );
}

#[test]
fn books_without_their_package_document_are_copied_as_they_are() {
    let source = archive(&[("META-INF/container.xml", CONTAINER.as_bytes())]);
    let book = OpenedBook::open(source.clone()).expect("open");
    let copy = book
        .write(&[patch(MetadataField::Title, "New")])
        .expect("copy");
    assert_eq!(entries(copy), entries(source));
}

#[test]
fn entries_are_rewritten_one_by_one() {
    let entry = |name: &str, contents: Result<Vec<u8>, String>| {
        Ok(ArchivedEntry {
            name: name.to_string(),
            contents,
        })
    };
    assert_eq!(
        rewrite_entry(Err("broken".to_string()), "x", &[]),
        Err(EpubWriteError::Zip {
            message: "broken".to_string()
        })
    );
    assert_eq!(
        rewrite_entry(entry("a", Err("crc".to_string())), "x", &[]),
        Err(EpubWriteError::Io {
            message: "crc".to_string()
        })
    );
    let directory = rewrite_entry(entry("a\\", Err("crc".to_string())), "x", &[]).expect("dir");
    assert_eq!(directory.name, "a\\");
    assert!(directory.contents.is_empty());
    assert_eq!(
        rewrite_entry(entry("x", Ok(vec![0xff])), "x", &[]),
        Err(malformed("invalid utf-8 sequence of 1 bytes from index 0"))
    );
    let other = rewrite_entry(entry("y", Ok(vec![0xff])), "x", &[]).expect("other");
    assert_eq!(other.contents, vec![0xff]);
}

#[test]
fn write_errors_have_messages() {
    let text = |message: &str| message.to_string();
    for (error, message) in [
        (EpubWriteError::OutputExists, "output path already exists"),
        (
            EpubWriteError::Io { message: text("x") },
            "I/O error: x",
        ),
        (
            EpubWriteError::Zip { message: text("x") },
            "ZIP error: x",
        ),
        (
            EpubWriteError::MissingContainer,
            "missing META-INF/container.xml",
        ),
        (
            EpubWriteError::MissingRootfile,
            "META-INF/container.xml has no rootfile full-path",
        ),
        (
            EpubWriteError::MissingPackageDocument { path: text("p") },
            "package document not found at p",
        ),
        (malformed("x"), "malformed package document: x"),
    ] {
        assert_eq!(error.message(), message);
    }
}

#[test]
fn patched_copies_are_renamed_last() {
    let step = PatchedCopy::start()
        .advance(PatchedCopyEvent::Exists(Ok(false)))
        .advance(PatchedCopyEvent::Did(Ok(())))
        .advance(PatchedCopyEvent::Exists(Ok(true)));
    assert_eq!(step, PatchedCopy::RemoveStaleTemp);
    let step = step.advance(PatchedCopyEvent::Did(Ok(())));
    assert_eq!(step, PatchedCopy::OpenBook);
    let step = step.advance(PatchedCopyEvent::Book(Ok(())));
    assert_eq!(step, PatchedCopy::CreateTemp);
    let step = step.advance(PatchedCopyEvent::Did(Ok(())));
    assert_eq!(step, PatchedCopy::WriteTemp);
    let step = step.advance(PatchedCopyEvent::Book(Ok(())));
    assert_eq!(step, PatchedCopy::Place);
    assert_eq!(
        step.advance(PatchedCopyEvent::Did(Ok(()))),
        PatchedCopy::Finished { result: Ok(()) }
    );
}

#[test]
fn patched_copies_leave_existing_targets_alone() {
    assert_eq!(
        PatchedCopy::start().advance(PatchedCopyEvent::Exists(Ok(true))),
        PatchedCopy::Finished {
            result: Err(EpubWriteError::OutputExists)
        }
    );
    assert_eq!(
        PatchedCopy::start().advance(PatchedCopyEvent::Did(Ok(()))),
        PatchedCopy::CheckTarget
    );
}

#[test]
fn failed_patched_copies_are_cleaned_up() {
    let io = || EpubWriteError::Io {
        message: "full".to_string(),
    };
    let full = || PatchedCopyEvent::Did(Err("full".to_string()));
    for step in [PatchedCopy::Place, PatchedCopy::CreateTemp] {
        let step = step.advance(full());
        assert_eq!(step, PatchedCopy::CleanUp { error: io() });
        assert_eq!(
            step.advance(PatchedCopyEvent::Did(Err("gone".to_string()))),
            PatchedCopy::Finished { result: Err(io()) }
        );
    }
    for step in [PatchedCopy::OpenBook, PatchedCopy::WriteTemp] {
        assert_eq!(
            step.advance(PatchedCopyEvent::Book(Err(
                EpubWriteError::MissingContainer
            ))),
            PatchedCopy::CleanUp {
                error: EpubWriteError::MissingContainer
            }
        );
    }
    for step in [
        PatchedCopy::CheckTarget.advance(PatchedCopyEvent::Exists(Err("full".to_string()))),
        PatchedCopy::CreateParent.advance(full()),
        PatchedCopy::CheckTemp.advance(PatchedCopyEvent::Exists(Err("full".to_string()))),
        PatchedCopy::RemoveStaleTemp.advance(full()),
    ] {
        assert_eq!(step, PatchedCopy::Finished { result: Err(io()) });
    }
}

#[test]
fn identifiers_are_kept_beside_a_new_series() {
    let opf = r#"<package><metadata><dc:identifier id="i">x</dc:identifier><meta name="calibre:series" content="A"/></metadata></package>"#;
    let updated =
        apply_patches_to_opf(opf, &[patch(MetadataField::Series, "B")]).expect("patched");
    assert!(updated.contains(r#"<dc:identifier id="i">x</dc:identifier>"#));
    assert!(!updated.contains(r#"content="A""#));
    assert!(updated.contains(r#"content="B""#));
}

#[test]
fn the_name_of_a_series_is_kept_beside_a_new_index() {
    let opf = "<package><metadata>\n<meta name=\"calibre:series\" content=\"A\"/>\n</metadata></package>";
    let updated =
        apply_patches_to_opf(opf, &[patch(MetadataField::SeriesIndex, "2")]).expect("patched");
    assert_eq!(
        updated,
        "<package><metadata>\n\n    <meta property=\"belongs-to-collection\" id=\"epub-mgr-series\">A</meta>\n    <meta refines=\"#epub-mgr-series\" property=\"collection-type\">series</meta>\n    <meta refines=\"#epub-mgr-series\" property=\"group-position\">2</meta>\n    <meta name=\"calibre:series\" content=\"A\"/>\n    <meta name=\"calibre:series_index\" content=\"2\"/>\n</metadata></package>"
    );
}

#[test]
fn the_place_in_a_series_is_kept_beside_a_new_name() {
    let opf = r##"<metadata><meta property="belongs-to-collection" id="c">Old &amp; "x"</meta><meta refines="#c" property="collection-type"> Series </meta><meta refines="#c" property="group-position">7</meta></metadata>"##;
    let renamed =
        apply_patches_to_opf(opf, &[patch(MetadataField::Series, "New")]).expect("patched");
    assert!(renamed.contains("id=\"epub-mgr-series\">New</meta>"));
    assert!(renamed.contains("property=\"group-position\">7</meta>"));
    assert!(!renamed.contains("Old"));
    let moved =
        apply_patches_to_opf(opf, &[patch(MetadataField::SeriesIndex, "8")]).expect("patched");
    assert!(moved.contains("id=\"epub-mgr-series\">Old &amp; &quot;x&quot;</meta>"));
    assert!(moved.contains("property=\"group-position\">8</meta>"));
    assert!(!moved.contains(">7<"));
}

#[test]
fn collections_that_are_no_series_are_kept() {
    let set = r##"<meta property='belongs-to-collection' id='s'>Box</meta><meta refines='#s' property='collection-type'>set</meta><meta refines="#s" property="group-position">3</meta>"##;
    let opf = format!(
        r##"<metadata>{set}<meta property="belongs-to-collection" id="c">Old</meta><meta refines="#c" property="collection-type">series</meta><opf:meta name="calibre:series_index" content="1 > 0"/></metadata>"##
    );
    let updated =
        apply_patches_to_opf(&opf, &[patch(MetadataField::Series, "New")]).expect("patched");
    assert!(updated.starts_with(&format!("<metadata>{set}\n    <meta property")));
    assert!(!updated.contains("Old"));
    assert!(!updated.contains("1 > 0"));
}

#[test]
fn what_is_about_no_series_is_kept() {
    for other in [
        "<metadata-x name=\"calibre:series\" content=\"A\"/>",
        "<dc:subject>calibre:series</dc:subject>",
        "<meta name=\"x\" content=\" name='calibre:series' \"/>",
        "<!-- a > b -->",
        "<dc:description><![CDATA[<meta name=\"calibre:series\" content=\"A\"/>]]></dc:description>",
        "<?x <meta name=\"calibre:series\" content=\"A\"/>?>",
    ] {
        let opf = format!("<metadata>{other}</metadata>");
        let updated =
            apply_patches_to_opf(&opf, &[patch(MetadataField::Series, "New")]).expect("patched");
        assert!(updated.starts_with(&format!("<metadata>{other}\n    <meta ")), "{other}");
    }
}

fn both(opf: &str) -> String {
    apply_patches_to_opf(
        opf,
        &[
            patch(MetadataField::Series, "S"),
            patch(MetadataField::SeriesIndex, "1"),
        ],
    )
    .expect("patched")
}

#[test]
fn a_series_is_taken_out_however_it_is_spelled() {
    let expected = both("<package><metadata></metadata></package>");
    for old in [
        "<meta property = \"belongs-to-collection\">A</meta>",
        "<meta property\n=\n'belongs-to-collection' id = 'c' >A</meta >",
        "<meta property=\"belongs-to-collection\" id=\"c\">A<!-- > --> B<![CDATA[<b>]]><?x > ?></meta\n>",
        "<meta property = \"belongs-to-collection\" id=\"c\">A</meta><meta refines = \"#c\" property = \"collection-type\" >series</meta >",
        "<meta property=\"belongs-to-collection\">a > b</meta>",
        "<meta name=\"calibre:series\" content=\"A\"><b/></meta>",
        "<meta name=\"calibre:series\" content=\"A\"><meta name=\"x\">y</meta></meta>",
        "<meta name=\"calibre:series\" content=\"A\">",
        "<META NAME='a' name='calibre:series' content='A'/>",
        "<opf:meta opf:name='calibre:series_index' content='>'/>",
        "<meta property=\" group-position \" refines=\"#c\">7</meta>",
        "<meta property=\"belongs-to-collection\" id=\"epub-mgr-series\">A</meta><meta refines=\"#epub-mgr-series\" property=\"collection-type\">set</meta>",
        "<!-- <meta name=\"calibre:series\" content=\"A\"/> -->",
    ] {
        assert_eq!(
            both(&format!("<package><metadata>{old}</metadata></package>")),
            expected,
            "{old}"
        );
    }
    for marker in [
        "\"belongs-to-collection\"",
        "\"collection-type\"",
        "\"group-position\"",
        "name=\"calibre:series\"",
        "name=\"calibre:series_index\"",
    ] {
        assert_eq!(expected.matches(marker).count(), 1);
    }
}

#[test]
fn lines_about_a_series_go_and_others_stay() {
    let opf = "<metadata>\n  <dc:title>T</dc:title>\n  <meta name=\"calibre:series\" content=\"A\"/> <meta name = 'calibre:series_index' content='1'/>\r\n  <!-- one\n  calibre:series\n  two -->\n  <dc:language>en</dc:language>\n</metadata>";
    let updated = both(opf);
    assert!(updated.starts_with(
        "<metadata>\n  <dc:title>T</dc:title>\n  <!-- one\n  two -->\n  <dc:language>en</dc:language>\n\n    <meta property"
    ));
}

#[test]
fn the_name_of_a_series_is_read_from_any_spelling() {
    let opf = r##"<metadata><!-- <meta property="belongs-to-collection" id="c">No</meta> --><meta property = 'belongs-to-collection' id="c">A <!-- x -->&amp; <![CDATA[<B>]]></meta ><meta refines="#c" property="collection-type">Series<!-- --></meta></metadata>"##;
    let updated =
        apply_patches_to_opf(opf, &[patch(MetadataField::SeriesIndex, "2")]).expect("patched");
    assert!(updated.contains("id=\"epub-mgr-series\">A &amp; &lt;B&gt;</meta>"));
    assert!(updated.contains("name=\"calibre:series\" content=\"A &amp; &lt;B&gt;\"/>"));
}

#[test]
fn escaping_can_be_undone() {
    assert_eq!(escape_xml("&lt;"), "&amp;lt;");
    assert_eq!(escape_xml("<"), "&lt;");
    for value in ["", "a & b", "<\"&quot;\">", "&amp;amp;", "plain"] {
        let escaped = escape_xml(value);
        assert!(!escaped.contains(['<', '>', '"']));
        let back = escaped
            .replace("&quot;", "\"")
            .replace("&gt;", ">")
            .replace("&lt;", "<")
            .replace("&amp;", "&");
        assert_eq!(back, value);
    }
}

#[test]
fn names_of_the_greatest_length_are_carried_over() {
    let name = "n".repeat(0xffff);
    let source = archive(&[
        ("META-INF/container.xml", CONTAINER.as_bytes()),
        (&name, b"x"),
    ]);
    let copy = rewrite_epub(source.clone(), &[]).expect("copy");
    assert_eq!(entries(copy), entries(source));
}

#[test]
fn copies_of_very_many_entries_are_read_back() {
    let names: Vec<String> = (0..0x1_0000).map(|index| format!("d{index}/")).collect();
    let mut all: Vec<(&str, &[u8])> = vec![
        ("META-INF/container.xml", CONTAINER.as_bytes()),
        ("OPS/content.opf", OPF.as_bytes()),
    ];
    all.extend(names.iter().map(|name| (name.as_str(), &b""[..])));
    let copy = rewrite_epub(archive(&all), &[]).expect("copy");
    let read = entries(copy);
    assert_eq!(read.len(), all.len());
    assert_eq!(read[1].1, OPF.as_bytes());
    assert_eq!(read[all.len() - 1].0, "d65535/");
}

#[test]
fn only_applied_patches_count() {
    let mut skipped = patch(MetadataField::Series, "No");
    skipped.applied = false;
    let mut also = patch(MetadataField::Title, "No");
    also.applied = false;
    assert_eq!(
        apply_patches_to_opf(
            OPF,
            &[
                skipped,
                patch(MetadataField::Series, "Yes"),
                also,
                patch(MetadataField::Title, "New"),
            ],
        ),
        apply_patches_to_opf(
            OPF,
            &[
                patch(MetadataField::Series, "Yes"),
                patch(MetadataField::Title, "New"),
            ],
        )
    );
}

#[test]
fn a_written_series_is_found_again() {
    let written = both("<metadata><dc:title>T</dc:title></metadata>");
    let chars: Vec<char> = written.chars().collect();
    let found = find_existing_series(&chars).expect("series");
    assert_eq!(found.series, vec!['S']);
    assert_eq!(found.index, Some(vec!['1']));
    assert!(find_existing_series(&['a', '<']).is_none());
}

#[test]
fn temporary_files_are_named_after_the_target() {
    assert_eq!(temp_output_file_name(Some("book.epub")), "book.epub.tmp");
    assert_eq!(temp_output_file_name(None), "epub-mgr-output.tmp");
}
