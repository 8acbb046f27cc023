use std::io::{Cursor, Write};

use epub_mgr::epub_metadata::{
    map_epub_error, metadata_from_package, read_embedded_metadata, DocFailure, EpubMetadataError,
    MetadataIdentifier, MetadataItem, MetadataRefinement, NormalizedMetadata, PackageMetadata,
};
use epub_mgr::package::open_package;
use zip::write::SimpleFileOptions;
use zip::{CompressionMethod, ZipWriter};

fn read(opf_path: &str, opf: &str) -> Result<NormalizedMetadata, EpubMetadataError> {
    read_embedded_metadata(write_epub(opf_path, opf)).expect("book can be opened")
}

fn write_epub(opf_path: &str, opf: &str) -> Vec<u8> {
    let mut zip = ZipWriter::new(Cursor::new(Vec::new()));
    let options = SimpleFileOptions::default().compression_method(CompressionMethod::Stored);

    zip.start_file("META-INF/container.xml", options)
        .expect("start container");
    zip.write_all(
        format!(
            r#"<?xml version="1.0"?>
                <container version="1.0" xmlns="urn:oasis:names:tc:opendocument:xmlns:container">
                  <rootfiles>
                    <rootfile full-path="{opf_path}" media-type="application/oebps-package+xml"/>
                  </rootfiles>
                </container>"#
        )
        .as_bytes(),
    )
    .expect("write container");
    zip.start_file("package.opf", options)
        .expect("start decoy package");
    zip.write_all(b"<package><metadata><dc:title>Wrong</dc:title></metadata></package>")
        .expect("write decoy");
    zip.start_file(opf_path, options).expect("start OPF");
    zip.write_all(add_minimal_reading_order(opf).as_bytes())
        .expect("write OPF");
    zip.start_file("chapter.xhtml", options)
        .expect("start chapter");
    zip.write_all(b"<html><body>Chapter</body></html>")
        .expect("write chapter");
    zip.finish().expect("finish EPUB").into_inner()
}

fn add_minimal_reading_order(opf: &str) -> String {
    let additions = r#"
              <manifest>
                <item id="chapter" href="chapter.xhtml" media-type="application/xhtml+xml"/>
              </manifest>
              <spine>
                <itemref idref="chapter"/>
              </spine>
        "#;
    opf.replacen("</package>", &format!("{additions}</package>"), 1)
}

fn item(property: &str, value: &str, refined: &[(&str, &str)]) -> MetadataItem {
    MetadataItem {
        property: property.to_string(),
        value: value.to_string(),
        refined: refined
            .iter()
            .map(|(property, value)| MetadataRefinement {
                property: property.to_string(),
                value: value.to_string(),
            })
            .collect(),
    }
}

fn read_items(items: Vec<MetadataItem>) -> NormalizedMetadata {
    metadata_from_package(Ok(PackageMetadata {
        items,
        unique_identifier: None,
    }))
    .expect("metadata")
}

#[test]
fn reads_package_document_referenced_by_container_xml() {
    let metadata = read(
        "OPS/content.opf",
        r##"<?xml version="1.0"?>
            <package xmlns="http://www.idpf.org/2007/opf" xmlns:dc="http://purl.org/dc/elements/1.1/" xmlns:opf="http://www.idpf.org/2007/opf" unique-identifier="book-id">
              <metadata>
                <dc:title>Container Selected Title</dc:title>
                <dc:creator opf:role="aut">Author One</dc:creator>
                <dc:creator opf:role="edt">Editor One</dc:creator>
                <dc:creator id="c2">Author Two</dc:creator>
                <meta property="role" refines="#c2">aut</meta>
                <dc:language>en</dc:language>
                <dc:identifier id="book-id" opf:scheme="uuid">urn:uuid:123</dc:identifier>
                <dc:identifier>isbn:9780000000000</dc:identifier>
              </metadata>
            </package>"##,
    )
    .expect("metadata");

    assert_eq!(metadata.title.as_deref(), Some("Container Selected Title"));
    assert_eq!(metadata.authors, vec!["Author One", "Author Two"]);
    assert_eq!(metadata.language.as_deref(), Some("en"));
    assert_eq!(
        metadata.identifiers,
        vec![
            MetadataIdentifier {
                value: "urn:uuid:123".to_string(),
                scheme: Some("uuid".to_string()),
                is_unique: true,
            },
            MetadataIdentifier {
                value: "isbn:9780000000000".to_string(),
                scheme: None,
                is_unique: false,
            },
        ]
    );
}

#[test]
fn ignores_non_dublin_core_metadata_elements() {
    let metadata = read(
        "content.opf",
        r#"<?xml version="1.0"?>
            <package xmlns="http://www.idpf.org/2007/opf" xmlns:dc="http://purl.org/dc/elements/1.1/" xmlns:custom="urn:not-dc" unique-identifier="book-id">
              <metadata>
                <custom:title>Wrong Title</custom:title>
                <title>Wrong Unqualified Title</title>
                <custom:creator>Wrong Author</custom:creator>
                <custom:language>xx</custom:language>
                <custom:identifier id="book-id">wrong-id</custom:identifier>
                <dc:title>Right Title</dc:title>
                <dc:creator>Right Author</dc:creator>
                <dc:language>en</dc:language>
                <dc:identifier id="book-id">right-id</dc:identifier>
              </metadata>
            </package>"#,
    )
    .expect("metadata");

    assert_eq!(metadata.title.as_deref(), Some("Right Title"));
    assert_eq!(metadata.authors, vec!["Right Author"]);
    assert_eq!(metadata.language.as_deref(), Some("en"));
    assert_eq!(
        metadata.identifiers,
        vec![MetadataIdentifier {
            value: "right-id".to_string(),
            scheme: None,
            is_unique: true,
        }]
    );
}

#[test]
fn reads_dublin_core_elements_from_default_namespace() {
    let metadata = read(
        "content.opf",
        r#"<?xml version="1.0"?>
            <package xmlns="http://www.idpf.org/2007/opf" unique-identifier="book-id">
              <metadata xmlns="http://purl.org/dc/elements/1.1/">
                <title>Default Namespace Title</title>
                <creator>Default Namespace Author</creator>
                <language>en</language>
                <identifier id="book-id">default-id</identifier>
              </metadata>
            </package>"#,
    )
    .expect("metadata");

    assert_eq!(metadata.title.as_deref(), Some("Default Namespace Title"));
    assert_eq!(metadata.authors, vec!["Default Namespace Author"]);
    assert_eq!(metadata.language.as_deref(), Some("en"));
    assert_eq!(metadata.identifiers[0].value, "default-id");
}

#[test]
fn reads_epub3_collection_series_metadata() {
    let metadata = read(
        "content.opf",
        r##"<?xml version="1.0"?>
            <package xmlns="http://www.idpf.org/2007/opf" xmlns:dc="http://purl.org/dc/elements/1.1/" version="3.0">
              <metadata>
                <dc:title>Series Book</dc:title>
                <dc:creator>Series Author</dc:creator>
                <dc:language>en</dc:language>
                <meta property="belongs-to-collection" id="collection-1">Epic Cycle</meta>
                <meta property="collection-type" refines="#collection-1">series</meta>
                <meta property="group-position" refines="#collection-1">1</meta>
              </metadata>
            </package>"##,
    )
    .expect("metadata");

    assert_eq!(metadata.series.as_deref(), Some("Epic Cycle"));
    assert_eq!(metadata.series_index.as_deref(), Some("1"));
    assert!(metadata.warnings.is_empty());
}

#[test]
fn falls_back_to_calibre_series_metadata_without_epub3_series() {
    let metadata = read(
        "content.opf",
        r#"<?xml version="1.0"?>
            <package xmlns="http://www.idpf.org/2007/opf" xmlns:dc="http://purl.org/dc/elements/1.1/">
              <metadata>
                <dc:title>Calibre Book</dc:title>
                <dc:creator>Calibre Author</dc:creator>
                <dc:language>en</dc:language>
                <meta name="calibre:series" content="Fallback Saga"/>
                <meta name="calibre:series_index" content="2"/>
              </metadata>
            </package>"#,
    )
    .expect("metadata");

    assert_eq!(metadata.series.as_deref(), Some("Fallback Saga"));
    assert_eq!(metadata.series_index.as_deref(), Some("2"));
    assert!(metadata.warnings.is_empty());
}

#[test]
fn warns_and_chooses_first_epub3_series_when_multiple_are_supported() {
    let metadata = read(
        "content.opf",
        r##"<?xml version="1.0"?>
            <package xmlns="http://www.idpf.org/2007/opf" xmlns:dc="http://purl.org/dc/elements/1.1/" version="3.0">
              <metadata>
                <dc:title>Ambiguous Book</dc:title>
                <dc:creator>Ambiguous Author</dc:creator>
                <dc:language>en</dc:language>
                <meta property="belongs-to-collection" id="first">First Series</meta>
                <meta property="collection-type" refines="#first">series</meta>
                <meta property="group-position" refines="#first">3</meta>
                <meta property="belongs-to-collection" id="second">Second Series</meta>
                <meta property="collection-type" refines="#second">series</meta>
                <meta property="group-position" refines="#second">4</meta>
              </metadata>
            </package>"##,
    )
    .expect("metadata");

    assert_eq!(metadata.series.as_deref(), Some("First Series"));
    assert_eq!(metadata.series_index.as_deref(), Some("3"));
    assert_eq!(metadata.warnings, vec!["ambiguous_series"]);
}

#[test]
fn ignores_unpaired_calibre_series_index() {
    let metadata = read(
        "content.opf",
        r#"<?xml version="1.0"?>
            <package xmlns="http://www.idpf.org/2007/opf" xmlns:dc="http://purl.org/dc/elements/1.1/">
              <metadata>
                <dc:title>Standalone Index</dc:title>
                <dc:creator>Index Author</dc:creator>
                <dc:language>en</dc:language>
                <meta name="calibre:series_index" content="3"/>
              </metadata>
            </package>"#,
    )
    .expect("metadata");

    assert_eq!(metadata.series, None);
    assert_eq!(metadata.series_index, None);
}

#[test]
fn warns_and_prefers_epub3_series_when_calibre_disagrees() {
    let metadata = read(
        "content.opf",
        r##"<?xml version="1.0"?>
            <package xmlns="http://www.idpf.org/2007/opf" xmlns:dc="http://purl.org/dc/elements/1.1/" version="3.0">
              <metadata>
                <dc:title>Conflict Book</dc:title>
                <dc:creator>Conflict Author</dc:creator>
                <dc:language>en</dc:language>
                <meta property="belongs-to-collection" id="epub3">Preferred Series</meta>
                <meta property="collection-type" refines="#epub3">series</meta>
                <meta property="group-position" refines="#epub3">5</meta>
                <meta name="calibre:series" content="Other Series"/>
                <meta name="calibre:series_index" content="6"/>
              </metadata>
            </package>"##,
    )
    .expect("metadata");

    assert_eq!(metadata.series.as_deref(), Some("Preferred Series"));
    assert_eq!(metadata.series_index.as_deref(), Some("5"));
    assert_eq!(metadata.warnings, vec!["series_conflict"]);
}

#[test]
fn malformed_package_document_is_metadata_error() {
    let error = read("content.opf", "<package><metadata><dc:title>Broken")
        .expect_err("malformed OPF should fail");

    assert_eq!(error.code(), "malformed_package_document");
}

#[test]
fn roles_decide_who_is_an_author() {
    let metadata = read_items(vec![
        item("creator", " No Role ", &[]),
        item("creator", "Words", &[("role", "edt AUT")]),
        item("creator", "Two Roles", &[("role", "edt"), ("role", "aut")]),
        item("creator", "Editor", &[("role", "edt")]),
        item("creator", "Almost", &[("role", "author")]),
        item("creator", "Other", &[("file-as", "x")]),
        item("creator", "  ", &[]),
        item("contributor", "Helper", &[]),
    ]);
    assert_eq!(
        metadata.authors,
        vec!["No Role", "Words", "Two Roles", "Other"]
    );
}

#[test]
fn only_the_first_item_of_a_property_counts() {
    let metadata = read_items(vec![
        item("title", "  ", &[]),
        item("title", "Second", &[]),
        item("language", " en ", &[]),
    ]);
    assert_eq!(metadata.title, None);
    assert_eq!(metadata.language.as_deref(), Some("en"));
    assert_eq!(
        metadata.missing_required_warnings(),
        vec!["missing_title", "missing_author"]
    );
    assert_eq!(
        NormalizedMetadata::default().missing_required_warnings(),
        vec!["missing_title", "missing_author", "missing_language"]
    );
}

#[test]
fn collections_are_series_by_their_type() {
    let metadata = read_items(vec![
        item("belongs-to-collection", "Set", &[("collection-type", "set")]),
        item("belongs-to-collection", "Untyped", &[]),
        item("belongs-to-collection", " ", &[("collection-type", "series")]),
        item(
            "belongs-to-collection",
            " Cycle ",
            &[("collection-type", " SERIES "), ("group-position", " ")],
        ),
        item("calibre:series", "Cycle", &[]),
        item("calibre:series_index", "2", &[]),
    ]);
    assert_eq!(metadata.series.as_deref(), Some("Cycle"));
    assert_eq!(metadata.series_index, None);
    assert!(metadata.warnings.is_empty());
}

#[test]
fn both_series_warnings_can_be_given() {
    let metadata = read_items(vec![
        item(
            "belongs-to-collection",
            "One",
            &[("collection-type", "series"), ("group-position", "1")],
        ),
        item("belongs-to-collection", "Two", &[("collection-type", "series")]),
        item("calibre:series", "One", &[]),
        item("calibre:series_index", "2", &[]),
    ]);
    assert_eq!(
        metadata.warnings,
        vec!["ambiguous_series", "series_conflict"]
    );
}

#[test]
fn failures_have_codes_and_messages() {
    let text = |message: &str| message.to_string();
    let failures = [
        (
            DocFailure::Io(text("denied")),
            "unreadable_epub",
            "unreadable EPUB: denied",
        ),
        (
            DocFailure::Archive(text("no META-INF/container.xml here")),
            "missing_container_xml",
            "missing META-INF/container.xml",
        ),
        (
            DocFailure::Archive(text("broken")),
            "unreadable_epub",
            "unreadable EPUB: broken",
        ),
        (
            DocFailure::Xml(text("line 1")),
            "malformed_package_document",
            "malformed package document package document: line 1",
        ),
        (
            DocFailure::InvalidEpub,
            "malformed_package_document",
            "malformed package document package document: invalid EPUB package document",
        ),
    ];
    for (failure, code, message) in failures {
        let error = map_epub_error(failure);
        assert_eq!(error.code(), code);
        assert_eq!(error.message(), message);
    }
    let others = [
        (
            EpubMetadataError::MalformedContainer { message: text("x") },
            "malformed_container_xml",
            "malformed META-INF/container.xml: x",
        ),
        (
            EpubMetadataError::MissingRootfile,
            "missing_rootfile",
            "META-INF/container.xml has no rootfile full-path",
        ),
        (
            EpubMetadataError::MissingPackageDocument { path: text("p") },
            "missing_package_document",
            "package document not found at p",
        ),
    ];
    for (error, code, message) in others {
        assert_eq!(error.code(), code);
        assert_eq!(error.message(), message);
    }
}

#[test]
fn bytes_that_are_no_archive_are_unreadable() {
    let error = read_embedded_metadata(b"not a zip".to_vec())
        .expect("can be opened")
        .expect_err("no archive");
    assert_eq!(error.code(), "unreadable_epub");
}

fn book_with_container(container: &[u8]) -> Vec<u8> {
    let mut zip = ZipWriter::new(Cursor::new(Vec::new()));
    let options = SimpleFileOptions::default();
    zip.start_file("META-INF/container.xml", options)
        .expect("start container");
    zip.write_all(container).expect("write container");
    zip.start_file("a.opf", options).expect("start package");
    zip.write_all(
        add_minimal_reading_order(
            r#"<package xmlns="http://www.idpf.org/2007/opf" xmlns:dc="http://purl.org/dc/elements/1.1/" unique-identifier="i"><metadata><dc:title>T</dc:title><dc:identifier id="i">x</dc:identifier></metadata></package>"#,
        )
        .as_bytes(),
    )
    .expect("write package");
    zip.finish().expect("finish").into_inner()
}

#[test]
fn packages_are_opened_with_their_items_and_identifier() {
    let package = open_package(book_with_container(
        br#"<container><rootfiles><rootfile full-path="a.opf"/></rootfiles></container>"#,
    ))
    .expect("can be opened")
    .expect("package");
    assert_eq!(
        package,
        PackageMetadata {
            items: vec![item("title", "T", &[]), item("identifier", "x", &[])],
            unique_identifier: Some("x".to_string()),
        }
    );
}

#[test]
fn containers_without_a_package_document_fail() {
    let failure = open_package(book_with_container(
        br#"<container><rootfiles><rootfile full-path="b.opf"/></rootfiles></container>"#,
    ))
    .expect("can be opened")
    .expect_err("no package");
    assert!(matches!(failure, DocFailure::Archive(_)));
    let failure = open_package(book_with_container(b"<container/>"))
        .expect("can be opened")
        .expect_err("no rootfile");
    assert_eq!(
        failure,
        DocFailure::Xml("Attribute Not Found: rootfile".to_string())
    );
}

fn container_with(attribute: &str) -> String {
    format!("<container><rootfiles><rootfile {attribute}/></rootfiles></container>")
}

#[test]
fn containers_that_may_name_a_root_are_not_opened() {
    for attribute in [
        "full-path=\"\"",
        "full-path=\"/\"",
        "full-path='/.'",
        "full-path=\"&#47;\"",
        "full-path=\"&#47;/server/share\"",
        "full-path=\"/&#47;server/share\"",
        "full-path=\"&#92;&#92;server\"",
        "full-path=\"c:\"",
        "full-path=\"c&#58;\"",
        "full-path=\"//server/share\"",
        "full-path=\"a.opf\" x:full-path=\"/\"",
    ] {
        let container = container_with(attribute);
        assert_eq!(open_package(book_with_container(container.as_bytes())), None, "{attribute}");
        assert_eq!(
            read_embedded_metadata(book_with_container(container.as_bytes())),
            None
        );
    }
    assert_eq!(open_package(book_with_container(b"a\0bc")), None);
    assert_eq!(
        open_package(book_with_container(
            b"<!DOCTYPE c [<!ENTITY e 'x'>]><container/>"
        )),
        None
    );
}

#[test]
fn containers_are_read_however_they_are_written() {
    for attribute in [
        "full-path=\"a.opf\"",
        "full-path='a.opf'",
        "full-path = \"a.opf\"",
        "full-path\n=\n'a.opf'",
        "full-path=\"&#97;.opf\"",
        "note=\"the full-path of ENTITY\" full-path=\"a.opf\"",
    ] {
        let container = container_with(attribute);
        let package = open_package(book_with_container(container.as_bytes()))
            .expect("can be opened")
            .expect("package");
        assert_eq!(package.unique_identifier.as_deref(), Some("x"), "{attribute}");
    }
    let comment = format!(
        "<!-- full-path, ENTITY -->{}",
        container_with("full-path=\"a.opf\"")
    );
    assert!(open_package(book_with_container(comment.as_bytes()))
        .expect("can be opened")
        .is_ok());
    let other = open_package(book_with_container(
        container_with("full-path=\"a&amp;b:c.opf\"").as_bytes(),
    ))
    .expect("can be opened");
    assert!(matches!(other, Err(DocFailure::Archive(_))));
    for dots in [".", ".."] {
        let container = container_with(&format!("full-path = \"{dots}\""));
        let opened = open_package(book_with_container(container.as_bytes()));
        assert!(opened.expect("can be opened").is_err());
    }
}

#[test]
fn containers_in_utf_16_are_read() {
    for high_first in [true, false] {
        let mut bytes = if high_first {
            vec![0xfe, 0xff]
        } else {
            vec![0xff, 0xfe]
        };
        for unit in container_with("full-path=\"a.opf\"").encode_utf16() {
            bytes.extend(if high_first {
                unit.to_be_bytes()
            } else {
                unit.to_le_bytes()
            });
        }
        assert!(open_package(book_with_container(&bytes))
            .expect("can be opened")
            .is_ok());
    }
}
