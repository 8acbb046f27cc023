use epub_mgr::output_path::{
    render_output_path, sanitize_segment, unpadded_index_warning, NormalizedMetadata, PathRenderError,
};

fn metadata() -> NormalizedMetadata {
    NormalizedMetadata {
        title: Some("The Fellowship".to_string()),
        author: Some("J. R. R. Tolkien".to_string()),
        series: Some("The Lord of the Rings".to_string()),
        series_index: Some("1".to_string()),
        ..NormalizedMetadata::default()
    }
}

fn path(template: &str, metadata: &NormalizedMetadata) -> String {
    render_output_path(template, metadata)
        .expect("render path")
        .relative_path
}

fn failure(template: &str, metadata: &NormalizedMetadata) -> String {
    render_output_path(template, metadata)
        .expect_err("template should fail")
        .message()
}

fn titled(title: &str) -> NormalizedMetadata {
    NormalizedMetadata {
        title: Some(title.to_string()),
        ..NormalizedMetadata::default()
    }
}

#[test]
fn renders_default_template_with_series_and_padded_series_index() {
    let rendered = render_output_path(
        "{author}/[{series}/{series_index:02} ]{title}.epub",
        &metadata(),
    )
    .expect("render path");

    assert_eq!(
        rendered.relative_path,
        "J. R. R. Tolkien/The Lord of the Rings/01 The Fellowship.epub"
    );
    assert!(rendered.warnings.is_empty());
}

#[test]
fn omits_optional_sections_missing_non_fallback_values() {
    let rendered = render_output_path(
        "{author}/[{series}/{series_index:02} ]{title}.epub",
        &NormalizedMetadata::default(),
    )
    .expect("render path");

    assert_eq!(rendered.relative_path, "Unknown Author/Unknown Title.epub");
    assert_eq!(
        rendered.warnings,
        vec![
            "missing author; using fallback Unknown Author".to_string(),
            "missing title; using fallback Unknown Title".to_string()
        ]
    );
}

#[test]
fn leaves_non_integer_looking_series_index_unpadded_with_warning() {
    let mut metadata = metadata();
    metadata.series_index = Some("Volume 1".to_string());

    let rendered = render_output_path(
        "{author}/[{series}/{series_index:02} ]{title}.epub",
        &metadata,
    )
    .expect("render path");

    assert_eq!(
        rendered.relative_path,
        "J. R. R. Tolkien/The Lord of the Rings/Volume 1 The Fellowship.epub"
    );
    assert_eq!(
        rendered.warnings,
        vec!["series_index value \"Volume 1\" is not integer-looking; leaving unpadded"]
    );
}

#[test]
fn missing_required_non_fallback_field_outside_optional_section_is_error() {
    let error = render_output_path("{series}/{title}.epub", &NormalizedMetadata::default())
        .expect_err("missing series should fail");

    assert_eq!(
        error.message(),
        "missing required metadata field series for Output Path Template"
    );
}

#[test]
fn missing_authors_outside_optional_section_uses_author_fallback() {
    let rendered = render_output_path("{authors}/{title}.epub", &NormalizedMetadata::default())
        .expect("render path");

    assert_eq!(rendered.relative_path, "Unknown Author/Unknown Title.epub");
    assert_eq!(
        rendered.warnings,
        vec![
            "missing authors; using fallback Unknown Author".to_string(),
            "missing title; using fallback Unknown Title".to_string()
        ]
    );
}

#[test]
fn missing_identifier_outside_optional_section_renders_empty_with_warning() {
    let rendered =
        render_output_path("{identifier}-{title}.epub", &metadata()).expect("render path");

    assert_eq!(rendered.relative_path, "-The Fellowship.epub");
    assert_eq!(
        rendered.warnings,
        vec!["missing identifier; rendering empty string"]
    );
}

#[test]
fn optional_section_with_missing_identifier_disappears_without_warning() {
    let rendered =
        render_output_path("{title}/[{identifier}/]copy.epub", &metadata()).expect("render path");

    assert_eq!(rendered.relative_path, "The Fellowship/copy.epub");
    assert!(rendered.warnings.is_empty());
}

#[test]
fn sanitizes_rendered_path_segments() {
    let metadata = NormalizedMetadata {
        author: Some(" CON ".to_string()),
        title: Some(" Bad / Name \u{0} With   Spaces ".to_string()),
        ..NormalizedMetadata::default()
    };

    let rendered = render_output_path("{author}/{title}.epub", &metadata).expect("render path");

    assert_eq!(rendered.relative_path, "_CON/Bad _ Name _ With Spaces.epub");
}

#[test]
fn template_errors_name_what_is_wrong() {
    let metadata = metadata();
    assert_eq!(
        failure("{title", &metadata),
        "unclosed placeholder in Output Path Template"
    );
    assert_eq!(
        failure("[{title}", &metadata),
        "unclosed optional section in Output Path Template"
    );
    assert_eq!(
        failure("[{title]}", &metadata),
        "unclosed placeholder in Output Path Template"
    );
    assert_eq!(
        failure("{publisher}", &metadata),
        "unsupported metadata field \"publisher\" in Output Path Template"
    );
    assert_eq!(
        failure("{title:02}", &metadata),
        "unsupported placeholder format :02 for title"
    );
    assert_eq!(
        failure("{series_index:03}", &metadata),
        "unsupported placeholder format :03 for series_index"
    );
    for field in ["series", "series_index", "language", "author_sort"] {
        assert_eq!(
            failure(&format!("{{{field}}}"), &NormalizedMetadata::default()),
            format!("missing required metadata field {field} for Output Path Template")
        );
    }
}

#[test]
fn field_names_are_quoted_as_debug_text() {
    assert_eq!(
        failure("{a\"\n}", &metadata()),
        "unsupported metadata field \"a\\\"\\n\" in Output Path Template"
    );
    assert_eq!(
        PathRenderError::unsupported_field("\"x\"").message(),
        "unsupported metadata field \"x\" in Output Path Template"
    );
    assert_eq!(
        unpadded_index_warning("\"1.5\""),
        "series_index value \"1.5\" is not integer-looking; leaving unpadded"
    );
}

#[test]
fn series_index_is_padded_to_two_digits() {
    for (index, padded) in [
        ("1", "01"),
        ("10", "10"),
        ("123", "123"),
        ("007", "07"),
        ("0", "00"),
        ("000", "00"),
        (" 4 ", "04"),
    ] {
        let metadata = NormalizedMetadata {
            series_index: Some(index.to_string()),
            ..NormalizedMetadata::default()
        };
        assert_eq!(path("{series_index:02}", &metadata), padded);
    }
    let metadata = NormalizedMetadata {
        series_index: Some("1".to_string()),
        ..NormalizedMetadata::default()
    };
    assert_eq!(path("{series_index}", &metadata), "1");
}

#[test]
fn optional_sections_nest_and_need_placeholders() {
    let metadata = metadata();
    assert_eq!(path("a[b]c", &metadata), "ac");
    assert_eq!(path("[{title}[ - {language}]]", &metadata), "_");
    assert_eq!(
        path("[{title}[ in {series}]]", &metadata),
        "The Fellowship in The Lord of the Rings"
    );
    let mut blank = metadata.clone();
    blank.series = Some("  \u{a0} ".to_string());
    assert_eq!(path("x[{series}]", &blank), "x");
}

#[test]
fn segments_are_safe_names() {
    assert_eq!(path("{title}", &titled("..")), "_");
    assert_eq!(path("..", &titled("x")), "_");
    assert_eq!(path("a//b", &titled("x")), "a/_/b");
    assert_eq!(path("a\\b", &titled("x")), "a/b");
    assert_eq!(path("", &titled("x")), "_");
    assert_eq!(path("{title}", &titled("a<b>c:d\"e|f?g*h")), "a_b_c_d_e_f_g_h");
    assert_eq!(path("{title}", &titled("tab\there")), "tab_here");
    assert_eq!(path("{title}", &titled("thin\u{2009}\u{3000}space")), "thin space");
    for reserved in ["con", "PRN", "Aux", "nul", "COM1", "lpt9"] {
        assert_eq!(path("{title}", &titled(reserved)), format!("_{reserved}"));
        assert_eq!(
            path("{title}.txt", &titled(reserved)),
            format!("_{reserved}.txt")
        );
    }
    for free in ["COM0", "COM10", "LPT", "CONS"] {
        assert_eq!(path("{title}", &titled(free)), free);
    }
    let long = "x".repeat(200);
    assert_eq!(path("{title}", &titled(&long)), "x".repeat(180));
    assert_eq!(path("/a", &titled("x")), "_/a");
}

#[test]
fn segments_are_not_changed_twice() {
    for title in ["Plain", " spaced  out ", "CON", "a/b", "...", "Ünïcode"] {
        let once = path("{title}", &titled(title));
        assert_eq!(path("{title}", &titled(&once)), once);
    }
}

#[test]
fn short_segments_are_clean() {
    assert_eq!(sanitize_segment(".."), "_");
    assert_eq!(sanitize_segment(""), "_");
    for text in [" a  b ", "con.txt", ".hidden.", "a\u{3000}\u{2009}b", "x/y"] {
        let segment = sanitize_segment(text);
        assert_eq!(sanitize_segment(&segment), segment);
        assert!(!segment.starts_with([' ', '.']) && !segment.ends_with([' ', '.']));
        assert!(!segment.contains("  "));
    }
}

#[test]
fn values_do_not_change_the_number_of_folders() {
    for title in ["Plain", "a/b/c", "..", "\\", ""] {
        let rendered = path("{author}/x\\{title}.epub", &titled(title));
        assert_eq!(rendered.split('/').count(), 3, "{rendered}");
    }
}
