use epub_mgr::markup::{find_attribute, find_element, find_piece};
use epub_mgr::series_metadata::remove_existing_series_metadata;

fn chars(text: &str) -> Vec<char> {
    text.chars().collect()
}

fn attribute(tag: &str, name: &str) -> Option<String> {
    find_attribute(&chars(tag), name).map(|value| value.into_iter().collect())
}

#[test]
fn pieces_end_where_they_are_closed() {
    for (text, end) in [
        ("a<b>", Some(1)),
        ("<b a='>'>c", Some(9)),
        ("<!-- <b> -->c", Some(12)),
        ("<!-->-->c", Some(8)),
        ("<![CDATA[<b>]]>c", Some(15)),
        ("<?a > ?>c", Some(8)),
        ("</b >c", Some(5)),
        ("<b", None),
        ("<b <c>", None),
        ("<!-- <b>", None),
        ("<b a='>", None),
        ("", None),
    ] {
        assert_eq!(find_piece(&chars(text), 0), end, "{text}");
    }
}

#[test]
fn elements_end_with_the_tag_that_closes_them() {
    for (text, parts) in [
        ("<b>c</b >d", Some((3, 4, 9))),
        ("<b/>c", Some((4, 4, 4))),
        ("<b><b></b></b>", Some((3, 10, 14))),
        ("<b><!-- </b> --></b>", Some((3, 16, 20))),
        ("<b><c/></b>", Some((3, 7, 11))),
        ("<b>c", Some((3, 3, 3))),
        ("</b>", None),
        ("b", None),
    ] {
        let found = find_element(&chars(text), 0)
            .map(|element| (element.tag_end, element.content_end, element.end));
        assert_eq!(found, parts, "{text}");
    }
}

#[test]
fn attributes_are_read_in_any_spelling() {
    for (tag, value) in [
        ("<b a=\"x\">", Some("x")),
        ("<b a = 'x'>", Some("x")),
        ("<b\na\n=\n'\"'/>", Some("\"")),
        ("<b y:a='x'>", Some("x")),
        ("<b c=\" a='y' \" a='x'>", Some("x")),
        ("<b ba='y'>", None),
        ("<b a>", None),
        ("<b a=x>", None),
        ("<b c='a'>", None),
    ] {
        assert_eq!(attribute(tag, "a").as_deref(), value, "{tag}");
    }
}

#[test]
fn what_is_left_of_a_series_is_taken_out_as_well() {
    let metadata = chars(
        "<meta property='belongs-to-collection' id='s'>A</meta><meta name='calibre:series'><meta refines='#s' property='collection-type'>set</meta></meta>\n",
    );
    let left: String = remove_existing_series_metadata(&metadata).into_iter().collect();
    assert_eq!(left, "");
}
