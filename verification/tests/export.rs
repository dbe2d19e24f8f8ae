use synthia::export::escape_xml;

#[test]
fn escapes_special_characters() {
    assert_eq!(escape_xml(r#"a & b < c > d " e"#), "a &amp; b &lt; c &gt; d &quot; e");
}

#[test]
fn leaves_ordinary_text_alone() {
    assert_eq!(escape_xml("plain text 'quoted' é"), "plain text 'quoted' é");
    assert_eq!(escape_xml(""), "");
}

#[test]
fn escapes_an_ampersand_that_starts_an_entity() {
    assert_eq!(escape_xml("&amp;"), "&amp;amp;");
}
