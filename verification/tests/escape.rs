use concept_graph::escape::xml_esc;

#[test]
fn escapes_reserved_markup_characters() {
    assert_eq!(xml_esc("<script>&"), "&lt;script&gt;&amp;");
}

#[test]
fn leaves_plain_text_alone() {
    assert_eq!(xml_esc("plain label 42"), "plain label 42");
}

#[test]
fn escapes_only_the_three_reserved_characters() {
    assert_eq!(xml_esc("a\"b'c"), "a\"b'c");
    assert_eq!(xml_esc("&&"), "&amp;&amp;");
}

#[test]
fn escapes_empty_string() {
    assert_eq!(xml_esc(""), "");
}
