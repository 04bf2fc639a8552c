use box_menu::escape::{escape, escape_list};

#[test]
fn test_replace_noop() {
    assert_eq!(escape("hello"), "hello");
}

#[test]
fn test_replace_amp() {
    assert_eq!(escape("&"), "&amp;");
    assert_eq!(escape("foo&bar"), "foo&amp;bar");
    assert_eq!(escape("foo&bar&foo"), "foo&amp;bar&amp;foo");
}

#[test]
fn escape_all_special_characters() {
    assert_eq!(escape("<"), "&lt;");
    assert_eq!(escape(">"), "&gt;");
    assert_eq!(escape("'"), "&apos;");
    assert_eq!(escape("\""), "&quot;");
    assert_eq!(escape("<a>'b'&\"c\""), "&lt;a&gt;&apos;b&apos;&amp;&quot;c&quot;");
}

#[test]
fn escape_empty_input() {
    assert_eq!(escape(""), "");
    assert_eq!(escape_list(""), "");
}

#[test]
fn escape_only_special_input() {
    assert_eq!(escape("<>&'\""), "&lt;&gt;&amp;&apos;&quot;");
}

#[test]
fn escape_leaves_whitespace_alone() {
    assert_eq!(escape("a b\tc\n"), "a b\tc\n");
}

#[test]
fn escape_keeps_multibyte_text() {
    assert_eq!(escape("caf\u{e9} & t\u{e9}l\u{e9}"), "caf\u{e9} &amp; t\u{e9}l\u{e9}");
}

#[test]
fn escape_list_space() {
    assert_eq!(escape_list("a b"), "a&#32;b");
}

#[test]
fn escape_list_tab_newline_cr() {
    assert_eq!(escape_list("a\tb"), "a&#9;b");
    assert_eq!(escape_list("a\nb"), "a&#10;b");
    assert_eq!(escape_list("a\rb"), "a&#13;b");
}

#[test]
fn escape_list_also_escapes_xml_specials() {
    assert_eq!(escape_list("a<b & c"), "a&lt;b&#32;&amp;&#32;c");
}

#[test]
fn escape_is_not_idempotent() {
    assert_eq!(escape(&escape("&")), "&amp;amp;");
}
