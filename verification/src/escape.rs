//! XML escaping with a restricted character set.
//!
//! Two modes are supported: attribute/content mode, which rewrites the five
//! XML-special characters to their named entities, and list-safe mode, which
//! additionally rewrites the whitespace characters that delimit elements of
//! whitespace-separated list values to numeric character references.

use vstd::prelude::*;

verus! {

/// The characters replaced in attribute/content mode.
pub open spec fn is_xml_special(c: char) -> bool {
    c == '<' || c == '>' || c == '&' || c == '\'' || c == '"'
}

/// The additional characters replaced in list-safe mode.
pub open spec fn is_list_special(c: char) -> bool {
    c == '\t' || c == '\n' || c == '\r' || c == ' '
}

/// Only characters of the active escape set are ever substituted: any other
/// character stands for itself in the output.
pub proof fn lemma_escape_untouched(c: char)
    ensures
        !is_xml_special(c) ==> esc_xml_char(c) == seq![c],
        !is_xml_special(c) && !is_list_special(c) ==> esc_list_char(c) == seq![c],
{
}

/// The replacement of one character in attribute/content mode.
pub open spec fn esc_xml_char(c: char) -> Seq<char> {
    if c == '<' {
        seq!['&', 'l', 't', ';']
    } else if c == '>' {
        seq!['&', 'g', 't', ';']
    } else if c == '&' {
        seq!['&', 'a', 'm', 'p', ';']
    } else if c == '\'' {
        seq!['&', 'a', 'p', 'o', 's', ';']
    } else if c == '"' {
        seq!['&', 'q', 'u', 'o', 't', ';']
    } else {
        seq![c]
    }
}

/// The replacement of one character in list-safe mode.
pub open spec fn esc_list_char(c: char) -> Seq<char> {
    if c == '\t' {
        seq!['&', '#', '9', ';']
    } else if c == '\n' {
        seq!['&', '#', '1', '0', ';']
    } else if c == '\r' {
        seq!['&', '#', '1', '3', ';']
    } else if c == ' ' {
        seq!['&', '#', '3', '2', ';']
    } else {
        esc_xml_char(c)
    }
}

/// Attribute/content-mode escaping of a whole string.
pub open spec fn spec_escape(s: Seq<char>) -> Seq<char>
    decreases s.len(),
{
    if s.len() == 0 {
        Seq::empty()
    } else {
        esc_xml_char(s[0]) + spec_escape(s.drop_first())
    }
}

/// List-safe-mode escaping of a whole string.
pub open spec fn spec_escape_list(s: Seq<char>) -> Seq<char>
    decreases s.len(),
{
    if s.len() == 0 {
        Seq::empty()
    } else {
        esc_list_char(s[0]) + spec_escape_list(s.drop_first())
    }
}

proof fn lemma_escape_push(s: Seq<char>, c: char)
    ensures
        spec_escape(s.push(c)) == spec_escape(s) + esc_xml_char(c),
    decreases s.len(),
{
    if s.len() == 0 {
        assert(s.push(c)[0] == c);
        assert(s.push(c).drop_first() =~= Seq::<char>::empty());
        assert(spec_escape(s.push(c)) == esc_xml_char(c) + spec_escape(Seq::<char>::empty()));
        assert(esc_xml_char(c) + spec_escape(Seq::<char>::empty()) =~= esc_xml_char(c));
        assert(spec_escape(s) + esc_xml_char(c) =~= esc_xml_char(c));
    } else {
        assert(s.push(c)[0] == s[0]);
        assert(s.push(c).drop_first() =~= s.drop_first().push(c));
        lemma_escape_push(s.drop_first(), c);
        assert(spec_escape(s.push(c)) =~= spec_escape(s) + esc_xml_char(c));
    }
}

proof fn lemma_escape_list_push(s: Seq<char>, c: char)
    ensures
        spec_escape_list(s.push(c)) == spec_escape_list(s) + esc_list_char(c),
    decreases s.len(),
{
    if s.len() == 0 {
        assert(s.push(c)[0] == c);
        assert(s.push(c).drop_first() =~= Seq::<char>::empty());
        assert(spec_escape_list(s.push(c)) == esc_list_char(c) + spec_escape_list(
            Seq::<char>::empty(),
        ));
        assert(esc_list_char(c) + spec_escape_list(Seq::<char>::empty()) =~= esc_list_char(c));
        assert(spec_escape_list(s) + esc_list_char(c) =~= esc_list_char(c));
    } else {
        assert(s.push(c)[0] == s[0]);
        assert(s.push(c).drop_first() =~= s.drop_first().push(c));
        lemma_escape_list_push(s.drop_first(), c);
        assert(spec_escape_list(s.push(c)) =~= spec_escape_list(s) + esc_list_char(c));
    }
}

fn escape_mode(raw: &str, list: bool) -> (out: String)
    ensures
        out@ == if list {
            spec_escape_list(raw@)
        } else {
            spec_escape(raw@)
        },
{
    let n = raw.unicode_len();
    let mut out = String::new();
    let mut i: usize = 0;
    while i < n
        invariant
            i <= n,
            n == raw@.len(),
            out@ == if list {
                spec_escape_list(raw@.take(i as int))
            } else {
                spec_escape(raw@.take(i as int))
            },
        decreases n - i,
    {
        let c = raw.get_char(i);
        proof {
            assert(raw@.take(i + 1 as int) =~= raw@.take(i as int).push(c));
            lemma_escape_push(raw@.take(i as int), c);
            lemma_escape_list_push(raw@.take(i as int), c);
        }
        if c == '<' {
            out.append("&lt;");
            proof {
                reveal_strlit("&lt;");
                assert(("&lt;")@ =~= esc_xml_char('<'));
            }
        } else if c == '>' {
            out.append("&gt;");
            proof {
                reveal_strlit("&gt;");
                assert(("&gt;")@ =~= esc_xml_char('>'));
            }
        } else if c == '&' {
            out.append("&amp;");
            proof {
                reveal_strlit("&amp;");
                assert(("&amp;")@ =~= esc_xml_char('&'));
            }
        } else if c == '\'' {
            out.append("&apos;");
            proof {
                reveal_strlit("&apos;");
                assert(("&apos;")@ =~= esc_xml_char('\''));
            }
        } else if c == '"' {
            out.append("&quot;");
            proof {
                reveal_strlit("&quot;");
                assert(("&quot;")@ =~= esc_xml_char('"'));
            }
        } else if list && c == '\t' {
            out.append("&#9;");
            proof {
                reveal_strlit("&#9;");
                assert(("&#9;")@ =~= esc_list_char('\t'));
            }
        } else if list && c == '\n' {
            out.append("&#10;");
            proof {
                reveal_strlit("&#10;");
                assert(("&#10;")@ =~= esc_list_char('\n'));
            }
        } else if list && c == '\r' {
            out.append("&#13;");
            proof {
                reveal_strlit("&#13;");
                assert(("&#13;")@ =~= esc_list_char('\r'));
            }
        } else if list && c == ' ' {
            out.append("&#32;");
            proof {
                reveal_strlit("&#32;");
                assert(("&#32;")@ =~= esc_list_char(' '));
            }
        } else {
            let piece = raw.substring_char(i, i + 1);
            proof {
                assert(piece@ =~= seq![c]);
                assert(seq![c] =~= if list {
                    esc_list_char(c)
                } else {
                    esc_xml_char(c)
                });
            }
            out.append(piece);
        }
        i = i + 1;
    }
    proof {
        assert(raw@.take(n as int) =~= raw@);
    }
    out
}

/// Whether `p` is a prefix of `s`.
pub open spec fn has_prefix(s: Seq<char>, p: Seq<char>) -> bool {
    p.len() <= s.len() && s.take(p.len() as int) == p
}

/// Standard XML-entity decoding of the five named entities: each occurrence
/// of `&lt;`, `&gt;`, `&amp;`, `&apos;`, `&quot;` becomes the character it
/// names, and every other character stands for itself.
pub open spec fn spec_unescape(s: Seq<char>) -> Seq<char>
    decreases s.len(),
{
    if s.len() == 0 {
        Seq::empty()
    } else if has_prefix(s, esc_xml_char('<')) {
        seq!['<'] + spec_unescape(s.skip(4))
    } else if has_prefix(s, esc_xml_char('>')) {
        seq!['>'] + spec_unescape(s.skip(4))
    } else if has_prefix(s, esc_xml_char('&')) {
        seq!['&'] + spec_unescape(s.skip(5))
    } else if has_prefix(s, esc_xml_char('\'')) {
        seq!['\''] + spec_unescape(s.skip(6))
    } else if has_prefix(s, esc_xml_char('"')) {
        seq!['"'] + spec_unescape(s.skip(6))
    } else {
        seq![s[0]] + spec_unescape(s.drop_first())
    }
}

/// Escaping round-trips: decoding the escaped form of any string under
/// standard XML-entity decoding gives the original string back.
pub proof fn lemma_escape_roundtrip(s: Seq<char>)
    ensures
        spec_unescape(spec_escape(s)) == s,
    decreases s.len(),
{
    if s.len() == 0 {
        assert(spec_unescape(spec_escape(s)) =~= s);
    } else {
        let c = s[0];
        let head = esc_xml_char(c);
        let rest = spec_escape(s.drop_first());
        let w = head + rest;
        assert(spec_escape(s) == w);
        lemma_escape_roundtrip(s.drop_first());
        if c == '<' || c == '>' {
            assert(has_prefix(w, esc_xml_char(c))) by {
                assert(w.take(4) =~= head);
            }
            if c == '>' {
                assert(!has_prefix(w, esc_xml_char('<'))) by {
                    if has_prefix(w, esc_xml_char('<')) {
                        assert(w.take(4)[1] == 'g');
                    }
                }
            }
            assert(w.skip(4) =~= rest);
            assert(spec_unescape(w) =~= seq![c] + s.drop_first());
            assert(seq![c] + s.drop_first() =~= s);
        } else if c == '&' {
            assert(!has_prefix(w, esc_xml_char('<'))) by {
                if has_prefix(w, esc_xml_char('<')) {
                    assert(w.take(4)[1] == 'a');
                }
            }
            assert(!has_prefix(w, esc_xml_char('>'))) by {
                if has_prefix(w, esc_xml_char('>')) {
                    assert(w.take(4)[1] == 'a');
                }
            }
            assert(has_prefix(w, esc_xml_char('&'))) by {
                assert(w.take(5) =~= head);
            }
            assert(w.skip(5) =~= rest);
            assert(spec_unescape(w) =~= seq![c] + s.drop_first());
            assert(seq![c] + s.drop_first() =~= s);
        } else if c == '\'' || c == '"' {
            assert(!has_prefix(w, esc_xml_char('<'))) by {
                if has_prefix(w, esc_xml_char('<')) {
                    assert(w.take(4)[1] == 'a' || w.take(4)[1] == 'q');
                }
            }
            assert(!has_prefix(w, esc_xml_char('>'))) by {
                if has_prefix(w, esc_xml_char('>')) {
                    assert(w.take(4)[1] == 'a' || w.take(4)[1] == 'q');
                }
            }
            assert(!has_prefix(w, esc_xml_char('&'))) by {
                if has_prefix(w, esc_xml_char('&')) {
                    assert(w.take(5)[2] == 'o' || w.take(5)[1] == 'q');
                }
            }
            if c == '"' {
                assert(!has_prefix(w, esc_xml_char('\''))) by {
                    if has_prefix(w, esc_xml_char('\'')) {
                        assert(w.take(6)[1] == 'q');
                    }
                }
            }
            assert(has_prefix(w, esc_xml_char(c))) by {
                assert(w.take(6) =~= head);
            }
            assert(w.skip(6) =~= rest);
            assert(spec_unescape(w) =~= seq![c] + s.drop_first());
            assert(seq![c] + s.drop_first() =~= s);
        } else {
            assert(w[0] == c);
            assert(!has_prefix(w, esc_xml_char('<'))) by {
                if has_prefix(w, esc_xml_char('<')) {
                    assert(w.take(4)[0] == '&');
                }
            }
            assert(!has_prefix(w, esc_xml_char('>'))) by {
                if has_prefix(w, esc_xml_char('>')) {
                    assert(w.take(4)[0] == '&');
                }
            }
            assert(!has_prefix(w, esc_xml_char('&'))) by {
                if has_prefix(w, esc_xml_char('&')) {
                    assert(w.take(5)[0] == '&');
                }
            }
            assert(!has_prefix(w, esc_xml_char('\''))) by {
                if has_prefix(w, esc_xml_char('\'')) {
                    assert(w.take(6)[0] == '&');
                }
            }
            assert(!has_prefix(w, esc_xml_char('"'))) by {
                if has_prefix(w, esc_xml_char('"')) {
                    assert(w.take(6)[0] == '&');
                }
            }
            assert(w.drop_first() =~= rest);
            assert(spec_unescape(w) =~= seq![c] + s.drop_first());
            assert(seq![c] + s.drop_first() =~= s);
        }
    }
}

/// The escaped form of any string contains no raw `<`, `>`, `'` or `"`; the
/// only remaining special character is the `&` that opens an entity.
pub proof fn lemma_escape_no_special(s: Seq<char>)
    ensures
        forall|i: int|
            0 <= i < spec_escape(s).len() ==> {
                let c = #[trigger] spec_escape(s)[i];
                c != '<' && c != '>' && c != '\'' && c != '"'
            },
    decreases s.len(),
{
    if s.len() > 0 {
        lemma_escape_no_special(s.drop_first());
        let head = esc_xml_char(s[0]);
        let rest = spec_escape(s.drop_first());
        assert forall|i: int| 0 <= i < spec_escape(s).len() implies {
            let c = #[trigger] spec_escape(s)[i];
            c != '<' && c != '>' && c != '\'' && c != '"'
        } by {
            if i < head.len() {
                assert(spec_escape(s)[i] == head[i]);
            } else {
                assert(spec_escape(s)[i] == rest[i - head.len()]);
            }
        }
    }
}

/// The list-safe escaped form of any string contains, beyond the guarantee
/// of [`lemma_escape_no_special`], no raw tab, newline, carriage return or
/// space either.
pub proof fn lemma_escape_list_no_special(s: Seq<char>)
    ensures
        forall|i: int|
            0 <= i < spec_escape_list(s).len() ==> {
                let c = #[trigger] spec_escape_list(s)[i];
                c != '<' && c != '>' && c != '\'' && c != '"' && c != '\t' && c != '\n' && c != '\r'
                    && c != ' '
            },
    decreases s.len(),
{
    if s.len() > 0 {
        lemma_escape_list_no_special(s.drop_first());
        let head = esc_list_char(s[0]);
        let rest = spec_escape_list(s.drop_first());
        assert forall|i: int| 0 <= i < spec_escape_list(s).len() implies {
            let c = #[trigger] spec_escape_list(s)[i];
            c != '<' && c != '>' && c != '\'' && c != '"' && c != '\t' && c != '\n' && c != '\r'
                && c != ' '
        } by {
            if i < head.len() {
                assert(spec_escape_list(s)[i] == head[i]);
            } else {
                assert(spec_escape_list(s)[i] == rest[i - head.len()]);
            }
        }
    }
}

/// Escapes the five XML-special characters (`<`, `>`, `&`, `'`, `"`) to their
/// named entities, leaving every other character untouched.
pub fn escape(raw: &str) -> (out: String)
    ensures
        out@ == spec_escape(raw@),
{
    escape_mode(raw, false)
}

/// Escapes like [`escape`], and additionally rewrites tab, newline, carriage
/// return and space to numeric character references, so that the result is
/// safe inside a whitespace-separated list value.
pub fn escape_list(raw: &str) -> (out: String)
    ensures
        out@ == spec_escape_list(raw@),
{
    escape_mode(raw, true)
}

} // verus!
