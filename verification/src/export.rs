//! The pure parts of SVG export: escaping user text for markup, and the
//! outcome of an export.

use vstd::prelude::*;

use crate::text::{chars_of, push_char};

verus! {

/// What one character becomes in escaped markup.
pub open spec fn escaped_char(c: char) -> Seq<char> {
    if c == '&' {
        seq!['&', 'a', 'm', 'p', ';']
    } else if c == '<' {
        seq!['&', 'l', 't', ';']
    } else if c == '>' {
        seq!['&', 'g', 't', ';']
    } else if c == '"' {
        seq!['&', 'q', 'u', 'o', 't', ';']
    } else {
        seq![c]
    }
}

/// `s` with `&`, `<`, `>` and `"` written as entities.
pub open spec fn escaped(s: Seq<char>) -> Seq<char>
    decreases s.len(),
{
    if s.len() == 0 {
        Seq::empty()
    } else {
        escaped(s.drop_last()) + escaped_char(s.last())
    }
}

/// Reads escaped text back: each of the four entities becomes its
/// character again.
pub open spec fn unescaped(t: Seq<char>) -> Seq<char>
    decreases t.len(),
{
    if t.len() == 0 {
        Seq::empty()
    } else if t.len() >= 5 && t.take(5) == escaped_char('&') {
        seq!['&'] + unescaped(t.skip(5))
    } else if t.len() >= 4 && t.take(4) == escaped_char('<') {
        seq!['<'] + unescaped(t.skip(4))
    } else if t.len() >= 4 && t.take(4) == escaped_char('>') {
        seq!['>'] + unescaped(t.skip(4))
    } else if t.len() >= 6 && t.take(6) == escaped_char('"') {
        seq!['"'] + unescaped(t.skip(6))
    } else {
        seq![t[0]] + unescaped(t.drop_first())
    }
}

/// Escapes the characters that are special in both XML text content and
/// quoted attribute values.
pub fn escape_xml(input: &str) -> (out: String)
    ensures
        out@ == escaped(input@),
{
    let s = chars_of(input);
    let mut out = String::new();
    for i in 0..s.len()
        invariant
            s@ == input@,
            out@ == escaped(s@.take(i as int)),
    {
        let c = s[i];
        assert(s@.take(i + 1).drop_last() =~= s@.take(i as int));
        if c == '&' {
            push_char(&mut out, '&');
            push_char(&mut out, 'a');
            push_char(&mut out, 'm');
            push_char(&mut out, 'p');
            push_char(&mut out, ';');
        } else if c == '<' {
            push_char(&mut out, '&');
            push_char(&mut out, 'l');
            push_char(&mut out, 't');
            push_char(&mut out, ';');
        } else if c == '>' {
            push_char(&mut out, '&');
            push_char(&mut out, 'g');
            push_char(&mut out, 't');
            push_char(&mut out, ';');
        } else if c == '"' {
            push_char(&mut out, '&');
            push_char(&mut out, 'q');
            push_char(&mut out, 'u');
            push_char(&mut out, 'o');
            push_char(&mut out, 't');
            push_char(&mut out, ';');
        } else {
            push_char(&mut out, c);
        }
        assert(out@ =~= escaped(s@.take(i + 1)));
    }
    assert(s@.take(s@.len() as int) =~= s@);
    out
}

proof fn lemma_escaped_front(s: Seq<char>)
    requires
        s.len() > 0,
    ensures
        escaped(s) == escaped_char(s[0]) + escaped(s.drop_first()),
    decreases s.len(),
{
    if s.len() == 1 {
        assert(s.drop_last() =~= Seq::<char>::empty());
        assert(s.drop_first() =~= Seq::<char>::empty());
        assert(escaped(s) =~= escaped_char(s[0]) + escaped(s.drop_first()));
    } else {
        lemma_escaped_front(s.drop_last());
        assert(s.drop_last().drop_first() =~= s.drop_first().drop_last());
        assert(s.drop_first().last() == s.last());
        assert(escaped(s) =~= escaped_char(s[0]) + escaped(s.drop_first()));
    }
}

/// Escaping loses nothing: reading the escaped text back gives the input.
pub proof fn lemma_escape_round_trip(s: Seq<char>)
    ensures
        unescaped(escaped(s)) == s,
    decreases s.len(),
{
    if s.len() > 0 {
        lemma_escaped_front(s);
        lemma_escape_round_trip(s.drop_first());
        let c = s[0];
        let e = escaped_char(c);
        let t = e + escaped(s.drop_first());
        assert(t.skip(e.len() as int) =~= escaped(s.drop_first()));
        if c == '&' {
            assert(t.take(5) =~= escaped_char('&'));
        } else if c == '<' {
            assert(t.take(4) =~= escaped_char('<'));
            assert(!(t.len() >= 5 && t.take(5) == escaped_char('&'))) by {
                if t.len() >= 5 {
                    assert(t.take(5)[1] == t[1]);
                }
            }
        } else if c == '>' {
            assert(t.take(4) =~= escaped_char('>'));
            assert(!(t.len() >= 5 && t.take(5) == escaped_char('&'))) by {
                if t.len() >= 5 {
                    assert(t.take(5)[1] == t[1]);
                }
            }
            assert(!(t.len() >= 4 && t.take(4) == escaped_char('<'))) by {
                assert(t.take(4)[1] == t[1]);
            }
        } else if c == '"' {
            assert(t.take(6) =~= escaped_char('"'));
            assert(!(t.len() >= 5 && t.take(5) == escaped_char('&'))) by {
                if t.len() >= 5 {
                    assert(t.take(5)[1] == t[1]);
                }
            }
            assert(!(t.len() >= 4 && t.take(4) == escaped_char('<'))) by {
                assert(t.take(4)[1] == t[1]);
            }
            assert(!(t.len() >= 4 && t.take(4) == escaped_char('>'))) by {
                assert(t.take(4)[1] == t[1]);
            }
        } else {
            assert(t[0] == c);
            assert(t.drop_first() =~= escaped(s.drop_first()));
            if t.len() >= 5 {
                assert(t.take(5)[0] != escaped_char('&')[0]);
            }
            if t.len() >= 4 {
                assert(t.take(4)[0] != escaped_char('<')[0]);
                assert(t.take(4)[0] != escaped_char('>')[0]);
            }
            if t.len() >= 6 {
                assert(t.take(6)[0] != escaped_char('"')[0]);
            }
        }
        assert(seq![c] + s.drop_first() =~= s);
    }
}

/// How an export ended.
pub enum ExportOutcome {
    Exported,
    /// The user closed the save dialog without picking a location.
    Cancelled,
}


/// Escaping works character by character: escaping two texts one after the
/// other is escaping them joined.
pub proof fn lemma_escape_concat(a: Seq<char>, b: Seq<char>)
    ensures
        escaped(a + b) == escaped(a) + escaped(b),
    decreases b.len(),
{
    if b.len() == 0 {
        assert(a + b =~= a);
        assert(escaped(b) =~= Seq::<char>::empty());
        assert(escaped(a) + escaped(b) =~= escaped(a));
    } else {
        lemma_escape_concat(a, b.drop_last());
        assert((a + b).drop_last() =~= a + b.drop_last());
        assert((a + b).last() == b.last());
        assert(escaped(a + b) =~= escaped(a) + escaped(b));
    }
}

/// The escaped text holds none of the characters that would break XML
/// markup or an attribute (`<`, `>`, `"`), and text without `&`, `<`, `>`
/// or `"` is left as it is.
pub proof fn lemma_escape_safe(s: Seq<char>)
    ensures
        forall|i: int| 0 <= i < escaped(s).len() ==> #[trigger] escaped(s)[i] != '<' && escaped(s)[i] != '>' && escaped(s)[i] != '"',
        (forall|i: int| 0 <= i < s.len() ==> #[trigger] s[i] != '&' && s[i] != '<' && s[i] != '>' && s[i] != '"') ==> escaped(s) == s,
    decreases s.len(),
{
    if s.len() > 0 {
        let init = s.drop_last();
        lemma_escape_safe(init);
        let e = escaped(s);
        let t = escaped_char(s.last());
        assert(e == escaped(init) + t);
        assert forall|i: int| 0 <= i < e.len() implies #[trigger] e[i] != '<' && e[i] != '>' && e[i] != '"' by {
            if i < escaped(init).len() {
                assert(e[i] == escaped(init)[i]);
            } else {
                assert(e[i] == t[i - escaped(init).len()]);
            }
        }
        if forall|i: int| 0 <= i < s.len() ==> #[trigger] s[i] != '&' && s[i] != '<' && s[i] != '>' && s[i] != '"' {
            assert forall|i: int| 0 <= i < init.len() implies #[trigger] init[i] != '&' && init[i] != '<' && init[i] != '>' && init[i] != '"' by {
                assert(init[i] == s[i]);
            }
            assert(s[s.len() - 1] == s.last());
            assert(e =~= s);
        }
    }
}

} // verus!
