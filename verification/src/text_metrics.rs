//! Line breaking for text objects: the counts that auto-sized text is
//! measured from, and word wrapping for fixed-width text boxes. Glyph
//! widths are approximated from the font size by the application, which
//! turns a box width into the number of characters a line may hold; the
//! breaking itself works on characters and lives here.

use vstd::prelude::*;

use crate::text::{chars_of, push_char};

verus! {

broadcast use vstd::std_specs::vec::group_vec_axioms;

/// The pieces of `s` between the occurrences of `sep` (`str::split`): one
/// more piece than there are separators, empty pieces included.
pub open spec fn split_on(s: Seq<char>, sep: char) -> Seq<Seq<char>>
    decreases s.len(),
{
    if s.len() == 0 {
        seq![Seq::empty()]
    } else {
        let prev = split_on(s.drop_last(), sep);
        if s.last() == sep {
            prev.push(Seq::empty())
        } else {
            prev.update(prev.len() - 1, prev.last().push(s.last()))
        }
    }
}

pub proof fn lemma_split_on_nonempty(s: Seq<char>, sep: char)
    ensures
        split_on(s, sep).len() >= 1,
    decreases s.len(),
{
    if s.len() > 0 {
        lemma_split_on_nonempty(s.drop_last(), sep);
    }
}

/// The length of the longest of `pieces` (0 for none).
pub open spec fn widest(pieces: Seq<Seq<char>>) -> nat
    decreases pieces.len(),
{
    if pieces.len() == 0 {
        0
    } else {
        let w = widest(pieces.drop_last());
        if pieces.last().len() > w {
            pieces.last().len()
        } else {
            w
        }
    }
}

/// The character sequences held by `v`.
pub open spec fn views(v: Seq<Vec<char>>) -> Seq<Seq<char>> {
    v.map_values(|x: Vec<char>| x@)
}

/// The pieces of `s` between the occurrences of `sep`.
fn split_chars(s: &Vec<char>, sep: char) -> (pieces: Vec<Vec<char>>)
    ensures
        views(pieces@) == split_on(s@, sep),
{
    let mut pieces: Vec<Vec<char>> = Vec::new();
    pieces.push(Vec::new());
    assert(views(pieces@) =~= split_on(s@.take(0), sep));
    for i in 0..s.len()
        invariant
            views(pieces@) == split_on(s@.take(i as int), sep),
    {
        proof {
            lemma_split_on_nonempty(s@.take(i as int), sep);
        }
        assert(s@.take(i + 1).drop_last() =~= s@.take(i as int));
        let ghost before = views(pieces@);
        if s[i] == sep {
            pieces.push(Vec::new());
            assert(views(pieces@) =~= before.push(Seq::empty()));
        } else {
            let mut last = pieces.pop().unwrap();
            last.push(s[i]);
            pieces.push(last);
            assert(views(pieces@) =~= before.update(before.len() - 1, before.last().push(s@[i as int])));
        }
    }
    assert(s@.take(s@.len() as int) =~= s@);
    pieces
}

/// How many lines `content` has and how many characters the longest one
/// holds: what the size of auto-sized text is worked out from.
pub fn text_extent(content: &str) -> (extent: (usize, usize))
    ensures
        extent.0 == split_on(content@, '\n').len(),
        extent.1 == widest(split_on(content@, '\n')),
{
    let chars = chars_of(content);
    let lines = split_chars(&chars, '\n');
    let ghost pieces = views(lines@);
    let mut most: usize = 0;
    for k in 0..lines.len()
        invariant
            pieces == views(lines@),
            most == widest(pieces.take(k as int)),
    {
        assert(pieces.take(k + 1).drop_last() =~= pieces.take(k as int));
        assert(pieces[k as int] == lines[k as int]@);
        if lines[k].len() > most {
            most = lines[k].len();
        }
    }
    assert(pieces.take(pieces.len() as int) =~= pieces);
    (lines.len(), most)
}

/// Puts `word` on the lines being built, `current` being the line still
/// open: a word longer than a line is first broken into line-long pieces,
/// each on a line of its own; what is left joins the open line after a
/// space if it fits there, else starts the next line.
pub open spec fn place_word(lines: Seq<Seq<char>>, current: Seq<char>, word: Seq<char>, max: nat) -> (Seq<Seq<char>>, Seq<char>)
    decreases word.len(),
{
    if max > 0 && word.len() > max {
        let flushed = if current.len() > 0 { lines.push(current) } else { lines };
        place_word(flushed.push(word.take(max as int)), Seq::empty(), word.skip(max as int), max)
    } else {
        let fits = if current.len() == 0 { word.len() <= max } else { current.len() + 1 + word.len() <= max };
        if !fits && current.len() > 0 {
            (lines.push(current), word)
        } else if current.len() > 0 {
            (lines, current.push(' ') + word)
        } else {
            (lines, word)
        }
    }
}

/// The finished lines and the open line after placing `words` in order.
pub open spec fn place_words(words: Seq<Seq<char>>, max: nat) -> (Seq<Seq<char>>, Seq<char>)
    decreases words.len(),
{
    if words.len() == 0 {
        (Seq::empty(), Seq::empty())
    } else {
        let placed = place_words(words.drop_last(), max);
        place_word(placed.0, placed.1, words.last(), max)
    }
}

/// The lines of one paragraph: an empty paragraph stays one empty line.
pub open spec fn paragraph_lines(paragraph: Seq<char>, max: nat) -> Seq<Seq<char>> {
    if paragraph.len() == 0 {
        seq![Seq::empty()]
    } else {
        let placed = place_words(split_on(paragraph, ' '), max);
        placed.0.push(placed.1)
    }
}

/// The lines of each paragraph, in order.
pub open spec fn wrap_paragraphs(paragraphs: Seq<Seq<char>>, max: nat) -> Seq<Seq<char>>
    decreases paragraphs.len(),
{
    if paragraphs.len() == 0 {
        Seq::empty()
    } else {
        wrap_paragraphs(paragraphs.drop_last(), max) + paragraph_lines(paragraphs.last(), max)
    }
}

/// `content` word-wrapped to lines of at most `max` characters, existing
/// newlines kept as paragraph breaks.
pub open spec fn wrapped(content: Seq<char>, max: nat) -> Seq<Seq<char>> {
    wrap_paragraphs(split_on(content, '\n'), max)
}

/// Every line holds at most `max` characters.
pub open spec fn all_fit(lines: Seq<Seq<char>>, max: nat) -> bool {
    forall|i: int| 0 <= i < lines.len() ==> (#[trigger] lines[i]).len() <= max
}

proof fn lemma_place_word_fits(lines: Seq<Seq<char>>, current: Seq<char>, word: Seq<char>, max: nat)
    requires
        max >= 1,
        all_fit(lines, max),
        current.len() <= max,
    ensures
        all_fit(place_word(lines, current, word, max).0, max),
        place_word(lines, current, word, max).1.len() <= max,
    decreases word.len(),
{
    if word.len() > max {
        let flushed = if current.len() > 0 { lines.push(current) } else { lines };
        assert(all_fit(flushed, max)) by {
            assert forall|i: int| 0 <= i < flushed.len() implies (#[trigger] flushed[i]).len() <= max by {
                if i < lines.len() {
                    assert(flushed[i] == lines[i]);
                }
            }
        }
        let next = flushed.push(word.take(max as int));
        assert(all_fit(next, max)) by {
            assert forall|i: int| 0 <= i < next.len() implies (#[trigger] next[i]).len() <= max by {
                if i < flushed.len() {
                    assert(next[i] == flushed[i]);
                }
            }
        }
        lemma_place_word_fits(next, Seq::empty(), word.skip(max as int), max);
    } else {
        let pushed = lines.push(current);
        assert forall|i: int| 0 <= i < pushed.len() implies (#[trigger] pushed[i]).len() <= max by {
            if i < lines.len() {
                assert(pushed[i] == lines[i]);
            }
        }
    }
}

proof fn lemma_place_words_fits(words: Seq<Seq<char>>, max: nat)
    requires
        max >= 1,
    ensures
        all_fit(place_words(words, max).0, max),
        place_words(words, max).1.len() <= max,
    decreases words.len(),
{
    if words.len() > 0 {
        lemma_place_words_fits(words.drop_last(), max);
        let placed = place_words(words.drop_last(), max);
        lemma_place_word_fits(placed.0, placed.1, words.last(), max);
    }
}

proof fn lemma_wrap_paragraphs_fits(paragraphs: Seq<Seq<char>>, max: nat)
    requires
        max >= 1,
    ensures
        all_fit(wrap_paragraphs(paragraphs, max), max),
    decreases paragraphs.len(),
{
    if paragraphs.len() > 0 {
        lemma_wrap_paragraphs_fits(paragraphs.drop_last(), max);
        let before = wrap_paragraphs(paragraphs.drop_last(), max);
        let p = paragraphs.last();
        let these = paragraph_lines(p, max);
        if p.len() > 0 {
            lemma_place_words_fits(split_on(p, ' '), max);
            let placed = place_words(split_on(p, ' '), max);
            assert forall|i: int| 0 <= i < these.len() implies (#[trigger] these[i]).len() <= max by {
                if i < placed.0.len() {
                    assert(these[i] == placed.0[i]);
                }
            }
        }
        let all = before + these;
        assert forall|i: int| 0 <= i < all.len() implies (#[trigger] all[i]).len() <= max by {
            if i < before.len() {
                assert(all[i] == before[i]);
            } else {
                assert(all[i] == these[i - before.len()]);
            }
        }
    }
}

/// Wrapping never produces a line longer than the limit.
pub proof fn lemma_wrapped_fits(content: Seq<char>, max: nat)
    requires
        max >= 1,
    ensures
        all_fit(wrapped(content, max), max),
{
    lemma_wrap_paragraphs_fits(split_on(content, '\n'), max);
}

/// `s` without its spaces and line breaks.
pub open spec fn visible(s: Seq<char>) -> Seq<char>
    decreases s.len(),
{
    if s.len() == 0 {
        Seq::empty()
    } else if s.last() == ' ' || s.last() == '\n' {
        visible(s.drop_last())
    } else {
        visible(s.drop_last()).push(s.last())
    }
}

/// The characters of `lines`, one line after the other.
pub open spec fn flatten(lines: Seq<Seq<char>>) -> Seq<char>
    decreases lines.len(),
{
    if lines.len() == 0 {
        Seq::empty()
    } else {
        flatten(lines.drop_last()) + lines.last()
    }
}

proof fn lemma_visible_concat(a: Seq<char>, b: Seq<char>)
    ensures
        visible(a + b) == visible(a) + visible(b),
    decreases b.len(),
{
    if b.len() == 0 {
        assert(a + b =~= a);
        assert(visible(a) + visible(b) =~= visible(a));
    } else {
        lemma_visible_concat(a, b.drop_last());
        assert((a + b).drop_last() =~= a + b.drop_last());
        assert((a + b).last() == b.last());
        if !(b.last() == ' ' || b.last() == '\n') {
            assert((visible(a) + visible(b.drop_last())).push(b.last()) =~= visible(a) + visible(b.drop_last()).push(b.last()));
        }
    }
}

proof fn lemma_flatten_concat(x: Seq<Seq<char>>, y: Seq<Seq<char>>)
    ensures
        flatten(x + y) == flatten(x) + flatten(y),
    decreases y.len(),
{
    if y.len() == 0 {
        assert(x + y =~= x);
        assert(flatten(x) + flatten(y) =~= flatten(x));
    } else {
        lemma_flatten_concat(x, y.drop_last());
        assert((x + y).drop_last() =~= x + y.drop_last());
        assert((x + y).last() == y.last());
        assert(flatten(x) + flatten(y.drop_last()) + y.last() =~= flatten(x) + (flatten(y.drop_last()) + y.last()));
    }
}

proof fn lemma_flatten_push(x: Seq<Seq<char>>, line: Seq<char>)
    ensures
        flatten(x.push(line)) == flatten(x) + line,
{
    assert(x.push(line).drop_last() =~= x);
}

/// Splitting at a space or a line break drops only that character.
proof fn lemma_split_keeps_text(s: Seq<char>, sep: char)
    requires
        sep == ' ' || sep == '\n',
    ensures
        visible(flatten(split_on(s, sep))) == visible(s),
    decreases s.len(),
{
    if s.len() > 0 {
        lemma_split_keeps_text(s.drop_last(), sep);
        lemma_split_on_nonempty(s.drop_last(), sep);
        let prev = split_on(s.drop_last(), sep);
        let c = s.last();
        if c == sep {
            lemma_flatten_push(prev, Seq::empty());
            assert(flatten(prev) + Seq::<char>::empty() =~= flatten(prev));
        } else {
            let grown = prev.update(prev.len() - 1, prev.last().push(c));
            assert(grown =~= prev.drop_last().push(prev.last().push(c)));
            assert(prev =~= prev.drop_last().push(prev.last()));
            lemma_flatten_push(prev.drop_last(), prev.last().push(c));
            lemma_flatten_push(prev.drop_last(), prev.last());
            assert(flatten(grown) =~= flatten(prev).push(c));
            assert(flatten(prev).push(c).drop_last() =~= flatten(prev));
            assert(flatten(prev).push(c).last() == c);
        }
    } else {
        lemma_flatten_push(Seq::empty(), Seq::empty());
        assert(split_on(s, sep) =~= Seq::<Seq<char>>::empty().push(Seq::empty()));
        assert(flatten(split_on(s, sep)) =~= Seq::<char>::empty());
    }
}

proof fn lemma_place_word_keeps_text(lines: Seq<Seq<char>>, current: Seq<char>, word: Seq<char>, max: nat)
    requires
        max >= 1,
    ensures
        ({
            let placed = place_word(lines, current, word, max);
            visible(flatten(placed.0) + placed.1) == visible(flatten(lines) + current) + visible(word)
        }),
    decreases word.len(),
{
    if word.len() > max {
        let flushed = if current.len() > 0 { lines.push(current) } else { lines };
        let head = word.take(max as int);
        let rest = word.skip(max as int);
        let next = flushed.push(head);
        lemma_place_word_keeps_text(next, Seq::empty(), rest, max);
        lemma_flatten_push(flushed, head);
        if current.len() > 0 {
            lemma_flatten_push(lines, current);
        } else {
            assert(flatten(lines) + current =~= flatten(lines));
        }
        assert(flatten(next) + Seq::<char>::empty() =~= flatten(flushed) + head);
        lemma_visible_concat(flatten(flushed), head);
        assert(flatten(flushed) == flatten(lines) + current || current.len() == 0);
        lemma_visible_concat(head, rest);
        assert(head + rest =~= word);
    } else {
        let fits = if current.len() == 0 { word.len() <= max } else { current.len() + 1 + word.len() <= max };
        lemma_visible_concat(flatten(lines) + current, word);
        if !fits && current.len() > 0 {
            lemma_flatten_push(lines, current);
        } else if current.len() > 0 {
            let a = flatten(lines) + current;
            assert(flatten(lines) + (current.push(' ') + word) =~= a.push(' ') + word);
            lemma_visible_concat(a.push(' '), word);
            assert(a.push(' ').drop_last() =~= a);
        } else {
            assert(flatten(lines) + current =~= flatten(lines));
        }
    }
}

proof fn lemma_place_words_keeps_text(words: Seq<Seq<char>>, max: nat)
    requires
        max >= 1,
    ensures
        visible(flatten(place_words(words, max).0) + place_words(words, max).1) == visible(flatten(words)),
    decreases words.len(),
{
    if words.len() == 0 {
        assert(Seq::<char>::empty() + Seq::<char>::empty() =~= Seq::<char>::empty());
    } else {
        lemma_place_words_keeps_text(words.drop_last(), max);
        let placed = place_words(words.drop_last(), max);
        lemma_place_word_keeps_text(placed.0, placed.1, words.last(), max);
        lemma_visible_concat(flatten(words.drop_last()), words.last());
    }
}

proof fn lemma_wrap_paragraphs_keeps_text(paragraphs: Seq<Seq<char>>, max: nat)
    requires
        max >= 1,
    ensures
        visible(flatten(wrap_paragraphs(paragraphs, max))) == visible(flatten(paragraphs)),
    decreases paragraphs.len(),
{
    if paragraphs.len() > 0 {
        lemma_wrap_paragraphs_keeps_text(paragraphs.drop_last(), max);
        let before = wrap_paragraphs(paragraphs.drop_last(), max);
        let p = paragraphs.last();
        let these = paragraph_lines(p, max);
        lemma_flatten_concat(before, these);
        lemma_visible_concat(flatten(before), flatten(these));
        lemma_visible_concat(flatten(paragraphs.drop_last()), p);
        if p.len() == 0 {
            lemma_flatten_push(Seq::empty(), Seq::empty());
            assert(flatten(these) =~= Seq::<char>::empty());
        } else {
            let placed = place_words(split_on(p, ' '), max);
            lemma_place_words_keeps_text(split_on(p, ' '), max);
            lemma_flatten_push(placed.0, placed.1);
            lemma_split_keeps_text(p, ' ');
        }
    }
}

/// Wrapping only breaks lines: leaving spaces and line breaks aside, the
/// lines hold exactly the characters of the content, in order.
pub proof fn lemma_wrapped_keeps_text(content: Seq<char>, max: nat)
    requires
        max >= 1,
    ensures
        visible(flatten(wrapped(content, max))) == visible(content),
{
    lemma_wrap_paragraphs_keeps_text(split_on(content, '\n'), max);
    lemma_split_keeps_text(content, '\n');
}

/// The characters of `s` from `from` up to `to`.
fn slice_chars(s: &Vec<char>, from: usize, to: usize) -> (out: Vec<char>)
    requires
        from <= to <= s.len(),
    ensures
        out@ == s@.subrange(from as int, to as int),
{
    let mut out: Vec<char> = Vec::new();
    for k in from..to
        invariant
            from <= to <= s.len(),
            out@ == s@.subrange(from as int, k as int),
    {
        out.push(s[k]);
        assert(out@ =~= s@.subrange(from as int, k + 1));
    }
    out
}

/// Appends the characters of `s` from `from` on to `out`.
fn append_from(out: &mut Vec<char>, s: &Vec<char>, from: usize)
    requires
        from <= s.len(),
    ensures
        final(out)@ == old(out)@ + s@.skip(from as int),
{
    let ghost start = out@;
    for k in from..s.len()
        invariant
            from <= s.len(),
            out@ == start + s@.subrange(from as int, k as int),
    {
        out.push(s[k]);
        assert(out@ =~= start + s@.subrange(from as int, k + 1));
    }
    assert(s@.subrange(from as int, s@.len() as int) =~= s@.skip(from as int));
}

fn place_word_exec(lines: &mut Vec<Vec<char>>, current: &mut Vec<char>, word: &Vec<char>, max: usize)
    requires
        max >= 1,
    ensures
        (views(final(lines)@), final(current)@) == place_word(views(old(lines)@), old(current)@, word@, max as nat),
{
    let ghost goal = place_word(views(lines@), current@, word@, max as nat);
    let mut start: usize = 0;
    assert(word@.skip(0) =~= word@);
    while word.len() - start > max
        invariant
            max >= 1,
            start <= word.len(),
            goal == place_word(views(lines@), current@, word@.skip(start as int), max as nat),
        decreases word.len() - start,
    {
        let ghost w = word@.skip(start as int);
        let ghost lines0 = views(lines@);
        let ghost current0 = current@;
        if current.len() > 0 {
            let mut taken: Vec<char> = Vec::new();
            std::mem::swap(current, &mut taken);
            let ghost before = views(lines@);
            lines.push(taken);
            assert(views(lines@) =~= before.push(taken@));
        }
        assert(current@ =~= Seq::<char>::empty());
        let head = slice_chars(word, start, start + max);
        assert(head@ =~= w.take(max as int));
        let ghost before = views(lines@);
        lines.push(head);
        assert(views(lines@) =~= before.push(head@));
        start = start + max;
        assert(word@.skip(start as int) =~= w.skip(max as int));
        assert(place_word(lines0, current0, w, max as nat) == place_word(views(lines@), current@, w.skip(max as int), max as nat));
    }
    let ghost w = word@.skip(start as int);
    let rest = word.len() - start;
    let fits = if current.len() == 0 {
        rest <= max
    } else {
        current.len() < max && rest <= max - 1 - current.len()
    };
    if !fits && current.len() > 0 {
        let mut taken: Vec<char> = Vec::new();
        std::mem::swap(current, &mut taken);
        let ghost before = views(lines@);
        lines.push(taken);
        assert(views(lines@) =~= before.push(taken@));
        append_from(current, word, start);
        assert(current@ =~= w);
    } else if current.len() > 0 {
        current.push(' ');
        append_from(current, word, start);
    } else {
        append_from(current, word, start);
        assert(current@ =~= w);
    }
}

/// Word-wraps `content` to lines of at most `max_chars` characters (the
/// caller works the limit out from the box width and the glyph size),
/// keeping its newlines as paragraph breaks. A word longer than a line is
/// broken so it cannot overflow.
pub fn wrap_text(content: &str, max_chars: usize) -> (lines: Vec<String>)
    requires
        max_chars >= 1,
    ensures
        lines@.len() == wrapped(content@, max_chars as nat).len(),
        forall|i: int| 0 <= i < lines@.len() ==> #[trigger] lines@[i]@ == wrapped(content@, max_chars as nat)[i],
{
    let max = max_chars;
    let chars = chars_of(content);
    let paragraphs = split_chars(&chars, '\n');
    let ghost ps = views(paragraphs@);
    let mut out: Vec<Vec<char>> = Vec::new();
    for k in 0..paragraphs.len()
        invariant
            max >= 1,
            ps == views(paragraphs@),
            views(out@) == wrap_paragraphs(ps.take(k as int), max as nat),
    {
        assert(ps.take(k + 1).drop_last() =~= ps.take(k as int));
        assert(ps[k as int] == paragraphs[k as int]@);
        let ghost before = views(out@);
        let paragraph = &paragraphs[k];
        if paragraph.len() == 0 {
            out.push(Vec::new());
            assert(views(out@) =~= before + seq![Seq::<char>::empty()]);
        } else {
            let words = split_chars(paragraph, ' ');
            let ghost ws = views(words@);
            let mut done: Vec<Vec<char>> = Vec::new();
            let mut current: Vec<char> = Vec::new();
            for j in 0..words.len()
                invariant
                    max >= 1,
                    ws == views(words@),
                    (views(done@), current@) == place_words(ws.take(j as int), max as nat),
            {
                assert(ws.take(j + 1).drop_last() =~= ws.take(j as int));
                assert(ws[j as int] == words[j as int]@);
                place_word_exec(&mut done, &mut current, &words[j], max);
            }
            assert(ws.take(ws.len() as int) =~= ws);
            let ghost these = views(done@).push(current@);
            done.push(current);
            assert(views(done@) =~= these);
            for j in 0..done.len()
                invariant
                    views(out@) == before + views(done@).take(j as int),
            {
                let line = slice_chars(&done[j], 0, done[j].len());
                assert(line@ =~= done[j as int]@);
                let ghost prev = views(out@);
                out.push(line);
                assert(views(out@) =~= prev.push(line@));
                assert(views(done@).take(j + 1) =~= views(done@).take(j as int).push(done@[j as int]@));
                assert(views(out@) =~= before + views(done@).take(j + 1));
            }
            assert(views(done@).take(done@.len() as int) =~= views(done@));
        }
    }
    assert(ps.take(ps.len() as int) =~= ps);
    let mut lines: Vec<String> = Vec::new();
    for k in 0..out.len()
        invariant
            lines@.len() == k,
            forall|i: int| 0 <= i < k ==> #[trigger] lines@[i]@ == out@[i]@,
    {
        let mut line = String::new();
        let chars_k = &out[k];
        for c in 0..chars_k.len()
            invariant
                k < out@.len(),
                chars_k@ == out@[k as int]@,
                line@ == out@[k as int]@.take(c as int),
        {
            push_char(&mut line, chars_k[c]);
            assert(line@ =~= out@[k as int]@.take(c + 1));
        }
        assert(out@[k as int]@.take(out@[k as int]@.len() as int) =~= out@[k as int]@);
        lines.push(line);
    }
    lines
}


/// `pieces` joined with `sep` between each two of them.
pub open spec fn joined(pieces: Seq<Seq<char>>, sep: char) -> Seq<char>
    decreases pieces.len(),
{
    if pieces.len() == 0 {
        Seq::empty()
    } else if pieces.len() == 1 {
        pieces[0]
    } else {
        joined(pieces.drop_last(), sep) + seq![sep] + pieces.last()
    }
}

/// The lines `text_extent` counts are exactly the text cut at each line
/// break: none of them holds a break, and joining them with breaks gives
/// the text back.
pub proof fn lemma_split_on_lines(s: Seq<char>, sep: char)
    ensures
        joined(split_on(s, sep), sep) == s,
        forall|i: int, j: int|
            0 <= i < split_on(s, sep).len() && 0 <= j < split_on(s, sep)[i].len() ==> #[trigger] split_on(s, sep)[i][j] != sep,
    decreases s.len(),
{
    lemma_split_on_nonempty(s, sep);
    if s.len() == 0 {
        assert(split_on(s, sep) =~= seq![Seq::<char>::empty()]);
        assert(joined(split_on(s, sep), sep) =~= s);
    } else {
        let prev = split_on(s.drop_last(), sep);
        lemma_split_on_lines(s.drop_last(), sep);
        lemma_split_on_nonempty(s.drop_last(), sep);
        let cur = split_on(s, sep);
        if s.last() == sep {
            assert(cur == prev.push(Seq::empty()));
            assert(cur.drop_last() =~= prev);
            assert(joined(cur, sep) =~= s);
            assert forall|i: int, j: int| 0 <= i < cur.len() && 0 <= j < cur[i].len() implies #[trigger] cur[i][j] != sep by {
                if i < prev.len() {
                    assert(cur[i] == prev[i]);
                }
            }
        } else {
            let last = prev.last().push(s.last());
            assert(cur == prev.update(prev.len() - 1, last));
            if prev.len() == 1 {
                assert(joined(prev, sep) == prev[0]);
                assert(joined(cur, sep) == last);
                assert(joined(cur, sep) =~= s);
            } else {
                assert(cur.drop_last() =~= prev.drop_last());
                assert(cur.last() == last);
                assert(joined(prev, sep) == joined(prev.drop_last(), sep) + seq![sep] + prev.last());
                assert(joined(cur, sep) == joined(cur.drop_last(), sep) + seq![sep] + cur.last());
                assert(s =~= s.drop_last().push(s.last()));
                assert(joined(cur, sep) =~= joined(prev, sep).push(s.last()));
                assert(joined(cur, sep) =~= s);
            }
            assert forall|i: int, j: int| 0 <= i < cur.len() && 0 <= j < cur[i].len() implies #[trigger] cur[i][j] != sep by {
                if i < prev.len() - 1 {
                    assert(cur[i] == prev[i]);
                } else if j < prev.last().len() {
                    assert(cur[i][j] == prev[i][j]);
                }
            }
        }
    }
}

/// `widest` is the length of the longest piece: no piece is longer, and
/// some piece is that long (when there is any).
pub proof fn lemma_widest(pieces: Seq<Seq<char>>)
    ensures
        forall|i: int| 0 <= i < pieces.len() ==> (#[trigger] pieces[i]).len() <= widest(pieces),
        pieces.len() > 0 ==> exists|i: int| 0 <= i < pieces.len() && (#[trigger] pieces[i]).len() == widest(pieces),
    decreases pieces.len(),
{
    if pieces.len() > 0 {
        let init = pieces.drop_last();
        lemma_widest(init);
        assert forall|i: int| 0 <= i < pieces.len() implies (#[trigger] pieces[i]).len() <= widest(pieces) by {
            if i < init.len() {
                assert(pieces[i] == init[i]);
            }
        }
        if pieces.last().len() > widest(init) {
            assert(pieces[pieces.len() - 1].len() == widest(pieces));
        } else if init.len() > 0 {
            let i = choose|i: int| 0 <= i < init.len() && (#[trigger] init[i]).len() == widest(init);
            assert(pieces[i] == init[i]);
        } else {
            assert(widest(init) == 0);
            assert(pieces[0].len() == widest(pieces));
        }
    }
}

} // verus!
