//! Word wrapping by displayed width: paragraphs are split at newlines,
//! words are filled greedily into lines, and a word wider than a line is
//! broken into chunks by character width.

use vstd::prelude::*;

use crate::text::{
    concat_all, from_chars, is_ws, lemma_concat_all_append, lemma_concat_all_update_last,
    lemma_remove_ws_append, lemma_remove_ws_no_ws, lemma_split_on_join, lemma_split_on_len, lemma_split_on_no_sep,
    lemma_words, lemma_words_one, lemma_words_split, no_ws, remove_ws, split_chars,
    split_on, split_words, to_chars, words,
};

verus! {

// ── displayed width (unicode-width) ────────────────────────────────────

/// What `UnicodeWidthStr::width` gives for a string: its displayed width in
/// columns, which for some sequences (emoji, "\r\n", ligatures) differs
/// from the sum of the widths of its characters.
pub uninterp spec fn str_width(s: Seq<char>) -> usize;

/// What `UnicodeWidthChar::width` gives for a character: its displayed
/// width in columns, or `None` for a control character.
pub uninterp spec fn char_width(c: char) -> Option<usize>;

/// Calls `unicode_width::UnicodeWidthStr::width` on the string made of the
/// characters of `s`. Its contract claims only that the result is the
/// crate's (deterministic) width of those characters.
#[verifier::external_body]
fn display_width(s: &Vec<char>) -> (r: usize)
    ensures
        r == str_width(s@),
{
    unicode_width::UnicodeWidthStr::width(s.iter().collect::<String>().as_str())
}

/// Calls `unicode_width::UnicodeWidthChar::width` on `c`. Its contract
/// claims only that the result is the crate's width of that character.
#[verifier::external_body]
fn char_display_width(c: char) -> (r: Option<usize>)
    ensures
        r == char_width(c),
{
    unicode_width::UnicodeWidthChar::width(c)
}

/// The width of a character, with control characters counted as zero.
pub open spec fn width_or_zero(c: char) -> nat {
    match char_width(c) {
        Some(w) => w as nat,
        None => 0,
    }
}

/// The sum of the character widths of `s`.
pub open spec fn chars_width(s: Seq<char>) -> nat
    decreases s.len(),
{
    if s.len() == 0 {
        0
    } else {
        chars_width(s.drop_last()) + width_or_zero(s.last())
    }
}

// ── breaking a word that is too wide ───────────────────────────────────

/// Breaking a word character by character: the finished chunks, the chunk
/// being filled and its width. A character that would make a non-empty
/// chunk wider than `width` starts a new chunk.
pub open spec fn hard_break_fold(word: Seq<char>, width: nat) -> (Seq<Seq<char>>, Seq<char>, nat)
    decreases word.len(),
{
    if word.len() == 0 {
        (Seq::empty(), Seq::empty(), 0)
    } else {
        let acc = hard_break_fold(word.drop_last(), width);
        let c = word.last();
        let cw = width_or_zero(c);
        if acc.2 + cw > width && acc.1.len() > 0 {
            (acc.0.push(acc.1), seq![c], cw)
        } else {
            (acc.0, acc.1.push(c), acc.2 + cw)
        }
    }
}

/// The chunks a too-wide word is broken into.
pub open spec fn hard_break_spec(word: Seq<char>, width: nat) -> Seq<Seq<char>> {
    let acc = hard_break_fold(word, width);
    if acc.1.len() > 0 {
        acc.0.push(acc.1)
    } else {
        acc.0
    }
}

/// The views of a vector of character vectors.
pub open spec fn views(v: Seq<Vec<char>>) -> Seq<Seq<char>> {
    v.map_values(|p: Vec<char>| p@)
}

/// Breaks `word` into chunks no wider than `width` (by character widths),
/// except that a single character wider than `width` is a chunk of its own.
fn hard_break(word: &Vec<char>, width: usize) -> (r: Vec<Vec<char>>)
    ensures
        views(r@) == hard_break_spec(word@, width as nat),
{
    let mut chunks: Vec<Vec<char>> = Vec::new();
    let mut current: Vec<char> = Vec::new();
    let mut current_w: usize = 0;
    let mut i: usize = 0;
    assert(word@.take(0) == Seq::<char>::empty());
    while i < word.len()
        invariant
            i <= word.len(),
            current@.len() == 0 ==> current_w == 0,
            (views(chunks@), current@, current_w as nat) == hard_break_fold(
                word@.take(i as int),
                width as nat,
            ),
        decreases word.len() - i,
    {
        assert(word@.take(i + 1).drop_last() == word@.take(i as int));
        let ch = word[i];
        let ch_w: usize = match char_display_width(ch) {
            Some(w) => w,
            None => 0,
        };
        let over = ch_w > width || current_w > width - ch_w;
        if over && current.len() > 0 {
            let mut done: Vec<char> = Vec::new();
            std::mem::swap(&mut done, &mut current);
            chunks.push(done);
            current_w = 0;
        }
        current.push(ch);
        current_w += ch_w;
        i += 1;
    }
    assert(word@.take(word.len() as int) == word@);
    if current.len() > 0 {
        chunks.push(current);
    }
    chunks
}

// ── filling words into lines ────────────────────────────────────────────

/// `a`, one space, then `b`.
pub open spec fn with_space(a: Seq<char>, b: Seq<char>) -> Seq<char> {
    a + seq![' '] + b
}

/// Adds one word to the lines so far: onto the last line if the result is
/// no wider than `width`, else as a new line if it fits, else broken into
/// chunks.
pub open spec fn place_word(lines: Seq<Seq<char>>, word: Seq<char>, width: nat) -> Seq<
    Seq<char>,
> {
    if lines.len() > 0 && str_width(with_space(lines.last(), word)) <= width {
        lines.update(lines.len() - 1, with_space(lines.last(), word))
    } else if str_width(word) <= width {
        lines.push(word)
    } else {
        lines + hard_break_spec(word, width)
    }
}

/// The words placed one after the other.
pub open spec fn wrap_words(ws: Seq<Seq<char>>, width: nat) -> Seq<Seq<char>>
    decreases ws.len(),
{
    if ws.len() == 0 {
        Seq::empty()
    } else {
        place_word(wrap_words(ws.drop_last(), width), ws.last(), width)
    }
}

/// A width of at least one column.
pub open spec fn at_least_one(width: nat) -> nat {
    if width < 1 {
        1
    } else {
        width
    }
}

/// The lines of one paragraph wrapped to `width` columns.
pub open spec fn wrap_paragraph_spec(text: Seq<char>, width: nat) -> Seq<Seq<char>> {
    wrap_words(words(text), at_least_one(width))
}

/// The lines of each paragraph in turn, where an empty paragraph gives one
/// empty line.
pub open spec fn wrap_paragraphs(ps: Seq<Seq<char>>, width: nat) -> Seq<Seq<char>>
    decreases ps.len(),
{
    if ps.len() == 0 {
        Seq::empty()
    } else {
        wrap_paragraphs(ps.drop_last(), width) + if ps.last().len() == 0 {
            seq![Seq::<char>::empty()]
        } else {
            wrap_paragraph_spec(ps.last(), width)
        }
    }
}

/// The lines of `text`, split into paragraphs at every newline and each
/// paragraph wrapped to `width` columns (at least one).
pub open spec fn wrap_text_spec(text: Seq<char>, width: nat) -> Seq<Seq<char>> {
    wrap_paragraphs(split_on(text, '\n'), at_least_one(width))
}

/// `a`, one space, then `b`, as a new vector.
fn join_two(a: &Vec<char>, b: &Vec<char>) -> (r: Vec<char>)
    ensures
        r@ == with_space(a@, b@),
{
    let mut r: Vec<char> = Vec::new();
    let mut i: usize = 0;
    while i < a.len()
        invariant
            i <= a.len(),
            r@ == a@.take(i as int),
        decreases a.len() - i,
    {
        r.push(a[i]);
        i += 1;
    }
    r.push(' ');
    let mut j: usize = 0;
    while j < b.len()
        invariant
            j <= b.len(),
            r@ == a@ + seq![' '] + b@.take(j as int),
        decreases b.len() - j,
    {
        r.push(b[j]);
        j += 1;
    }
    assert(a@.take(a.len() as int) == a@);
    assert(b@.take(b.len() as int) == b@);
    r
}

/// A copy of `a`.
fn copy_chars(a: &Vec<char>) -> (r: Vec<char>)
    ensures
        r@ == a@,
{
    let mut r: Vec<char> = Vec::new();
    let mut i: usize = 0;
    while i < a.len()
        invariant
            i <= a.len(),
            r@ == a@.take(i as int),
        decreases a.len() - i,
    {
        r.push(a[i]);
        i += 1;
    }
    assert(a@.take(a.len() as int) == a@);
    r
}

/// Moves the lines of `more` onto the end of `lines`.
fn append_lines(lines: &mut Vec<Vec<char>>, more: Vec<Vec<char>>)
    ensures
        views(final(lines)@) == views(old(lines)@) + views(more@),
{
    let mut more = more;
    let ghost m = more@;
    lines.append(&mut more);
    assert(views(lines@) =~= views(old(lines)@) + views(m));
}

/// Wraps the words of one paragraph to `width` columns (at least one).
fn wrap_paragraph_chars(text: &Vec<char>, width: usize) -> (r: Vec<Vec<char>>)
    ensures
        views(r@) == wrap_paragraph_spec(text@, width as nat),
{
    let width: usize = if width < 1 {
        1
    } else {
        width
    };
    let ws = split_words(text);
    let ghost wv = views(ws@);
    let mut lines: Vec<Vec<char>> = Vec::new();
    let mut k: usize = 0;
    assert(wv.take(0) == Seq::<Seq<char>>::empty());
    while k < ws.len()
        invariant
            k <= ws.len(),
            wv == views(ws@),
            wv == words(text@),
            views(lines@) == wrap_words(wv.take(k as int), width as nat),
        decreases ws.len() - k,
    {
        assert(wv.take(k + 1).drop_last() == wv.take(k as int));
        let word = &ws[k];
        assert(wv.take(k + 1).last() == word@);
        let ghost before = views(lines@);
        let mut placed = false;
        if lines.len() > 0 {
            let last = lines.len() - 1;
            let candidate = join_two(&lines[last], word);
            if display_width(&candidate) <= width {
                lines.set(last, candidate);
                assert(views(lines@) =~= before.update(before.len() - 1, with_space(before.last(), word@)));
                placed = true;
            }
        }
        if !placed {
            if display_width(word) <= width {
                lines.push(copy_chars(word));
                assert(views(lines@) =~= before.push(word@));
            } else {
                let chunks = hard_break(word, width);
                append_lines(&mut lines, chunks);
            }
        }
        k += 1;
    }
    assert(wv.take(ws.len() as int) == wv);
    lines
}

/// Wraps `text` to `width` columns (at least one): each newline starts a
/// new paragraph, and an empty paragraph is one empty line.
fn wrap_text_chars(text: &Vec<char>, width: usize) -> (r: Vec<Vec<char>>)
    ensures
        views(r@) == wrap_text_spec(text@, width as nat),
{
    let width: usize = if width < 1 {
        1
    } else {
        width
    };
    let ps = split_chars(text, '\n');
    let ghost pv = views(ps@);
    let mut lines: Vec<Vec<char>> = Vec::new();
    let mut k: usize = 0;
    assert(pv.take(0) == Seq::<Seq<char>>::empty());
    while k < ps.len()
        invariant
            k <= ps.len(),
            pv == views(ps@),
            1 <= width,
            views(lines@) == wrap_paragraphs(pv.take(k as int), width as nat),
        decreases ps.len() - k,
    {
        assert(pv.take(k + 1).drop_last() == pv.take(k as int));
        let para = &ps[k];
        assert(pv.take(k + 1).last() == para@);
        if para.len() == 0 {
            let ghost before = views(lines@);
            lines.push(Vec::new());
            assert(views(lines@) =~= before + seq![Seq::<char>::empty()]);
        } else {
            let more = wrap_paragraph_chars(para, width);
            append_lines(&mut lines, more);
        }
        k += 1;
    }
    assert(pv.take(ps.len() as int) == pv);
    lines
}

/// The view of a vector of strings.
pub open spec fn string_views(v: Seq<String>) -> Seq<Seq<char>> {
    v.map_values(|s: String| s@)
}

/// The character vectors as strings.
fn to_strings(lines: &Vec<Vec<char>>) -> (r: Vec<String>)
    ensures
        string_views(r@) == views(lines@),
{
    let mut r: Vec<String> = Vec::new();
    let mut k: usize = 0;
    while k < lines.len()
        invariant
            k <= lines.len(),
            string_views(r@) == views(lines@).take(k as int),
        decreases lines.len() - k,
    {
        let s = from_chars(lines[k].as_slice());
        assert(views(lines@)[k as int] == lines@[k as int]@);
        let ghost before = r@;
        r.push(s);
        assert(r@ == before.push(s));
        assert(string_views(r@) =~= string_views(before).push(s@));
        assert(views(lines@).take(k + 1) =~= views(lines@).take(k as int).push(lines@[k as int]@));
        assert(string_views(r@) =~= views(lines@).take(k + 1));
        k += 1;
    }
    assert(views(lines@).take(lines.len() as int) =~= views(lines@));
    r
}

/// Wraps the words of one paragraph to `width` columns (at least one):
/// words are added to the last line while its displayed width stays within
/// `width`; a word wider than a line is broken into chunks.
pub fn wrap_paragraph(text: &str, width: usize) -> (r: Vec<String>)
    ensures
        string_views(r@) == wrap_paragraph_spec(text@, width as nat),
{
    let v = to_chars(text);
    let lines = wrap_paragraph_chars(&v, width);
    to_strings(&lines)
}

/// Wraps `text` to `width` columns (at least one), paragraph by paragraph.
pub fn wrap_text(text: &str, width: usize) -> (r: Vec<String>)
    ensures
        string_views(r@) == wrap_text_spec(text@, width as nat),
{
    let v = to_chars(text);
    let lines = wrap_text_chars(&v, width);
    to_strings(&lines)
}

/// The number of lines `text` wraps to at `width` columns.
pub fn wrapped_line_count(text: &str, width: usize) -> (r: usize)
    ensures
        r == wrap_text_spec(text@, width as nat).len(),
{
    let v = to_chars(text);
    let lines = wrap_text_chars(&v, width);
    lines.len()
}

// ── laws ────────────────────────────────────────────────────────────────

/// A line is narrow enough: its displayed width is at most `width`, or it
/// is a piece of a broken word whose character widths add up to at most
/// `width`, or it is a single character.
pub open spec fn fits(line: Seq<char>, width: nat) -> bool {
    str_width(line) <= width || chars_width(line) <= width || line.len() == 1
}

/// The chunk after chunk `k`: the next finished one, or the one being
/// filled.
pub open spec fn next_chunk(done: Seq<Seq<char>>, cur: Seq<char>, k: int) -> Seq<char> {
    if k + 1 < done.len() {
        done[k + 1]
    } else {
        cur
    }
}

proof fn lemma_hard_break_fold(word: Seq<char>, width: nat)
    ensures
        ({
            let acc = hard_break_fold(word, width);
            &&& forall|k: int|
                0 <= k < acc.0.len() ==> fits(#[trigger] acc.0[k], width) && acc.0[k].len() > 0 && (
                chars_width(acc.0[k]) <= width || acc.0[k].len() == 1)
            &&& acc.2 == chars_width(acc.1)
            &&& acc.1.len() > 0 ==> (chars_width(acc.1) <= width || acc.1.len() == 1)
            &&& concat_all(acc.0) + acc.1 == word
            &&& acc.0.len() > 0 ==> acc.1.len() > 0
            &&& forall|k: int|
                0 <= k < acc.0.len() ==> chars_width(#[trigger] acc.0[k]) + width_or_zero(
                    next_chunk(acc.0, acc.1, k)[0],
                ) > width
        }),
    decreases word.len(),
{
    if word.len() > 0 {
        let p = word.drop_last();
        lemma_hard_break_fold(p, width);
        let acc = hard_break_fold(p, width);
        let c = word.last();
        let cw = width_or_zero(c);
        if acc.2 + cw > width && acc.1.len() > 0 {
            let nc = acc.0.push(acc.1);
            assert forall|k: int| 0 <= k < nc.len() implies fits(#[trigger] nc[k], width) && nc[k].len() > 0 && (
                chars_width(nc[k]) <= width || nc[k].len() == 1) by {
                if k < acc.0.len() {
                    assert(nc[k] == acc.0[k]);
                }
            }
            assert(nc.drop_last() == acc.0);
            assert forall|k: int| 0 <= k < nc.len() implies chars_width(#[trigger] nc[k]) + width_or_zero(
                next_chunk(nc, seq![c], k)[0],
            ) > width by {
                if k < acc.0.len() {
                    assert(nc[k] == acc.0[k]);
                    assert(next_chunk(nc, seq![c], k) == next_chunk(acc.0, acc.1, k));
                }
            }
            assert(seq![c].drop_last() == Seq::<char>::empty());
            assert(seq![c].last() == c);
            assert(chars_width(seq![c]) == chars_width(Seq::<char>::empty()) + cw);
            assert(word == p + seq![c]);
        } else {
            assert forall|k: int| 0 <= k < acc.0.len() implies chars_width(#[trigger] acc.0[k]) + width_or_zero(
                next_chunk(acc.0, acc.1.push(c), k)[0],
            ) > width by {
                assert(next_chunk(acc.0, acc.1.push(c), k)[0] == next_chunk(acc.0, acc.1, k)[0]);
            }
            assert(acc.1.push(c).drop_last() == acc.1);
            assert(acc.1.push(c).last() == c);
            assert(chars_width(acc.1.push(c)) == chars_width(acc.1) + cw);
            assert(word == p.push(c));
        }
    }
}

proof fn lemma_hard_break(word: Seq<char>, width: nat)
    ensures
        forall|k: int|
            0 <= k < hard_break_spec(word, width).len() ==> fits(
                #[trigger] hard_break_spec(word, width)[k],
                width,
            ),
        concat_all(hard_break_spec(word, width)) == word,
{
    lemma_hard_break_fold(word, width);
    let acc = hard_break_fold(word, width);
    if acc.1.len() > 0 {
        let r = acc.0.push(acc.1);
        assert forall|k: int| 0 <= k < r.len() implies fits(#[trigger] r[k], width) by {
            if k < acc.0.len() {
                assert(r[k] == acc.0[k]);
            }
        }
        assert(r.drop_last() == acc.0);
    } else {
        assert(concat_all(acc.0) + acc.1 == concat_all(acc.0));
    }
}

proof fn lemma_wrap_words(ws: Seq<Seq<char>>, width: nat)
    requires
        forall|k: int| 0 <= k < ws.len() ==> no_ws(#[trigger] ws[k]),
    ensures
        forall|k: int|
            0 <= k < wrap_words(ws, width).len() ==> fits(#[trigger] wrap_words(ws, width)[k], width),
        remove_ws(concat_all(wrap_words(ws, width))) == concat_all(ws),
    decreases ws.len(),
{
    if ws.len() > 0 {
        let p = ws.drop_last();
        assert forall|k: int| 0 <= k < p.len() implies no_ws(#[trigger] p[k]) by {
            assert(p[k] == ws[k]);
        }
        lemma_wrap_words(p, width);
        let lines = wrap_words(p, width);
        let word = ws.last();
        assert(no_ws(ws[ws.len() - 1]));
        lemma_remove_ws_no_ws(word);
        let r = place_word(lines, word, width);
        if lines.len() > 0 && str_width(with_space(lines.last(), word)) <= width {
            assert forall|k: int| 0 <= k < r.len() implies fits(#[trigger] r[k], width) by {
                if k < lines.len() - 1 {
                    assert(r[k] == lines[k]);
                }
            }
            lemma_concat_all_update_last(lines, with_space(lines.last(), word));
            assert(concat_all(lines) == concat_all(lines.drop_last()) + lines.last());
            assert(concat_all(r) == concat_all(lines) + seq![' '] + word);
            lemma_remove_ws_append(concat_all(lines) + seq![' '], word);
            lemma_remove_ws_append(concat_all(lines), seq![' ']);
            assert(seq![' '].drop_last() == Seq::<char>::empty());
            assert(seq![' '].last() == ' ');
            assert(is_ws(' '));
            assert(seq![' '].len() == 1);
            assert(remove_ws(Seq::<char>::empty()) == Seq::<char>::empty());
            reveal_with_fuel(remove_ws, 2);
            assert(remove_ws(seq![' ']) == Seq::<char>::empty());
        } else if str_width(word) <= width {
            assert forall|k: int| 0 <= k < r.len() implies fits(#[trigger] r[k], width) by {
                if k < lines.len() {
                    assert(r[k] == lines[k]);
                }
            }
            assert(r.drop_last() == lines);
            lemma_remove_ws_append(concat_all(lines), word);
        } else {
            let hb = hard_break_spec(word, width);
            lemma_hard_break(word, width);
            assert forall|k: int| 0 <= k < r.len() implies fits(#[trigger] r[k], width) by {
                if k < lines.len() {
                    assert(r[k] == lines[k]);
                } else {
                    assert(r[k] == hb[k - lines.len()]);
                }
            }
            lemma_concat_all_append(lines, hb);
            lemma_remove_ws_append(concat_all(lines), word);
        }
        assert(concat_all(ws) == concat_all(p) + word);
    }
}

/// Wrapping a paragraph loses, adds and reorders no visible character: the
/// non-whitespace characters of the lines are exactly those of the
/// paragraph, in order. And every line is narrow enough: no wider than the
/// width (at least one column), unless it is a piece of a word too wide
/// for any line, whose characters add up to at most the width, or a single
/// character.
pub proof fn lemma_wrap_paragraph(text: Seq<char>, width: nat)
    ensures
        remove_ws(concat_all(wrap_paragraph_spec(text, width))) == remove_ws(text),
        forall|k: int|
            0 <= k < wrap_paragraph_spec(text, width).len() ==> fits(
                #[trigger] wrap_paragraph_spec(text, width)[k],
                at_least_one(width),
            ),
{
    lemma_words(text);
    lemma_wrap_words(words(text), at_least_one(width));
}

/// The non-whitespace characters of each piece, one piece after another.
pub open spec fn visible_pieces(ps: Seq<Seq<char>>) -> Seq<char>
    decreases ps.len(),
{
    if ps.len() == 0 {
        Seq::empty()
    } else {
        visible_pieces(ps.drop_last()) + remove_ws(ps.last())
    }
}

proof fn lemma_visible_split(s: Seq<char>)
    ensures
        visible_pieces(split_on(s, '\n')) == remove_ws(s),
    decreases s.len(),
{
    if s.len() > 0 {
        let d = s.drop_last();
        lemma_visible_split(d);
        lemma_split_on_len(d, '\n');
        let p = split_on(d, '\n');
        let c = s.last();
        assert(s == d.push(c));
        if c == '\n' {
            assert(is_ws('\n'));
            let q = p.push(Seq::<char>::empty());
            assert(q.drop_last() == p);
            assert(q.last() == Seq::<char>::empty());
            assert(remove_ws(Seq::<char>::empty()) == Seq::<char>::empty());
            assert(visible_pieces(q) == visible_pieces(p) + Seq::<char>::empty());
            assert(visible_pieces(q) == visible_pieces(p));
            assert(remove_ws(s) == remove_ws(d));
        } else {
            let q = p.update(p.len() - 1, p.last().push(c));
            assert(q.drop_last() == p.drop_last());
            assert(q.last() == p.last().push(c));
            assert(p.last().push(c).drop_last() == p.last());
            assert(p.last().push(c).last() == c);
            assert(visible_pieces(p) == visible_pieces(p.drop_last()) + remove_ws(p.last()));
            assert(visible_pieces(q) == visible_pieces(p.drop_last()) + remove_ws(p.last().push(c)));
            if is_ws(c) {
                assert(remove_ws(p.last().push(c)) == remove_ws(p.last()));
            } else {
                assert(remove_ws(p.last().push(c)) == remove_ws(p.last()).push(c));
                assert(remove_ws(s) == remove_ws(d).push(c));
            }
        }
    } else {
        assert(split_on(s, '\n') == seq![Seq::<char>::empty()]);
        assert(seq![Seq::<char>::empty()].drop_last() == Seq::<Seq<char>>::empty());
        assert(remove_ws(Seq::<char>::empty()) == Seq::<char>::empty());
        let one = seq![Seq::<char>::empty()];
        assert(one.len() == 1);
        assert(one.last() == Seq::<char>::empty());
        assert(visible_pieces(one.drop_last()) == Seq::<char>::empty());
        assert(visible_pieces(one) == visible_pieces(one.drop_last()) + remove_ws(one.last()));
        assert(visible_pieces(one) =~= Seq::<char>::empty());
    }
}

proof fn lemma_wrap_paragraphs(ps: Seq<Seq<char>>, width: nat)
    requires
        width >= 1,
    ensures
        remove_ws(concat_all(wrap_paragraphs(ps, width))) == visible_pieces(ps),
        forall|k: int|
            0 <= k < wrap_paragraphs(ps, width).len() ==> fits(
                #[trigger] wrap_paragraphs(ps, width)[k],
                width,
            ),
    decreases ps.len(),
{
    if ps.len() > 0 {
        let prev = wrap_paragraphs(ps.drop_last(), width);
        lemma_wrap_paragraphs(ps.drop_last(), width);
        let last = ps.last();
        let more = if last.len() == 0 {
            seq![Seq::<char>::empty()]
        } else {
            wrap_paragraph_spec(last, width)
        };
        if last.len() == 0 {
            assert(more.drop_last() == Seq::<Seq<char>>::empty());
            assert(more.last() == Seq::<char>::empty());
            assert(concat_all(more) == concat_all(Seq::<Seq<char>>::empty()) + Seq::<char>::empty());
            assert(concat_all(more) == Seq::<char>::empty());
            assert(chars_width(Seq::<char>::empty()) == 0);
            assert(fits(more[0], width));
            assert(remove_ws(last) == Seq::<char>::empty());
        } else {
            lemma_wrap_paragraph(last, width);
            assert(at_least_one(width) == width);
        }
        lemma_concat_all_append(prev, more);
        lemma_remove_ws_append(concat_all(prev), concat_all(more));
        let all = wrap_paragraphs(ps, width);
        assert(all == prev + more);
        assert forall|k: int| 0 <= k < all.len() implies fits(#[trigger] all[k], width) by {
            if k < prev.len() {
                assert(all[k] == prev[k]);
            } else {
                assert(all[k] == more[k - prev.len()]);
            }
        }
    }
}

/// Wrapping a whole text loses, adds and reorders no visible character,
/// and every line is narrow enough (see [`lemma_wrap_paragraph`]); empty
/// paragraphs become empty lines.
pub proof fn lemma_wrap_text(text: Seq<char>, width: nat)
    ensures
        remove_ws(concat_all(wrap_text_spec(text, width))) == remove_ws(text),
        forall|k: int|
            0 <= k < wrap_text_spec(text, width).len() ==> fits(
                #[trigger] wrap_text_spec(text, width)[k],
                at_least_one(width),
            ),
{
    lemma_wrap_paragraphs(split_on(text, '\n'), at_least_one(width));
    lemma_visible_split(text);
}


proof fn lemma_wrap_paragraphs_append(p: Seq<Seq<char>>, q: Seq<Seq<char>>, width: nat)
    ensures
        wrap_paragraphs(p + q, width) == wrap_paragraphs(p, width) + wrap_paragraphs(q, width),
    decreases q.len(),
{
    if q.len() == 0 {
        assert(p + q == p);
        assert(wrap_paragraphs(p, width) + wrap_paragraphs(q, width) == wrap_paragraphs(p, width));
    } else {
        lemma_wrap_paragraphs_append(p, q.drop_last(), width);
        assert((p + q).drop_last() == p + q.drop_last());
        assert((p + q).last() == q.last());
    }
}

/// Wrapping text around a newline is wrapping each side and putting the
/// lines one after the other.
pub proof fn lemma_wrap_text_join(a: Seq<char>, b: Seq<char>, width: nat)
    ensures
        wrap_text_spec(a.push('\n') + b, width) == wrap_text_spec(a, width) + wrap_text_spec(
            b,
            width,
        ),
{
    lemma_split_on_join(a, b);
    lemma_wrap_paragraphs_append(split_on(a, '\n'), split_on(b, '\n'), at_least_one(width));
}


/// A width below one wraps as width one; a text without newline is one
/// paragraph, which wraps as [`wrap_paragraph`] does (or is one empty line
/// when the text is empty).
pub proof fn lemma_wrap_text_paragraph(a: Seq<char>, width: nat)
    ensures
        wrap_text_spec(a, 0) == wrap_text_spec(a, 1),
        (forall|i: int| 0 <= i < a.len() ==> a[i] != '\n') ==> wrap_text_spec(a, width) == if a.len()
            == 0 {
            seq![Seq::<char>::empty()]
        } else {
            wrap_paragraph_spec(a, width)
        },
{
    if forall|i: int| 0 <= i < a.len() ==> a[i] != '\n' {
        lemma_split_on_no_sep(a);
        let ps = seq![a];
        let w1 = at_least_one(width);
        assert(ps.drop_last() == Seq::<Seq<char>>::empty());
        assert(ps.last() == a);
        assert(wrap_paragraphs(Seq::<Seq<char>>::empty(), w1) == Seq::<Seq<char>>::empty());
        assert(at_least_one(w1) == w1);
        assert(wrap_paragraph_spec(a, w1) == wrap_paragraph_spec(a, width));
        let more = if a.len() == 0 {
            seq![Seq::<char>::empty()]
        } else {
            wrap_paragraph_spec(a, w1)
        };
        assert(wrap_paragraphs(ps, w1) == Seq::<Seq<char>>::empty() + more);
        assert(Seq::<Seq<char>>::empty() + more == more);
    }
}

/// Greedy filling, one word at a time: a paragraph with no words has no
/// lines; adding a word after a paragraph puts it on the paragraph's last
/// line whenever that line, a space and the word fit in the width (so a
/// line is never ended early); otherwise the word starts a new line if it
/// fits on one, and else is broken into chunks on new lines. The lines
/// already there are kept.
pub proof fn lemma_wrap_paragraph_greedy(text: Seq<char>, word: Seq<char>, width: nat)
    requires
        word.len() > 0,
        no_ws(word),
    ensures
        words(text).len() == 0 ==> wrap_paragraph_spec(text, width).len() == 0,
        ({
            let lines = wrap_paragraph_spec(text, width);
            let n = at_least_one(width);
            let next = wrap_paragraph_spec(text.push(' ') + word, width);
            let joins = lines.len() > 0 && str_width(with_space(lines.last(), word)) <= n;
            &&& joins ==> next == lines.update(lines.len() - 1, with_space(lines.last(), word))
            &&& !joins && str_width(word) <= n ==> next == lines.push(word)
            &&& !joins && str_width(word) > n ==> next == lines + hard_break_spec(word, n)
        }),
{
    lemma_words_split(text, ' ', word);
    lemma_words_one(word);
    let ws = words(text);
    assert(ws + seq![word] == ws.push(word));
    assert(ws.push(word).drop_last() == ws);
}

/// Breaking a word too wide for a line: the chunks are the word's
/// characters in order, none is empty, each is no wider than the width (by
/// character widths) unless it is a single character, and each is as full
/// as it can be: the next chunk's first character would not have fitted.
pub proof fn lemma_hard_break_greedy(word: Seq<char>, width: nat)
    ensures
        concat_all(hard_break_spec(word, width)) == word,
        forall|k: int|
            0 <= k < hard_break_spec(word, width).len() ==> (#[trigger] hard_break_spec(word, width)[k]).len()
                > 0 && (chars_width(hard_break_spec(word, width)[k]) <= width
                || hard_break_spec(word, width)[k].len() == 1),
        forall|k: int|
            0 <= k < hard_break_spec(word, width).len() - 1 ==> chars_width(
                #[trigger] hard_break_spec(word, width)[k],
            ) + width_or_zero(hard_break_spec(word, width)[k + 1][0]) > width,
{
    lemma_hard_break(word, width);
    lemma_hard_break_fold(word, width);
    let acc = hard_break_fold(word, width);
    let r = hard_break_spec(word, width);
    if acc.1.len() > 0 {
        assert(r == acc.0.push(acc.1));
        assert forall|k: int| 0 <= k < r.len() implies (#[trigger] r[k]).len() > 0 && (chars_width(r[k])
            <= width || r[k].len() == 1) by {
            if k < acc.0.len() {
                assert(r[k] == acc.0[k]);
            } else {
                assert(r[k] == acc.1);
            }
        }
        assert forall|k: int| 0 <= k < r.len() - 1 implies chars_width(#[trigger] r[k]) + width_or_zero(
            r[k + 1][0],
        ) > width by {
            assert(r[k] == acc.0[k]);
            assert(r[k + 1] == next_chunk(acc.0, acc.1, k));
        }
    } else {
        assert(acc.0.len() == 0);
    }
}

} // verus!
