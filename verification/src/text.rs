//! Character-level text helpers: Unicode whitespace, trimming, splitting
//! into lines and words, joining, and collapsing runs of blank lines.
//!
//! Text is modelled as `Seq<char>`; executable code works on `Vec<char>`
//! and converts to and from `String` at the edges.

use vstd::prelude::*;

verus! {

/// `String::push` appends one character to the end of the string.
pub assume_specification[ String::push ](s: &mut String, ch: char)
    ensures
        final(s)@ == old(s)@.push(ch),
;

// ── whitespace ──────────────────────────────────────────────────────────

/// The Unicode `White_Space` property (the characters that
/// `char::is_whitespace` accepts).
pub open spec fn is_ws(c: char) -> bool {
    ||| ('\u{9}' <= c && c <= '\u{d}')
    ||| c == ' '
    ||| c == '\u{85}'
    ||| c == '\u{a0}'
    ||| c == '\u{1680}'
    ||| ('\u{2000}' <= c && c <= '\u{200a}')
    ||| c == '\u{2028}'
    ||| c == '\u{2029}'
    ||| c == '\u{202f}'
    ||| c == '\u{205f}'
    ||| c == '\u{3000}'
}

/// Whether `c` is a Unicode whitespace character.
pub fn is_whitespace(c: char) -> (r: bool)
    ensures
        r == is_ws(c),
{
    ('\u{9}' <= c && c <= '\u{d}') || c == ' ' || c == '\u{85}' || c == '\u{a0}' || c == '\u{1680}'
        || ('\u{2000}' <= c && c <= '\u{200a}') || c == '\u{2028}' || c == '\u{2029}'
        || c == '\u{202f}' || c == '\u{205f}' || c == '\u{3000}'
}

/// No character of `s` is whitespace.
pub open spec fn no_ws(s: Seq<char>) -> bool {
    forall|i: int| 0 <= i < s.len() ==> !is_ws(#[trigger] s[i])
}

/// Every character of `s` is whitespace.
pub open spec fn all_ws(s: Seq<char>) -> bool {
    forall|i: int| 0 <= i < s.len() ==> is_ws(#[trigger] s[i])
}

// ── trimming ────────────────────────────────────────────────────────────

/// `s` without its leading whitespace.
pub open spec fn trim_start(s: Seq<char>) -> Seq<char>
    decreases s.len(),
{
    if s.len() > 0 && is_ws(s[0]) {
        trim_start(s.drop_first())
    } else {
        s
    }
}

/// `s` without its trailing whitespace.
pub open spec fn trim_end(s: Seq<char>) -> Seq<char>
    decreases s.len(),
{
    if s.len() > 0 && is_ws(s.last()) {
        trim_end(s.drop_last())
    } else {
        s
    }
}

/// `s` without leading and trailing whitespace (`str::trim`).
pub open spec fn trim(s: Seq<char>) -> Seq<char> {
    trim_end(trim_start(s))
}

/// A trimmed sequence neither starts nor ends with whitespace.
pub open spec fn is_trimmed(s: Seq<char>) -> bool {
    s.len() > 0 ==> !is_ws(s[0]) && !is_ws(s.last())
}

/// `trim_start(s)` is a suffix of `s`, found by skipping leading whitespace.
pub proof fn lemma_trim_start(s: Seq<char>)
    ensures
        exists|k: int|
            0 <= k <= s.len() && trim_start(s) == s.subrange(k, s.len() as int) && all_ws(
                s.subrange(0, k),
            ),
        trim_start(s).len() > 0 ==> !is_ws(trim_start(s)[0]),
        trim_start(s).len() <= s.len(),
    decreases s.len(),
{
    if s.len() > 0 && is_ws(s[0]) {
        lemma_trim_start(s.drop_first());
        let k = choose|k: int|
            0 <= k <= s.drop_first().len() && trim_start(s.drop_first())
                == s.drop_first().subrange(k, s.drop_first().len() as int) && all_ws(
                s.drop_first().subrange(0, k),
            );
        assert(s.drop_first().subrange(k, s.drop_first().len() as int) == s.subrange(
            k + 1,
            s.len() as int,
        ));
        assert forall|i: int| 0 <= i < k + 1 implies is_ws(#[trigger] s.subrange(0, k + 1)[i]) by {
            if i > 0 {
                assert(s.subrange(0, k + 1)[i] == s.drop_first().subrange(0, k)[i - 1]);
            }
        }
    } else {
        assert(s.subrange(0, s.len() as int) == s);
        assert(s.subrange(0, 0).len() == 0);
    }
}

/// `trim_end(s)` is a prefix of `s`, found by dropping trailing whitespace.
pub proof fn lemma_trim_end(s: Seq<char>)
    ensures
        exists|k: int|
            0 <= k <= s.len() && trim_end(s) == s.subrange(0, k) && all_ws(
                s.subrange(k, s.len() as int),
            ),
        trim_end(s).len() > 0 ==> !is_ws(trim_end(s).last()),
        trim_end(s).len() <= s.len(),
    decreases s.len(),
{
    if s.len() > 0 && is_ws(s.last()) {
        lemma_trim_end(s.drop_last());
        let k = choose|k: int|
            0 <= k <= s.drop_last().len() && trim_end(s.drop_last()) == s.drop_last().subrange(
                0,
                k,
            ) && all_ws(s.drop_last().subrange(k, s.drop_last().len() as int));
        assert(s.drop_last().subrange(0, k) == s.subrange(0, k));
        assert forall|i: int|
            0 <= i < s.len() - k implies is_ws(#[trigger] s.subrange(k, s.len() as int)[i]) by {
            if i < s.len() - 1 - k {
                assert(s.subrange(k, s.len() as int)[i] == s.drop_last().subrange(
                    k,
                    s.drop_last().len() as int,
                )[i]);
            }
        }
    } else {
        assert(s.subrange(0, s.len() as int) == s);
        assert(s.subrange(s.len() as int, s.len() as int).len() == 0);
    }
}

/// The trimmed sequence is trimmed, and trimming leaves a sequence without
/// surrounding whitespace unchanged.
pub proof fn lemma_trim(s: Seq<char>)
    ensures
        is_trimmed(trim(s)),
        trim(s).len() <= s.len(),
        is_trimmed(s) ==> trim(s) == s,
        trim(s).len() == 0 <==> all_ws(s),
{
    lemma_trim_start(s);
    lemma_trim_end(trim_start(s));
    let t = trim_start(s);
    let k1 = choose|k: int|
        0 <= k <= s.len() && trim_start(s) == s.subrange(k, s.len() as int) && all_ws(
            s.subrange(0, k),
        );
    let k2 = choose|k: int|
        0 <= k <= t.len() && trim_end(t) == t.subrange(0, k) && all_ws(
            t.subrange(k, t.len() as int),
        );
    if trim(s).len() > 0 {
        assert(trim(s)[0] == t[0]);
    }
    if is_trimmed(s) {
        if s.len() > 0 {
            assert(t == s);
            assert(trim_end(t) == t);
        }
    }
    if trim(s).len() == 0 {
        assert forall|i: int| 0 <= i < s.len() implies is_ws(#[trigger] s[i]) by {
            if i < k1 {
                assert(s[i] == s.subrange(0, k1)[i]);
            } else {
                assert(s[i] == t.subrange(k2, t.len() as int)[i - k1]);
            }
        }
    }
    if all_ws(s) && trim(s).len() > 0 {
        assert(trim(s)[0] == s[k1]);
    }
}

/// The position of the first non-whitespace character of `v`, or
/// `v.len()` if there is none.
fn skip_ws(v: &Vec<char>) -> (k: usize)
    ensures
        k <= v.len(),
        trim_start(v@) == v@.subrange(k as int, v.len() as int),
{
    let mut k: usize = 0;
    assert(v@.subrange(0, v.len() as int) == v@);
    while k < v.len() && is_whitespace(v[k])
        invariant
            k <= v.len(),
            trim_start(v@) == trim_start(v@.subrange(k as int, v.len() as int)),
        decreases v.len() - k,
    {
        assert(v@.subrange(k as int, v.len() as int).drop_first() == v@.subrange(
            k + 1,
            v.len() as int,
        ));
        k += 1;
    }
    k
}

/// The characters of `v` without leading and trailing whitespace.
pub fn trim_chars(v: &Vec<char>) -> (r: Vec<char>)
    ensures
        r@ == trim(v@),
{
    let start = skip_ws(v);
    let mut end: usize = v.len();
    let ghost t = v@.subrange(start as int, v.len() as int);
    assert(t.subrange(0, t.len() as int) == t);
    while end > start && is_whitespace(v[end - 1])
        invariant
            start <= end <= v.len(),
            t == v@.subrange(start as int, v.len() as int),
            trim_end(t) == trim_end(v@.subrange(start as int, end as int)),
        decreases end,
    {
        assert(v@.subrange(start as int, end as int).drop_last() == v@.subrange(
            start as int,
            end - 1,
        ));
        end -= 1;
    }
    let mut r: Vec<char> = Vec::new();
    let mut i = start;
    while i < end
        invariant
            start <= i <= end <= v.len(),
            r@ == v@.subrange(start as int, i as int),
        decreases end - i,
    {
        r.push(v[i]);
        i += 1;
    }
    r
}

/// Whether `v` holds nothing but whitespace (so that it trims to nothing).
pub fn is_blank(v: &Vec<char>) -> (r: bool)
    ensures
        r == (trim(v@).len() == 0),
        r == all_ws(v@),
{
    proof {
        lemma_trim(v@);
    }
    let mut i: usize = 0;
    while i < v.len()
        invariant
            i <= v.len(),
            forall|j: int| 0 <= j < i ==> is_ws(#[trigger] v@[j]),
        decreases v.len() - i,
    {
        if !is_whitespace(v[i]) {
            assert(!is_ws(v@[i as int]));
            assert(!all_ws(v@));
            proof {
                lemma_trim(v@);
            }
            return false;
        }
        i += 1;
    }
    true
}

// ── splitting and joining ───────────────────────────────────────────────

/// The pieces of `s` between occurrences of `sep` (`str::split` with a
/// character pattern): always at least one piece, empty pieces kept.
pub open spec fn split_on(s: Seq<char>, sep: char) -> Seq<Seq<char>>
    decreases s.len(),
{
    if s.len() == 0 {
        seq![Seq::<char>::empty()]
    } else {
        let p = split_on(s.drop_last(), sep);
        if s.last() == sep {
            p.push(Seq::<char>::empty())
        } else {
            p.update(p.len() - 1, p.last().push(s.last()))
        }
    }
}

pub proof fn lemma_split_on_len(s: Seq<char>, sep: char)
    ensures
        split_on(s, sep).len() >= 1,
    decreases s.len(),
{
    if s.len() > 0 {
        lemma_split_on_len(s.drop_last(), sep);
    }
}

/// Splits `v` at every occurrence of `sep`.
pub fn split_chars(v: &Vec<char>, sep: char) -> (r: Vec<Vec<char>>)
    ensures
        r@.map_values(|p: Vec<char>| p@) == split_on(v@, sep),
{
    let mut pieces: Vec<Vec<char>> = Vec::new();
    let mut cur: Vec<char> = Vec::new();
    let mut i: usize = 0;
    assert(v@.take(0) == Seq::<char>::empty());
    while i < v.len()
        invariant
            i <= v.len(),
            pieces@.map_values(|p: Vec<char>| p@).push(cur@) == split_on(v@.take(i as int), sep),
        decreases v.len() - i,
    {
        let ghost before = pieces@.map_values(|p: Vec<char>| p@).push(cur@);
        assert(v@.take(i + 1).drop_last() == v@.take(i as int));
        proof {
            lemma_split_on_len(v@.take(i as int), sep);
        }
        if v[i] == sep {
            let mut done: Vec<char> = Vec::new();
            std::mem::swap(&mut done, &mut cur);
            pieces.push(done);
            assert(pieces@.map_values(|p: Vec<char>| p@).push(cur@) == before.push(
                Seq::<char>::empty(),
            ));
        } else {
            cur.push(v[i]);
            assert(pieces@.map_values(|p: Vec<char>| p@).push(cur@) == before.update(
                before.len() - 1,
                before.last().push(v@[i as int]),
            ));
        }
        i += 1;
    }
    assert(v@.take(v.len() as int) == v@);
    pieces.push(cur);
    assert(pieces@.map_values(|p: Vec<char>| p@) == split_on(v@, sep));
    pieces
}

/// The lines of `s`: the pieces between newlines, where a final newline
/// does not start another line and the empty text has no lines.
/// (A carriage return before a newline stays on its line.)
pub open spec fn lines(s: Seq<char>) -> Seq<Seq<char>> {
    if s.len() == 0 {
        Seq::empty()
    } else if s.last() == '\n' {
        split_on(s, '\n').drop_last()
    } else {
        split_on(s, '\n')
    }
}

/// The words of `s`: its maximal runs of non-whitespace characters
/// (`str::split_whitespace`).
pub open spec fn words(s: Seq<char>) -> Seq<Seq<char>>
    decreases s.len(),
{
    if s.len() == 0 {
        Seq::empty()
    } else {
        let w = words(s.drop_last());
        let c = s.last();
        if is_ws(c) {
            w
        } else if s.len() >= 2 && !is_ws(s[s.len() - 2]) {
            w.update(w.len() - 1, w.last().push(c))
        } else {
            w.push(seq![c])
        }
    }
}

/// The words of `v`.
pub fn split_words(v: &Vec<char>) -> (r: Vec<Vec<char>>)
    ensures
        r@.map_values(|p: Vec<char>| p@) == words(v@),
{
    let mut ws: Vec<Vec<char>> = Vec::new();
    let mut cur: Vec<char> = Vec::new();
    let mut i: usize = 0;
    assert(v@.take(0) == Seq::<char>::empty());
    while i < v.len()
        invariant
            i <= v.len(),
            i > 0 && !is_ws(v@[i - 1]) ==> cur@.len() > 0,
            cur@.len() > 0 ==> i > 0 && !is_ws(v@[i - 1]),
            (if cur@.len() > 0 {
                ws@.map_values(|p: Vec<char>| p@).push(cur@)
            } else {
                ws@.map_values(|p: Vec<char>| p@)
            }) == words(v@.take(i as int)),
        decreases v.len() - i,
    {
        let ghost before = words(v@.take(i as int));
        let ghost s2 = v@.take(i + 1);
        assert(s2.drop_last() == v@.take(i as int));
        assert(s2.last() == v@[i as int]);
        assert(i > 0 ==> s2[i - 1] == v@[i - 1]);
        let ghost old_ws = ws@.map_values(|p: Vec<char>| p@);
        let ghost old_cur = cur@;
        if is_whitespace(v[i]) {
            if cur.len() > 0 {
                let mut done: Vec<char> = Vec::new();
                std::mem::swap(&mut done, &mut cur);
                ws.push(done);
                assert(ws@.map_values(|p: Vec<char>| p@) =~= old_ws.push(old_cur));
            }
            assert(words(s2) == before);
        } else {
            cur.push(v[i]);
            proof {
            if old_cur.len() > 0 {
                assert(words(s2) =~= old_ws.push(old_cur).update(
                    old_ws.len() as int,
                    old_cur.push(v@[i as int]),
                ));
                assert(ws@.map_values(|p: Vec<char>| p@).push(cur@) =~= words(s2));
            } else {
                assert(words(s2) =~= old_ws.push(seq![v@[i as int]]));
                assert(cur@ =~= seq![v@[i as int]]);
                assert(ws@.map_values(|p: Vec<char>| p@).push(cur@) =~= words(s2));
            }
            }
        }
        i += 1;
    }
    assert(v@.take(v.len() as int) == v@);
    if cur.len() > 0 {
        ws.push(cur);
    }
    assert(ws@.map_values(|p: Vec<char>| p@) == words(v@));
    ws
}

/// The pieces of `parts` with one `sep` between each two (`[..].join(sep)`).
pub open spec fn join(parts: Seq<Seq<char>>, sep: Seq<char>) -> Seq<char>
    decreases parts.len(),
{
    if parts.len() == 0 {
        Seq::empty()
    } else if parts.len() == 1 {
        parts[0]
    } else {
        join(parts.drop_last(), sep) + sep + parts.last()
    }
}

/// Joins the pieces with one space between each two.
pub fn join_with_space(parts: &Vec<Vec<char>>) -> (r: Vec<char>)
    ensures
        r@ == join(parts@.map_values(|p: Vec<char>| p@), seq![' ']),
{
    let ghost views = parts@.map_values(|p: Vec<char>| p@);
    let mut r: Vec<char> = Vec::new();
    let mut i: usize = 0;
    while i < parts.len()
        invariant
            i <= parts.len(),
            views == parts@.map_values(|p: Vec<char>| p@),
            r@ == join(views.take(i as int), seq![' ']),
        decreases parts.len() - i,
    {
        assert(views.take(i + 1).drop_last() == views.take(i as int));
        if i > 0 {
            r.push(' ');
        }
        let part = &parts[i];
        let ghost before = r@;
        let mut j: usize = 0;
        while j < part.len()
            invariant
                j <= part.len(),
                r@ == before + part@.take(j as int),
            decreases part.len() - j,
        {
            r.push(part[j]);
            j += 1;
        }
        assert(part@.take(part.len() as int) == part@);
        assert(views.take(i + 1).last() == part@);
        i += 1;
    }
    assert(views.take(parts.len() as int) == views);
    r
}

/// All the pieces one after the other.
pub open spec fn concat_all(ps: Seq<Seq<char>>) -> Seq<char>
    decreases ps.len(),
{
    if ps.len() == 0 {
        Seq::empty()
    } else {
        concat_all(ps.drop_last()) + ps.last()
    }
}

/// The non-whitespace characters of `s`, in order.
pub open spec fn remove_ws(s: Seq<char>) -> Seq<char>
    decreases s.len(),
{
    if s.len() == 0 {
        Seq::empty()
    } else if is_ws(s.last()) {
        remove_ws(s.drop_last())
    } else {
        remove_ws(s.drop_last()).push(s.last())
    }
}

pub proof fn lemma_concat_all_append(a: Seq<Seq<char>>, b: Seq<Seq<char>>)
    ensures
        concat_all(a + b) == concat_all(a) + concat_all(b),
    decreases b.len(),
{
    if b.len() == 0 {
        assert(a + b == a);
    } else {
        lemma_concat_all_append(a, b.drop_last());
        assert((a + b).drop_last() == a + b.drop_last());
    }
}

pub proof fn lemma_concat_all_update_last(ps: Seq<Seq<char>>, x: Seq<char>)
    requires
        ps.len() > 0,
    ensures
        concat_all(ps.update(ps.len() - 1, x)) == concat_all(ps.drop_last()) + x,
{
    assert(ps.update(ps.len() - 1, x).drop_last() == ps.drop_last());
}

pub proof fn lemma_remove_ws_append(a: Seq<char>, b: Seq<char>)
    ensures
        remove_ws(a + b) == remove_ws(a) + remove_ws(b),
    decreases b.len(),
{
    if b.len() == 0 {
        assert(a + b == a);
    } else {
        lemma_remove_ws_append(a, b.drop_last());
        assert((a + b).drop_last() == a + b.drop_last());
    }
}

pub proof fn lemma_remove_ws_no_ws(s: Seq<char>)
    requires
        no_ws(s),
    ensures
        remove_ws(s) == s,
    decreases s.len(),
{
    if s.len() > 0 {
        lemma_remove_ws_no_ws(s.drop_last());
    }
}

/// The words of `s` are non-empty and hold no whitespace, and together
/// they are exactly the non-whitespace characters of `s`.
pub proof fn lemma_words(s: Seq<char>)
    ensures
        forall|k: int| 0 <= k < words(s).len() ==> no_ws(#[trigger] words(s)[k]) && words(s)[k].len() > 0,
        concat_all(words(s)) == remove_ws(s),
        s.len() > 0 && !is_ws(s.last()) ==> words(s).len() > 0,
    decreases s.len(),
{
    if s.len() > 0 {
        let p = s.drop_last();
        lemma_words(p);
        let w = words(p);
        let c = s.last();
        if is_ws(c) {
        } else if s.len() >= 2 && !is_ws(s[s.len() - 2]) {
            assert(p.last() == s[s.len() - 2]);
            assert(w.len() > 0);
            let nw = w.update(w.len() - 1, w.last().push(c));
            assert forall|k: int| 0 <= k < nw.len() implies no_ws(#[trigger] nw[k]) && nw[k].len() > 0 by {
                if k == w.len() - 1 {
                    assert forall|j: int| 0 <= j < nw[k].len() implies !is_ws(#[trigger] nw[k][j]) by {
                        if j < w.last().len() {
                            assert(nw[k][j] == w[k][j]);
                        }
                    }
                }
            }
            lemma_concat_all_update_last(w, w.last().push(c));
            assert(concat_all(w) == concat_all(w.drop_last()) + w.last());
        } else {
            let nw = w.push(seq![c]);
            assert forall|k: int| 0 <= k < nw.len() implies no_ws(#[trigger] nw[k]) && nw[k].len() > 0 by {
                if k < w.len() {
                    assert(nw[k] == w[k]);
                }
            }
            assert(nw.drop_last() == w);
        }
    }
}

/// Splitting at a newline that joins two texts splits each of them.
pub proof fn lemma_split_on_join(a: Seq<char>, b: Seq<char>)
    ensures
        split_on(a.push('\n') + b, '\n') == split_on(a, '\n') + split_on(b, '\n'),
    decreases b.len(),
{
    let x = a.push('\n');
    if b.len() == 0 {
        assert(x + b == x);
        assert(x.drop_last() == a);
        assert(split_on(b, '\n') == seq![Seq::<char>::empty()]);
        assert(split_on(a, '\n').push(Seq::<char>::empty()) == split_on(a, '\n') + seq![
            Seq::<char>::empty(),
        ]);
    } else {
        lemma_split_on_join(a, b.drop_last());
        lemma_split_on_len(b.drop_last(), '\n');
        lemma_split_on_len(a, '\n');
        assert((x + b).drop_last() == x + b.drop_last());
        assert((x + b).last() == b.last());
        let p = split_on(a, '\n');
        let q = split_on(b.drop_last(), '\n');
        if b.last() == '\n' {
            assert((p + q).push(Seq::<char>::empty()) == p + q.push(Seq::<char>::empty()));
        } else {
            assert((p + q).update((p + q).len() - 1, (p + q).last().push(b.last())) == p + q.update(
                q.len() - 1,
                q.last().push(b.last()),
            ));
        }
    }
}

/// A text without newline is one piece.
pub proof fn lemma_split_on_no_sep(s: Seq<char>)
    requires
        forall|i: int| 0 <= i < s.len() ==> s[i] != '\n',
    ensures
        split_on(s, '\n') == seq![s],
    decreases s.len(),
{
    if s.len() > 0 {
        let d = s.drop_last();
        assert forall|i: int| 0 <= i < d.len() implies d[i] != '\n' by {
            assert(d[i] == s[i]);
        }
        lemma_split_on_no_sep(d);
        assert(s.last() != '\n');
        assert(d.push(s.last()) == s);
        assert(seq![d].update(0, d.push(s.last())) == seq![s]);
    } else {
        assert(s == Seq::<char>::empty());
    }
}

/// Whitespace between two texts separates their words: the words of `a`,
/// a whitespace character, then `b` are the words of `a` followed by those
/// of `b`.
pub proof fn lemma_words_split(a: Seq<char>, c: char, b: Seq<char>)
    requires
        is_ws(c),
    ensures
        words(a.push(c) + b) == words(a) + words(b),
    decreases b.len(),
{
    let x = a.push(c);
    if b.len() == 0 {
        assert(x + b == x);
        assert(x.drop_last() == a);
        assert(words(a) + words(b) == words(a));
    } else {
        let bp = b.drop_last();
        lemma_words_split(a, c, bp);
        assert((x + b).drop_last() == x + bp);
        assert((x + b).last() == b.last());
        let p = words(a);
        let q = words(bp);
        let d = b.last();
        if is_ws(d) {
        } else if b.len() >= 2 && !is_ws(b[b.len() - 2]) {
            assert((x + b)[(x + b).len() - 2] == b[b.len() - 2]);
            lemma_words(bp);
            assert(bp.last() == b[b.len() - 2]);
            assert((p + q).update((p + q).len() - 1, (p + q).last().push(d)) == p + q.update(
                q.len() - 1,
                q.last().push(d),
            ));
        } else {
            if b.len() >= 2 {
                assert((x + b)[(x + b).len() - 2] == b[b.len() - 2]);
            } else {
                assert((x + b)[(x + b).len() - 2] == c);
            }
            assert((p + q).push(seq![d]) == p + q.push(seq![d]));
        }
    }
}

/// A non-empty text without whitespace is one word.
pub proof fn lemma_words_one(w: Seq<char>)
    requires
        w.len() > 0,
        no_ws(w),
    ensures
        words(w) == seq![w],
    decreases w.len(),
{
    let d = w.drop_last();
    assert(!is_ws(w[w.len() - 1]));
    if d.len() == 0 {
        assert(d == Seq::<char>::empty());
        assert(words(d) == Seq::<Seq<char>>::empty());
        assert(seq![w.last()] == w);
        assert(Seq::<Seq<char>>::empty().push(seq![w.last()]) == seq![w]);
    } else {
        assert(!is_ws(w[w.len() - 2]));
        assert forall|i: int| 0 <= i < d.len() implies !is_ws(#[trigger] d[i]) by {
            assert(d[i] == w[i]);
        }
        lemma_words_one(d);
        assert(w[w.len() - 2] == d.last());
        assert(d.push(w.last()) == w);
        assert(seq![d].update(0, d.push(w.last())) == seq![w]);
    }
}

/// Words joined with single spaces split back into the same words.
pub proof fn lemma_words_join(ws: Seq<Seq<char>>)
    requires
        forall|k: int| 0 <= k < ws.len() ==> no_ws(#[trigger] ws[k]) && ws[k].len() > 0,
    ensures
        words(join(ws, seq![' '])) == ws,
    decreases ws.len(),
{
    if ws.len() == 1 {
        lemma_words_one(ws[0]);
        assert(seq![ws[0]] == ws);
    } else if ws.len() > 1 {
        let d = ws.drop_last();
        assert forall|k: int| 0 <= k < d.len() implies no_ws(#[trigger] d[k]) && d[k].len() > 0 by {
            assert(d[k] == ws[k]);
        }
        lemma_words_join(d);
        let j = join(d, seq![' ']);
        assert(j + seq![' '] + ws.last() == j.push(' ') + ws.last());
        lemma_words_split(j, ' ', ws.last());
        lemma_words_one(ws.last());
        assert(d + seq![ws.last()] == ws);
    }
}

// ── collapsing blank lines ──────────────────────────────────────────────

/// One step of blank-line collapsing: the text so far and the number of
/// blank lines just seen, then the next line.
pub open spec fn collapse_step(acc: (Seq<char>, nat), line: Seq<char>) -> (Seq<char>, nat) {
    let t = trim(line);
    if t.len() == 0 {
        if acc.1 + 1 <= 1 {
            (acc.0.push('\n'), acc.1 + 1)
        } else {
            (acc.0, acc.1 + 1)
        }
    } else {
        (acc.0 + t.push('\n'), 0)
    }
}

/// Collapsing applied to the lines in order.
pub open spec fn collapse_fold(ls: Seq<Seq<char>>) -> (Seq<char>, nat)
    decreases ls.len(),
{
    if ls.len() == 0 {
        (Seq::empty(), 0)
    } else {
        collapse_step(collapse_fold(ls.drop_last()), ls.last())
    }
}

/// Each line trimmed, every run of blank lines kept as a single empty line,
/// and the whole result trimmed.
pub open spec fn collapse_blanks_spec(s: Seq<char>) -> Seq<char> {
    trim(collapse_fold(lines(s)).0)
}

/// Collapse consecutive blank lines and trim leading/trailing whitespace.
pub fn collapse_blanks(text: &Vec<char>) -> (r: Vec<char>)
    ensures
        r@ == collapse_blanks_spec(text@),
{
    let pieces = split_chars(text, '\n');
    let ghost views = pieces@.map_values(|p: Vec<char>| p@);
    proof {
        lemma_split_on_len(text@, '\n');
        assert(views.len() == pieces.len());
    }
    let n: usize = if text.len() == 0 {
        0
    } else if text[text.len() - 1] == '\n' {
        pieces.len() - 1
    } else {
        pieces.len()
    };
    proof {
        lemma_split_on_len(text@, '\n');
        if text.len() > 0 && text@.last() == '\n' {
            assert(views.take(n as int) == views.drop_last());
        } else if text.len() > 0 {
            assert(views.take(n as int) == views);
        }
    }
    let mut result: Vec<char> = Vec::new();
    let mut blank_count: usize = 0;
    let mut i: usize = 0;
    while i < n
        invariant
            n <= pieces.len(),
            views == pieces@.map_values(|p: Vec<char>| p@),
            lines(text@) == views.take(n as int),
            i <= n,
            blank_count <= i,
            (result@, blank_count as nat) == collapse_fold(views.take(i as int)),
        decreases n - i,
    {
        assert(views.take(i + 1).drop_last() == views.take(i as int));
        let trimmed = trim_chars(&pieces[i]);
        if trimmed.len() == 0 {
            blank_count += 1;
            if blank_count <= 1 {
                result.push('\n');
            }
        } else {
            blank_count = 0;
            let ghost before = result@;
            let mut j: usize = 0;
            while j < trimmed.len()
                invariant
                    j <= trimmed.len(),
                    result@ == before + trimmed@.take(j as int),
                decreases trimmed.len() - j,
            {
                result.push(trimmed[j]);
                j += 1;
            }
            result.push('\n');
            assert(trimmed@.take(trimmed.len() as int) == trimmed@);
        }
        i += 1;
    }
    trim_chars(&result)
}

/// No piece of a split holds the separator.
pub proof fn lemma_split_on_pieces(s: Seq<char>, sep: char)
    ensures
        forall|k: int, j: int|
            0 <= k < split_on(s, sep).len() && 0 <= j < split_on(s, sep)[k].len()
                ==> #[trigger] split_on(s, sep)[k][j] != sep,
    decreases s.len(),
{
    lemma_split_on_len(s, sep);
    if s.len() > 0 {
        lemma_split_on_pieces(s.drop_last(), sep);
        lemma_split_on_len(s.drop_last(), sep);
        let p = split_on(s.drop_last(), sep);
        if s.last() != sep {
            assert forall|k: int, j: int|
                0 <= k < split_on(s, sep).len() && 0 <= j < split_on(s, sep)[k].len()
                    implies #[trigger] split_on(s, sep)[k][j] != sep by {
                if k == p.len() - 1 && j == p.last().len() {
                } else if k == p.len() - 1 {
                    assert(split_on(s, sep)[k][j] == p[k][j]);
                } else {
                    assert(split_on(s, sep)[k] == p[k]);
                }
            }
        } else {
            assert forall|k: int, j: int|
                0 <= k < split_on(s, sep).len() && 0 <= j < split_on(s, sep)[k].len()
                    implies #[trigger] split_on(s, sep)[k][j] != sep by {
                assert(split_on(s, sep)[k] == p[k]);
            }
        }
    }
}

/// No three newlines in a row.
pub open spec fn no_blank_run(r: Seq<char>) -> bool {
    forall|i: int|
        0 <= i && i + 2 < r.len() ==> !(#[trigger] r[i] == '\n' && r[i + 1] == '\n' && r[i + 2]
            == '\n')
}

/// What blank-line collapsing keeps true of its running text: no three
/// newlines in a row, and after a content line the text ends with a
/// non-newline followed by one newline.
pub open spec fn collapse_inv(acc: (Seq<char>, nat)) -> bool {
    &&& no_blank_run(acc.0)
    &&& acc.1 == 0 ==> acc.0.len() == 0 || (acc.0.len() >= 2 && acc.0.last() == '\n'
        && acc.0[acc.0.len() - 2] != '\n')
    &&& acc.1 >= 1 ==> acc.0.len() >= 1 && acc.0.last() == '\n'
}

proof fn lemma_collapse_fold(ls: Seq<Seq<char>>)
    requires
        forall|k: int, j: int|
            0 <= k < ls.len() && 0 <= j < ls[k].len() ==> #[trigger] ls[k][j] != '\n',
    ensures
        collapse_inv(collapse_fold(ls)),
    decreases ls.len(),
{
    if ls.len() > 0 {
        let prev = ls.drop_last();
        assert forall|k: int, j: int|
            0 <= k < prev.len() && 0 <= j < prev[k].len() implies #[trigger] prev[k][j] != '\n' by {
            assert(prev[k] == ls[k]);
        }
        lemma_collapse_fold(prev);
        let acc = collapse_fold(prev);
        let line = ls.last();
        let t = trim(line);
        lemma_trim(line);
        lemma_trim_start(line);
        lemma_trim_end(trim_start(line));
        let r = collapse_fold(ls).0;
        if t.len() == 0 {
            if acc.1 == 0 {
                assert forall|i: int|
                    0 <= i && i + 2 < r.len() implies !(#[trigger] r[i] == '\n' && r[i + 1] == '\n'
                    && r[i + 2] == '\n') by {
                    if i + 2 < acc.0.len() {
                        assert(r[i] == acc.0[i] && r[i + 1] == acc.0[i + 1] && r[i + 2] == acc.0[i + 2]);
                    } else {
                        assert(r[i] == acc.0[acc.0.len() - 2]);
                    }
                }
            }
        } else {
            // every character of the trimmed line is a character of the line
            let k1 = choose|k: int|
                0 <= k <= line.len() && trim_start(line) == line.subrange(k, line.len() as int)
                    && all_ws(line.subrange(0, k));
            let ts = trim_start(line);
            let k2 = choose|k: int|
                0 <= k <= ts.len() && trim_end(ts) == ts.subrange(0, k) && all_ws(
                    ts.subrange(k, ts.len() as int),
                );
            assert forall|j: int| 0 <= j < t.len() implies #[trigger] t[j] != '\n' by {
                assert(t[j] == line[j + k1]);
                assert(ls[ls.len() - 1][j + k1] != '\n');
            }
            let tn = t.push('\n');
            assert(r == acc.0 + tn);
            assert forall|i: int|
                0 <= i && i + 2 < r.len() implies !(#[trigger] r[i] == '\n' && r[i + 1] == '\n'
                && r[i + 2] == '\n') by {
                if i + 2 < acc.0.len() {
                    assert(r[i] == acc.0[i] && r[i + 1] == acc.0[i + 1] && r[i + 2] == acc.0[i + 2]);
                } else if i + 1 < acc.0.len() {
                    assert(r[i + 2] == t[0]);
                } else if i < acc.0.len() {
                    assert(r[i + 1] == t[0]);
                } else {
                    assert(r[i] == t[i - acc.0.len()]);
                }
            }
            assert(r.last() == '\n');
            assert(r[r.len() - 2] == t.last());
        }
    }
}

/// Blank-line collapsing leaves no leading or trailing whitespace and never
/// more than one blank line in a row (no three newlines in a row).
pub proof fn lemma_collapse_blanks(s: Seq<char>)
    ensures
        is_trimmed(collapse_blanks_spec(s)),
        no_blank_run(collapse_blanks_spec(s)),
{
    let ls = lines(s);
    lemma_split_on_pieces(s, '\n');
    lemma_split_on_len(s, '\n');
    assert forall|k: int, j: int|
        0 <= k < ls.len() && 0 <= j < ls[k].len() implies #[trigger] ls[k][j] != '\n' by {
        assert(ls[k] == split_on(s, '\n')[k]);
    }
    lemma_collapse_fold(ls);
    let r = collapse_fold(ls).0;
    lemma_trim(r);
    lemma_trim_start(r);
    lemma_trim_end(trim_start(r));
    let k1 = choose|k: int|
        0 <= k <= r.len() && trim_start(r) == r.subrange(k, r.len() as int) && all_ws(
            r.subrange(0, k),
        );
    let ts = trim_start(r);
    let t = trim(r);
    assert forall|i: int|
        0 <= i && i + 2 < t.len() implies !(#[trigger] t[i] == '\n' && t[i + 1] == '\n' && t[i
        + 2] == '\n') by {
        assert(t[i] == r[i + k1] && t[i + 1] == r[i + 1 + k1] && t[i + 2] == r[i + 2 + k1]);
    }
}

// ── collapsing is idempotent ───────────────────────────────────────────

/// A line of collapsed text: `Some` content line or `None` for a blank one.
pub open spec fn item_text(it: Option<Seq<char>>) -> Seq<char> {
    match it {
        Some(t) => t,
        None => Seq::empty(),
    }
}

/// The texts of the lines.
pub open spec fn item_texts(its: Seq<Option<Seq<char>>>) -> Seq<Seq<char>> {
    its.map_values(|it: Option<Seq<char>>| item_text(it))
}

/// Each line followed by a newline.
pub open spec fn render(its: Seq<Option<Seq<char>>>) -> Seq<char>
    decreases its.len(),
{
    if its.len() == 0 {
        Seq::empty()
    } else {
        render(its.drop_last()) + item_text(its.last()).push('\n')
    }
}

/// No character is a newline.
pub open spec fn no_nl(t: Seq<char>) -> bool {
    forall|j: int| 0 <= j < t.len() ==> #[trigger] t[j] != '\n'
}

/// Content lines are non-empty, trimmed and hold no newline, and no two
/// blank lines follow each other.
pub open spec fn items_ok(its: Seq<Option<Seq<char>>>) -> bool {
    &&& forall|k: int|
        0 <= k < its.len() ==> match #[trigger] its[k] {
            Some(t) => t.len() > 0 && is_trimmed(t) && no_nl(t),
            None => true,
        }
    &&& forall|k: int| 0 <= k < its.len() - 1 && #[trigger] its[k] is None ==> its[k + 1] is Some
}

/// The lines that collapsing produces, with the count of blank lines just
/// seen.
pub open spec fn items_fold(ls: Seq<Seq<char>>) -> (Seq<Option<Seq<char>>>, nat)
    decreases ls.len(),
{
    if ls.len() == 0 {
        (Seq::empty(), 0)
    } else {
        let acc = items_fold(ls.drop_last());
        let t = trim(ls.last());
        if t.len() == 0 {
            if acc.1 == 0 {
                (acc.0.push(None), 1)
            } else {
                (acc.0, acc.1 + 1)
            }
        } else {
            (acc.0.push(Some(t)), 0)
        }
    }
}

proof fn lemma_trim_no_nl(line: Seq<char>)
    requires
        no_nl(line),
    ensures
        no_nl(trim(line)),
{
    lemma_trim_start(line);
    let k1 = choose|k: int|
        0 <= k <= line.len() && trim_start(line) == line.subrange(k, line.len() as int) && all_ws(
            line.subrange(0, k),
        );
    let ts = trim_start(line);
    lemma_trim_end(ts);
    let k2 = choose|k: int|
        0 <= k <= ts.len() && trim_end(ts) == ts.subrange(0, k) && all_ws(
            ts.subrange(k, ts.len() as int),
        );
    let t = trim(line);
    assert forall|j: int| 0 <= j < t.len() implies #[trigger] t[j] != '\n' by {
        assert(t[j] == line[j + k1]);
    }
}

proof fn lemma_items_fold(ls: Seq<Seq<char>>)
    requires
        forall|k: int| 0 <= k < ls.len() ==> no_nl(#[trigger] ls[k]),
    ensures
        collapse_fold(ls).0 == render(items_fold(ls).0),
        collapse_fold(ls).1 == items_fold(ls).1,
        items_ok(items_fold(ls).0),
        items_fold(ls).1 >= 1 ==> items_fold(ls).0.len() > 0 && items_fold(ls).0.last() is None,
        items_fold(ls).1 == 0 ==> items_fold(ls).0.len() == 0 || items_fold(ls).0.last() is Some,
    decreases ls.len(),
{
    if ls.len() > 0 {
        let p = ls.drop_last();
        assert forall|k: int| 0 <= k < p.len() implies no_nl(#[trigger] p[k]) by {
            assert(p[k] == ls[k]);
        }
        lemma_items_fold(p);
        let acc = items_fold(p);
        let its = acc.0;
        let line = ls.last();
        assert(no_nl(ls[ls.len() - 1]));
        let t = trim(line);
        lemma_trim(line);
        if t.len() == 0 {
            if acc.1 == 0 {
                let n = its.push(None);
                assert(n.drop_last() == its);
                assert(item_text(None::<Seq<char>>) == Seq::<char>::empty());
                assert(render(n) == render(its) + Seq::<char>::empty().push('\n'));
                assert(Seq::<char>::empty().push('\n') =~= seq!['\n']);
                assert(render(its) + seq!['\n'] =~= render(its).push('\n'));
                assert forall|k: int| 0 <= k < n.len() - 1 && #[trigger] n[k] is None implies n[k + 1] is Some by {
                    if k < its.len() - 1 {
                        assert(n[k] == its[k] && n[k + 1] == its[k + 1]);
                    } else {
                        assert(n[k] == its.last());
                    }
                }
                assert forall|k: int| 0 <= k < n.len() implies match #[trigger] n[k] {
                    Some(t) => t.len() > 0 && is_trimmed(t) && no_nl(t),
                    None => true,
                } by {
                    if k < its.len() {
                        assert(n[k] == its[k]);
                    }
                }
            }
        } else {
            lemma_trim_no_nl(line);
            let n = its.push(Some(t));
            assert(n.drop_last() == its);
            assert forall|k: int| 0 <= k < n.len() - 1 && #[trigger] n[k] is None implies n[k + 1] is Some by {
                if k < its.len() - 1 {
                    assert(n[k] == its[k] && n[k + 1] == its[k + 1]);
                }
            }
            assert forall|k: int| 0 <= k < n.len() implies match #[trigger] n[k] {
                Some(t) => t.len() > 0 && is_trimmed(t) && no_nl(t),
                None => true,
            } by {
                if k < its.len() {
                    assert(n[k] == its[k]);
                }
            }
        }
    }
}

proof fn lemma_render_append(a: Seq<Option<Seq<char>>>, b: Seq<Option<Seq<char>>>)
    ensures
        render(a + b) == render(a) + render(b),
    decreases b.len(),
{
    if b.len() == 0 {
        assert(a + b == a);
    } else {
        lemma_render_append(a, b.drop_last());
        assert((a + b).drop_last() == a + b.drop_last());
    }
}

proof fn lemma_render_split(c: Seq<Option<Seq<char>>>)
    requires
        c.len() > 0,
        items_ok(c),
    ensures
        render(c).len() > 0,
        render(c).last() == '\n',
        split_on(render(c).drop_last(), '\n') == item_texts(c),
    decreases c.len(),
{
    let p = c.drop_last();
    let it = c.last();
    let tx = item_text(it);
    assert(no_nl(tx)) by {
        assert(match c[c.len() - 1] {
            Some(t) => t.len() > 0 && is_trimmed(t) && no_nl(t),
            None => true,
        });
    }
    assert(render(c) == render(p) + tx.push('\n'));
    assert((render(p) + tx.push('\n')).drop_last() == render(p) + tx);
    lemma_split_on_no_sep(tx);
    if p.len() == 0 {
        assert(render(p) + tx == tx);
        assert(item_texts(c) =~= seq![tx]);
    } else {
        assert forall|k: int|
            0 <= k < p.len() implies match #[trigger] p[k] {
            Some(t) => t.len() > 0 && is_trimmed(t) && no_nl(t),
            None => true,
        } by {
            assert(p[k] == c[k]);
        }
        assert forall|k: int| 0 <= k < p.len() - 1 && #[trigger] p[k] is None implies p[k + 1] is Some by {
            assert(p[k] == c[k] && p[k + 1] == c[k + 1]);
        }
        lemma_render_split(p);
        let a = render(p).drop_last();
        assert(a.push('\n') == render(p));
        lemma_split_on_join(a, tx);
        assert(item_texts(c) =~= item_texts(p) + seq![tx]);
    }
}

proof fn lemma_fold_render(c: Seq<Option<Seq<char>>>)
    requires
        items_ok(c),
        c.len() > 0 ==> c[0] is Some,
    ensures
        collapse_fold(item_texts(c)) == (render(c), if c.len() > 0 && c.last() is None {
            1nat
        } else {
            0nat
        }),
    decreases c.len(),
{
    if c.len() > 0 {
        let p = c.drop_last();
        assert forall|k: int|
            0 <= k < p.len() implies match #[trigger] p[k] {
            Some(t) => t.len() > 0 && is_trimmed(t) && no_nl(t),
            None => true,
        } by {
            assert(p[k] == c[k]);
        }
        assert forall|k: int| 0 <= k < p.len() - 1 && #[trigger] p[k] is None implies p[k + 1] is Some by {
            assert(p[k] == c[k] && p[k + 1] == c[k + 1]);
        }
        if p.len() > 0 {
            assert(p[0] == c[0]);
        }
        lemma_fold_render(p);
        assert(item_texts(c).drop_last() =~= item_texts(p));
        assert(item_texts(c).last() == item_text(c.last()));
        let it = c.last();
        assert(match c[c.len() - 1] {
            Some(t) => t.len() > 0 && is_trimmed(t) && no_nl(t),
            None => true,
        });
        match it {
            Some(t) => {
                lemma_trim(t);
            },
            None => {
                assert(c.len() >= 2);
                assert(c[c.len() - 2] is None ==> c[c.len() - 1] is Some);
                assert(p.last() == c[c.len() - 2]);
                lemma_trim(Seq::<char>::empty());
                assert(Seq::<char>::empty().push('\n') =~= seq!['\n']);
            },
        }
    }
}

/// At most one blank line at the front of `its`.
pub open spec fn front_of(its: Seq<Option<Seq<char>>>) -> Seq<Option<Seq<char>>> {
    if its.len() > 0 && its[0] is None {
        seq![None::<Seq<char>>]
    } else {
        Seq::empty()
    }
}

/// At most one blank line at the back of `its`, after its front.
pub open spec fn back_of(its: Seq<Option<Seq<char>>>) -> Seq<Option<Seq<char>>> {
    let rest = its.subrange(front_of(its).len() as int, its.len() as int);
    if rest.len() > 0 && rest.last() is None {
        seq![None::<Seq<char>>]
    } else {
        Seq::empty()
    }
}

/// The lines of `its` between a blank front and a blank back line.
pub open spec fn core_of(its: Seq<Option<Seq<char>>>) -> Seq<Option<Seq<char>>> {
    its.subrange(front_of(its).len() as int, its.len() - back_of(its).len())
}

proof fn lemma_core(its: Seq<Option<Seq<char>>>)
    requires
        items_ok(its),
    ensures
        its == front_of(its) + core_of(its) + back_of(its),
        items_ok(core_of(its)),
        core_of(its).len() > 0 ==> core_of(its)[0] is Some && core_of(its).last() is Some,
{
    let front = front_of(its);
    let back = back_of(its);
    let core = core_of(its);
    let rest = its.subrange(front.len() as int, its.len() as int);
    assert(its =~= front + core + back);
    assert forall|k: int|
        0 <= k < core.len() implies match #[trigger] core[k] {
        Some(t) => t.len() > 0 && is_trimmed(t) && no_nl(t),
        None => true,
    } by {
        assert(core[k] == its[k + front.len()]);
    }
    assert forall|k: int| 0 <= k < core.len() - 1 && #[trigger] core[k] is None implies core[k + 1] is Some by {
        assert(core[k] == its[k + front.len()] && core[k + 1] == its[k + 1 + front.len()]);
    }
    if core.len() > 0 {
        assert(core[0] == its[front.len() as int]);
        if front.len() > 0 {
            assert(its[0] is None);
        }
        assert(core.last() == its[its.len() - 1 - back.len()]);
        if back.len() > 0 {
            assert(rest.last() == its[its.len() - 1]);
            assert(its[its.len() - 2] is None ==> its[its.len() - 1] is Some);
        }
    }
}

proof fn lemma_render_one_blank()
    ensures
        render(seq![None::<Seq<char>>]) == seq!['\n'],
{
    let one = seq![None::<Seq<char>>];
    assert(one.drop_last() == Seq::<Option<Seq<char>>>::empty());
    assert(one.last() is None);
    assert(item_text(one.last()) == Seq::<char>::empty());
    assert(render(Seq::<Option<Seq<char>>>::empty()) == Seq::<char>::empty());
    assert(render(one) == render(one.drop_last()) + item_text(one.last()).push('\n'));
    assert(Seq::<char>::empty().push('\n') =~= seq!['\n']);
    assert(Seq::<char>::empty() + seq!['\n'] =~= seq!['\n']);
}

/// The first and last characters of rendered lines that start and end with
/// a content line.
#[verifier::rlimit(100)]
proof fn lemma_render_ends(core: Seq<Option<Seq<char>>>)
    requires
        items_ok(core),
        core.len() > 0,
        core[0] is Some,
        core.last() is Some,
    ensures
        render(core).len() >= 2,
        render(core).last() == '\n',
        !is_ws(render(core)[0]),
        !is_ws(render(core).drop_last().last()),
        render(core).drop_last().len() > 0,
{
    let t0 = core[0]->0;
    let tl = core.last()->0;
    assert(match core[0] {
        Some(t) => t.len() > 0 && is_trimmed(t) && no_nl(t),
        None => true,
    });
    assert(match core[core.len() - 1] {
        Some(t) => t.len() > 0 && is_trimmed(t) && no_nl(t),
        None => true,
    });
    lemma_render_append(seq![core[0]], core.drop_first());
    assert(seq![core[0]] + core.drop_first() == core);
    assert(seq![core[0]].drop_last() == Seq::<Option<Seq<char>>>::empty());
    assert(seq![core[0]].last() == core[0]);
    assert(item_text(core[0]) == t0);
    assert(render(Seq::<Option<Seq<char>>>::empty()) == Seq::<char>::empty());
    assert(render(seq![core[0]]) == Seq::<char>::empty() + t0.push('\n'));
    assert(render(core)[0] == t0[0]);
    let y = render(core);
    assert(y == render(core.drop_last()) + tl.push('\n'));
    assert(y.drop_last() == render(core.drop_last()) + tl);
}

/// Nothing, or one newline.
pub open spec fn at_most_newline(s: Seq<char>) -> bool {
    s == Seq::<char>::empty() || s == seq!['\n']
}

proof fn lemma_trim_glue(fr: Seq<char>, y: Seq<char>, bk: Seq<char>)
    requires
        at_most_newline(fr),
        at_most_newline(bk),
        y.len() >= 2,
        y.last() == '\n',
        !is_ws(y[0]),
        !is_ws(y.drop_last().last()),
    ensures
        trim(fr + y + bk) == y.drop_last(),
{
    let g = fr + y + bk;
    let x = y.drop_last();
    let yb = y + bk;
    assert(yb[0] == y[0]);
    assert(trim_start(yb) == yb);
    if fr.len() > 0 {
        assert(fr == seq!['\n']);
        assert(g[0] == '\n');
        assert(g.drop_first() =~= yb);
        assert(trim_start(g) == trim_start(g.drop_first()));
    } else {
        assert(g =~= yb);
    }
    assert(trim_start(g) == yb);
    assert(y =~= x.push('\n'));
    assert(x.len() > 0 && !is_ws(x.last()));
    assert(trim_end(x) == x);
    assert(y.last() == '\n' && y.drop_last() == x);
    assert(trim_end(y) == trim_end(x));
    if bk.len() > 0 {
        assert(bk == seq!['\n']);
        assert(yb.last() == '\n');
        assert(yb.drop_last() =~= y);
        assert(trim_end(yb) == trim_end(yb.drop_last()));
    } else {
        assert(yb =~= y);
    }
    assert(trim_end(yb) == x);
}

proof fn lemma_trim_blanks(fr: Seq<char>, bk: Seq<char>)
    requires
        at_most_newline(fr),
        at_most_newline(bk),
    ensures
        trim(fr + bk) == Seq::<char>::empty(),
{
    let g = fr + bk;
    assert forall|i: int| 0 <= i < g.len() implies is_ws(#[trigger] g[i]) by {
        if i < fr.len() {
            assert(g[i] == fr[i]);
        } else {
            assert(g[i] == bk[i - fr.len()]);
        }
    }
    lemma_trim(g);
}

proof fn lemma_collapse_core(core: Seq<Option<Seq<char>>>)
    requires
        items_ok(core),
        core.len() > 0,
        core[0] is Some,
        core.last() is Some,
    ensures
        collapse_blanks_spec(render(core).drop_last()) == render(core).drop_last(),
{
    lemma_render_ends(core);
    lemma_render_split(core);
    lemma_fold_render(core);
    let y = render(core);
    let x = y.drop_last();
    assert(y == x.push('\n'));
    assert(lines(x) == split_on(x, '\n'));
    assert(collapse_fold(lines(x)).0 == y);
    assert(trim_start(y) == y);
    assert(trim_end(y) == trim_end(x));
    assert(trim_end(x) == x);
}

/// Collapsing collapsed text changes nothing.
pub proof fn lemma_collapse_idempotent(s: Seq<char>)
    ensures
        collapse_blanks_spec(collapse_blanks_spec(s)) == collapse_blanks_spec(s),
{
    let ls = lines(s);
    lemma_split_on_pieces(s, '\n');
    lemma_split_on_len(s, '\n');
    assert forall|k: int| 0 <= k < ls.len() implies no_nl(#[trigger] ls[k]) by {
        assert(ls[k] == split_on(s, '\n')[k]);
        assert forall|j: int| 0 <= j < ls[k].len() implies #[trigger] ls[k][j] != '\n' by {
            assert(split_on(s, '\n')[k][j] != '\n');
        }
    }
    lemma_items_fold(ls);
    let its = items_fold(ls).0;
    lemma_core(its);
    let front = front_of(its);
    let core = core_of(its);
    let back = back_of(its);
    lemma_render_append(front + core, back);
    lemma_render_append(front, core);
    lemma_render_one_blank();
    assert(render(Seq::<Option<Seq<char>>>::empty()) == Seq::<char>::empty());
    assert(at_most_newline(render(front)));
    assert(at_most_newline(render(back)));
    assert(render(its) == render(front) + render(core) + render(back));
    if core.len() == 0 {
        assert(render(front) + render(core) == render(front));
        lemma_trim_blanks(render(front), render(back));
        assert(lines(Seq::<char>::empty()) == Seq::<Seq<char>>::empty());
        lemma_trim(Seq::<char>::empty());
    } else {
        lemma_render_ends(core);
        lemma_trim_glue(render(front), render(core), render(back));
        lemma_collapse_core(core);
    }
}

// ── conversions ─────────────────────────────────────────────────────────

/// Copies the characters of `s` into a vector.
pub fn to_chars(s: &str) -> (r: Vec<char>)
    ensures
        r@ == s@,
{
    let mut r: Vec<char> = Vec::new();
    for c in it: s.chars()
        invariant
            r@ == it.seq().take(it.index() as int),
    {
        r.push(c);
    }
    r
}

/// Builds a string from a sequence of characters.
pub fn from_chars(v: &[char]) -> (r: String)
    ensures
        r@ == v@,
{
    let mut r = String::new();
    let mut i: usize = 0;
    while i < v.len()
        invariant
            i <= v.len(),
            r@ == v@.take(i as int),
        decreases v.len() - i,
    {
        r.push(v[i]);
        i += 1;
    }
    r
}

} // verus!
