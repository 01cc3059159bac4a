//! The text editor block of the documentation site: a textarea of Markdown-ish text, a toggle
//! per inline mark and per line style, and the preview it renders.
//!
//! A browser counts a textarea's selection in UTF-16 code units; everything here takes and gives
//! back positions in those units, and works inside on `char` positions. The markers and prefixes
//! the editor writes are all ASCII, so a position between two `char`s names the same place as
//! the byte offset the page itself slices at.

use crate::text::{
    chars_of, find, find_exec, find_from, find_from_exec, index_of_from, index_of_from_exec,
    lemma_find, lemma_find_from, lemma_index_of_from, occurs_at, occurs_at_exec, push_all,
    slice_of, starts_with, starts_with_exec, ends_with, ends_with_exec, string_of,
};
use vstd::prelude::*;

verus! {

// ---------------------------------------------------------------------------------------------
// UTF-16 code units
// ---------------------------------------------------------------------------------------------

/// How many UTF-16 code units `c` takes: two above the Basic Multilingual Plane, one below.
pub open spec fn width16(c: char) -> nat {
    if (c as u32) >= 0x10000 {
        2
    } else {
        1
    }
}

/// How many UTF-16 code units `s` takes.
pub open spec fn units(s: Seq<char>) -> nat
    decreases s.len(),
{
    if s.len() == 0 {
        0
    } else {
        units(s.drop_last()) + width16(s.last())
    }
}

/// The text is small enough that every UTF-16 position in it, and in what the editor makes of
/// it, fits in a `usize`.
pub open spec fn fits(s: Seq<char>) -> bool {
    units(s) + 16 <= usize::MAX
}

pub proof fn lemma_units_append(a: Seq<char>, b: Seq<char>)
    ensures
        units(a + b) == units(a) + units(b),
    decreases b.len(),
{
    if b.len() > 0 {
        lemma_units_append(a, b.drop_last());
        assert((a + b).drop_last() =~= a + b.drop_last());
    } else {
        assert(a + b =~= a);
    }
}

pub proof fn lemma_units_take(s: Seq<char>, i: int, j: int)
    requires
        0 <= i <= j <= s.len(),
    ensures
        units(s.take(i)) <= units(s.take(j)),
        units(s.take(j)) - units(s.take(i)) == units(s.subrange(i, j)),
        units(s.take(j)) <= units(s),
{
    lemma_units_append(s.take(i), s.subrange(i, j));
    assert(s.take(i) + s.subrange(i, j) =~= s.take(j));
    lemma_units_append(s.take(j), s.skip(j));
    assert(s.take(j) + s.skip(j) =~= s);
}

fn width16_exec(c: char) -> (r: usize)
    ensures
        r == width16(c),
{
    if (c as u32) >= 0x10000 {
        2
    } else {
        1
    }
}

/// The UTF-16 units of `s[..k]`.
fn units_to(s: &[char], k: usize) -> (r: usize)
    requires
        k <= s@.len(),
        units(s@) <= usize::MAX,
    ensures
        r == units(s@.take(k as int)),
{
    let mut acc: usize = 0;
    let mut i: usize = 0;
    while i < k
        invariant
            i <= k <= s@.len(),
            units(s@) <= usize::MAX,
            acc == units(s@.take(i as int)),
        decreases k - i,
    {
        assert(s@.take(i + 1).drop_last() =~= s@.take(i as int));
        proof {
            lemma_units_take(s@, i + 1, s@.len() as int);
        }
        acc = acc + width16_exec(s[i]);
        i += 1;
    }
    acc
}

/// The place in `s` a UTF-16 position lands on, looking from `i`: the first `char` boundary at
/// which at least `u` units have gone by, or the end.
pub open spec fn index_from(s: Seq<char>, u: int, i: int) -> int
    decreases s.len() - i,
{
    if i < 0 || i >= s.len() {
        s.len() as int
    } else if units(s.take(i)) >= u {
        i
    } else {
        index_from(s, u, i + 1)
    }
}

/// The `char` position of the UTF-16 position `u` in `s`.
pub open spec fn char_index(s: Seq<char>, u: int) -> int {
    index_from(s, u, 0)
}

pub proof fn lemma_index_from(s: Seq<char>, u: int, i: int)
    requires
        0 <= i <= s.len(),
    ensures
        i <= index_from(s, u, i) <= s.len(),
    decreases s.len() - i,
{
    if i < s.len() && units(s.take(i)) < u {
        lemma_index_from(s, u, i + 1);
    }
}

fn char_index_exec(s: &[char], u: usize) -> (r: usize)
    requires
        fits(s@),
    ensures
        r == char_index(s@, u as int),
        r <= s@.len(),
{
    proof {
        lemma_index_from(s@, u as int, 0);
    }
    let mut acc: usize = 0;
    let mut i: usize = 0;
    while i < s.len()
        invariant
            i <= s@.len(),
            fits(s@),
            acc == units(s@.take(i as int)),
            index_from(s@, u as int, i as int) == char_index(s@, u as int),
        decreases s.len() - i,
    {
        if acc >= u {
            return i;
        }
        assert(s@.take(i + 1).drop_last() =~= s@.take(i as int));
        proof {
            lemma_units_take(s@, i + 1, s@.len() as int);
        }
        acc = acc + width16_exec(s[i]);
        i += 1;
    }
    s.len()
}

/// The UTF-16 position of the `char` position `k` of `s`, `k` taken no further than the end.
pub open spec fn offset16(s: Seq<char>, k: int) -> int {
    units(s.take(if k <= s.len() {
        k
    } else {
        s.len() as int
    })) as int
}

/// How many UTF-16 code units `text` takes, as a textarea counts its length.
pub fn utf16_len(text: &str) -> (r: usize)
    requires
        fits(text@),
    ensures
        r == units(text@),
{
    let s = chars_of(text);
    assert(s@.take(s@.len() as int) =~= s@);
    units_to(&s, s.len())
}

// ---------------------------------------------------------------------------------------------
// Lines and markers
// ---------------------------------------------------------------------------------------------

/// Where the line holding position `at` starts: just after the last `\n` before `at`.
pub open spec fn line_start(t: Seq<char>, at: int) -> int
    decreases at,
{
    if at <= 0 || at > t.len() {
        0
    } else if t[at - 1] == '\n' {
        at
    } else {
        line_start(t, at - 1)
    }
}

/// Where the line holding position `at` ends: at the first `\n` from `at`, or the end.
pub open spec fn line_end(t: Seq<char>, at: int) -> int {
    index_of_from(t, '\n', at)
}

pub proof fn lemma_line_start(t: Seq<char>, at: int)
    requires
        0 <= at <= t.len(),
    ensures
        0 <= line_start(t, at) <= at,
        forall|k: int| line_start(t, at) <= k < at ==> t[k] != '\n',
        line_start(t, at) > 0 ==> t[line_start(t, at) - 1] == '\n',
    decreases at,
{
    if at > 0 && t[at - 1] != '\n' {
        lemma_line_start(t, at - 1);
    }
}

fn line_bounds(t: &[char], at: usize) -> (r: (usize, usize))
    requires
        at <= t@.len(),
    ensures
        r.0 == line_start(t@, at as int),
        r.1 == line_end(t@, at as int),
        r.0 <= at <= r.1 <= t@.len(),
{
    proof {
        lemma_line_start(t@, at as int);
        lemma_index_of_from(t@, '\n', at as int);
    }
    let mut start = at;
    while start > 0 && t[start - 1] != '\n'
        invariant
            start <= at <= t@.len(),
            line_start(t@, start as int) == line_start(t@, at as int),
        decreases start,
    {
        start -= 1;
    }
    let end = index_of_from_exec(t, '\n', at);
    (start, end)
}

/// How many times `m` occurs in `s` from `i` on, counted left to right without overlaps, as
/// `str::matches` counts.
pub open spec fn count_from(s: Seq<char>, m: Seq<char>, i: int) -> nat
    decreases s.len() + 1 - i,
{
    if m.len() == 0 || i < 0 {
        0
    } else {
        match find_from(s, m, i) {
            Some(j) => {
                proof {
                    lemma_find_from(s, m, i);
                }
                1 + count_from(s, m, j + m.len())
            },
            None => 0,
        }
    }
}

fn count_exec(s: &[char], m: &[char]) -> (r: usize)
    requires
        m@.len() > 0,
    ensures
        r == count_from(s@, m@, 0),
{
    let mut n: usize = 0;
    let mut pos: usize = 0;
    loop
        invariant
            m@.len() > 0,
            pos <= s@.len(),
            n <= pos,
            n + count_from(s@, m@, pos as int) == count_from(s@, m@, 0),
        decreases s.len() - pos,
    {
        proof {
            lemma_find_from(s@, m@, pos as int);
        }
        match find_from_exec(s, m, pos) {
            None => return n,
            Some(j) => {
                n = n + 1;
                pos = j + m.len();
            },
        }
    }
}

/// The last place at or before `j` where `m` occurs in `s`.
pub open spec fn rfind_from(s: Seq<char>, m: Seq<char>, j: int) -> Option<int>
    decreases j + 1,
{
    if j < 0 {
        None
    } else if occurs_at(s, m, j) {
        Some(j)
    } else {
        rfind_from(s, m, j - 1)
    }
}

/// The last place where `m` occurs in `s`, which is what `str::rfind` answers.
pub open spec fn rfind(s: Seq<char>, m: Seq<char>) -> Option<int> {
    rfind_from(s, m, s.len() - m.len())
}

pub proof fn lemma_rfind_from(s: Seq<char>, m: Seq<char>, j: int)
    ensures
        rfind_from(s, m, j) matches Some(k) ==> 0 <= k <= j && occurs_at(s, m, k),
    decreases j + 1,
{
    if j >= 0 && !occurs_at(s, m, j) {
        lemma_rfind_from(s, m, j - 1);
    }
}

fn rfind_exec(s: &[char], m: &[char]) -> (r: Option<usize>)
    ensures
        r matches Some(k) ==> rfind(s@, m@) == Some(k as int),
        r is None ==> rfind(s@, m@) is None,
{
    if m.len() > s.len() {
        return None;
    }
    let mut j = s.len() - m.len();
    loop
        invariant
            j + m@.len() <= s@.len(),
            rfind_from(s@, m@, j as int) == rfind(s@, m@),
        decreases j,
    {
        if occurs_at_exec(s, m, j) {
            return Some(j);
        }
        if j == 0 {
            assert(rfind_from(s@, m@, -1) is None);
            return None;
        }
        j -= 1;
    }
}

/// One inline mark the editor toggles.
#[derive(Debug, Clone, Copy, PartialEq, Eq, Structural)]
pub enum Mark {
    Bold,
    Italic,
    Strike,
    Code,
}

/// What a mark is written as.
pub open spec fn marker_of(mark: Mark) -> Seq<char> {
    match mark {
        Mark::Bold => "**"@,
        Mark::Italic => "_"@,
        Mark::Strike => "~~"@,
        Mark::Code => "`"@,
    }
}

impl Mark {
    /// Every mark, in the order the toolbar shows them.
    pub fn all() -> (r: Vec<Mark>)
        ensures
            r@ == seq![Mark::Bold, Mark::Italic, Mark::Strike, Mark::Code],
    {
        let r = vec![Mark::Bold, Mark::Italic, Mark::Strike, Mark::Code];
        assert(r@ =~= seq![Mark::Bold, Mark::Italic, Mark::Strike, Mark::Code]);
        r
    }

    /// What the toggle group calls the mark.
    pub fn slug(&self) -> (r: &'static str)
        ensures
            r@ == match *self {
                Mark::Bold => "bold"@,
                Mark::Italic => "italic"@,
                Mark::Strike => "strike"@,
                Mark::Code => "code"@,
            },
    {
        match self {
            Mark::Bold => "bold",
            Mark::Italic => "italic",
            Mark::Strike => "strike",
            Mark::Code => "code",
        }
    }

    /// What the mark is written as.
    pub fn marker(&self) -> (r: &'static str)
        ensures
            r@ == marker_of(*self),
    {
        match self {
            Mark::Bold => "**",
            Mark::Italic => "_",
            Mark::Strike => "~~",
            Mark::Code => "`",
        }
    }
}

pub proof fn lemma_marker(mark: Mark)
    ensures
        1 <= marker_of(mark).len() <= 2,
{
    reveal_strlit("**");
    reveal_strlit("_");
    reveal_strlit("~~");
    reveal_strlit("`");
}

/// The pair of markers the selection `s..e` sits between, if it sits between one.
///
/// Scoped to the line, and decided by counting: a marker opened and not closed before the
/// selection, with none left open inside it, is what "inside a run" means. `None` for a
/// selection that runs past the end of its line.
pub open spec fn enclosing_of(t: Seq<char>, s: int, e: int, m: Seq<char>) -> Option<(int, int)> {
    let ls = line_start(t, s);
    let le = line_end(t, s);
    if e > le {
        None
    } else {
        let opened = count_from(t.subrange(ls, s), m, 0);
        let inside = count_from(t.subrange(s, e), m, 0);
        if opened % 2 == 0 || inside % 2 != 0 {
            None
        } else {
            match rfind(t.subrange(ls, s), m) {
                None => None,
                Some(o) => match find(t.subrange(e, le), m) {
                    None => None,
                    Some(c) => Some((ls + o, e + c)),
                },
            }
        }
    }
}

#[verifier::rlimit(40)]
fn enclosing(t: &[char], s: usize, e: usize, m: &[char]) -> (r: Option<(usize, usize)>)
    requires
        s <= e <= t@.len(),
        m@.len() > 0,
    ensures
        match r {
            Some((o, c)) => {
                &&& enclosing_of(t@, s as int, e as int, m@) == Some((o as int, c as int))
                &&& line_start(t@, s as int) <= o
                &&& o + m@.len() <= s
                &&& e <= c
                &&& c + m@.len() <= line_end(t@, s as int)
                &&& line_end(t@, s as int) <= t@.len()
            },
            None => enclosing_of(t@, s as int, e as int, m@) is None,
        },
{
    let (ls, le) = line_bounds(t, s);
    if e > le {
        return None;
    }
    let before = slice_of(t, ls, s);
    let inside = slice_of(t, s, e);
    let opened = count_exec(&before, m);
    let within = count_exec(&inside, m);
    if opened % 2 == 0 || within % 2 != 0 {
        return None;
    }
    let after = slice_of(t, e, le);
    proof {
        lemma_rfind_from(before@, m@, before@.len() - m@.len());
        lemma_find(after@, m@);
    }
    match rfind_exec(&before, m) {
        None => None,
        Some(o) => match find_exec(&after, m) {
            None => None,
            Some(c) => Some((ls + o, e + c)),
        },
    }
}

/// Whether `inner` is itself wrapped in `m`: it starts and ends with the marker, two of them.
pub open spec fn wrapped(inner: Seq<char>, m: Seq<char>) -> bool {
    inner.len() >= 2 * m.len() && starts_with(inner, m) && ends_with(inner, m)
}

fn wrapped_exec(inner: &[char], m: &[char]) -> (r: bool)
    requires
        m@.len() <= 2,
    ensures
        r == wrapped(inner@, m@),
{
    inner.len() >= 2 * m.len() && starts_with_exec(inner, m) && ends_with_exec(inner, m)
}

/// A selection is a pair of UTF-16 positions that land in order.
pub open spec fn in_order(t: Seq<char>, start: int, end: int) -> bool {
    char_index(t, start) <= char_index(t, end)
}

/// Whether the selection already wears `mark`: the reader selected the markers along with the
/// text, or the selection is anywhere inside a run wearing it.
pub open spec fn is_marked_of(t: Seq<char>, start: int, end: int, mark: Mark) -> bool {
    let s = char_index(t, start);
    let e = char_index(t, end);
    wrapped(t.subrange(s, e), marker_of(mark)) || enclosing_of(t, s, e, marker_of(mark)) is Some
}

pub fn is_marked(text: &str, start: usize, end: usize, mark: Mark) -> (r: bool)
    requires
        fits(text@),
        in_order(text@, start as int, end as int),
    ensures
        r == is_marked_of(text@, start as int, end as int, mark),
{
    let t = chars_of(text);
    let m = chars_of(mark.marker());
    proof {
        lemma_marker(mark);
    }
    let s = char_index_exec(&t, start);
    let e = char_index_exec(&t, end);
    let inner = slice_of(&t, s, e);
    wrapped_exec(&inner, &m) || enclosing(&t, s, e, &m).is_some()
}

/// Taking the markers off a selection that wears them at both ends.
pub open spec fn unwrap_of(t: Seq<char>, s: int, e: int, w: int) -> (Seq<char>, int, int) {
    let inner = t.subrange(s, e);
    let stripped = inner.subrange(w, inner.len() - w);
    let next = t.take(s) + stripped + t.skip(e);
    let at = offset16(next, s);
    (next, at, at + units(stripped))
}

/// Taking off the pair at `o` and `c` that a selection `s..e` sits between.
pub open spec fn unpair_of(t: Seq<char>, o: int, c: int, s: int, e: int, w: int) -> (
    Seq<char>,
    int,
    int,
) {
    let next = t.take(o) + t.subrange(o + w, c) + t.skip(c + w);
    (next, offset16(next, s - w), offset16(next, e - w))
}

/// Putting `m` round the selection `s..e`.
pub open spec fn wrap_of(t: Seq<char>, s: int, e: int, m: Seq<char>) -> (Seq<char>, int, int) {
    let inner = t.subrange(s, e);
    let next = t.take(s) + m + inner + m + t.skip(e);
    let at = offset16(next, s + m.len());
    (next, at, at + units(inner))
}

/// What toggling `mark` on the selection `start..end` makes of `t`: the new text, and where the
/// selection has moved to, in UTF-16 units.
///
/// A selection wrapped in the marker loses it; a selection inside a run loses the run's pair,
/// wherever on the line it stands; anything else is wrapped.
pub open spec fn toggle_of(t: Seq<char>, start: int, end: int, mark: Mark) -> (Seq<char>, int, int) {
    let m = marker_of(mark);
    let s = char_index(t, start);
    let e = char_index(t, end);
    if wrapped(t.subrange(s, e), m) {
        unwrap_of(t, s, e, m.len() as int)
    } else {
        match enclosing_of(t, s, e, m) {
            Some((o, c)) => unpair_of(t, o, c, s, e, m.len() as int),
            None => wrap_of(t, s, e, m),
        }
    }
}

#[verifier::rlimit(40)]
fn unwrap_exec(t: &Vec<char>, s: usize, e: usize, w: usize) -> (r: (Vec<char>, usize, usize))
    requires
        s <= e <= t@.len(),
        2 * w <= e - s,
        fits(t@),
    ensures
        (r.0@, r.1 as int, r.2 as int) == unwrap_of(t@, s as int, e as int, w as int),
{
    let ghost tv = t@;
    let inner = slice_of(t, s, e);
    let stripped = slice_of(&inner, w, inner.len() - w);
    let mut next = slice_of(t, 0, s);
    push_all(&mut next, &stripped);
    let tail = slice_of(t, e, t.len());
    push_all(&mut next, &tail);
    proof {
        let pre = tv.take(s as int);
        assert(tail@ =~= tv.skip(e as int));
        assert(next@ =~= pre + stripped@ + tv.skip(e as int));
        assert(stripped@ =~= tv.subrange(s + w, e - w));
        lemma_units_take(tv, s as int, e as int);
        lemma_units_take(tv, s as int, s + w);
        lemma_units_take(tv, s + w, e - w);
        lemma_units_take(tv, e - w, e as int);
        lemma_units_take(tv, e as int, tv.len() as int);
        lemma_units_append(pre, stripped@);
        lemma_units_append(pre + stripped@, tv.skip(e as int));
        lemma_units_append(tv.take(e as int), tv.skip(e as int));
        assert(tv.take(e as int) + tv.skip(e as int) =~= tv);
        assert(next@.take(s as int) =~= pre);
        assert((pre + stripped@).take(s as int) =~= pre);
    }
    let at = units_to(&next, s);
    let len = units_to(&stripped, stripped.len());
    assert(stripped@.take(stripped@.len() as int) =~= stripped@);
    (next, at, at + len)
}

#[verifier::rlimit(40)]
fn unpair_exec(t: &Vec<char>, o: usize, c: usize, s: usize, e: usize, w: usize) -> (r: (
    Vec<char>,
    usize,
    usize,
))
    requires
        o + w <= s <= e <= c,
        c + w <= t@.len(),
        fits(t@),
    ensures
        (r.0@, r.1 as int, r.2 as int) == unpair_of(t@, o as int, c as int, s as int, e as int, w as int),
{
    let ghost tv = t@;
    let n = t.len();
    let mut next = slice_of(t, 0, o);
    let middle = slice_of(t, o + w, c);
    push_all(&mut next, &middle);
    let tail = slice_of(t, c + w, t.len());
    push_all(&mut next, &tail);
    proof {
        assert(tail@ =~= tv.skip(c + w));
        assert(next@ =~= tv.take(o as int) + tv.subrange(o + w, c as int) + tv.skip(c + w));
        lemma_units_take(tv, o as int, c + w);
        lemma_units_take(tv, o as int, o + w);
        lemma_units_take(tv, o + w, c as int);
        lemma_units_take(tv, c as int, c + w);
        lemma_units_take(tv, c + w, tv.len() as int);
        lemma_units_append(tv.take(o as int), tv.subrange(o + w, c as int));
        lemma_units_append(tv.take(o as int) + tv.subrange(o + w, c as int), tv.skip(c + w));
        lemma_units_append(tv.take(c + w), tv.skip(c + w));
        assert(tv.take(c + w) + tv.skip(c + w) =~= tv);
        lemma_units_take(next@, (s - w) as int, next@.len() as int);
        lemma_units_take(next@, (e - w) as int, next@.len() as int);
    }
    let a = units_to(&next, s - w);
    let b = units_to(&next, e - w);
    (next, a, b)
}

#[verifier::rlimit(40)]
fn wrap_exec(t: &Vec<char>, s: usize, e: usize, m: &Vec<char>) -> (r: (Vec<char>, usize, usize))
    requires
        s <= e <= t@.len(),
        m@.len() <= 2,
        units(m@) == m@.len(),
        fits(t@),
    ensures
        (r.0@, r.1 as int, r.2 as int) == wrap_of(t@, s as int, e as int, m@),
{
    let ghost tv = t@;
    let inner = slice_of(t, s, e);
    let mut next = slice_of(t, 0, s);
    push_all(&mut next, m);
    push_all(&mut next, &inner);
    push_all(&mut next, m);
    let tail = slice_of(t, e, t.len());
    push_all(&mut next, &tail);
    proof {
        let pre = tv.take(s as int);
        assert(tail@ =~= tv.skip(e as int));
        assert(next@ =~= pre + m@ + inner@ + m@ + tv.skip(e as int));
        lemma_units_append(pre, m@);
        lemma_units_append(pre + m@, inner@);
        lemma_units_append(pre + m@ + inner@, m@);
        lemma_units_append(pre + m@ + inner@ + m@, tv.skip(e as int));
        lemma_units_take(tv, s as int, e as int);
        lemma_units_take(tv, e as int, tv.len() as int);
        lemma_units_append(tv.take(e as int), tv.skip(e as int));
        assert(tv.take(e as int) + tv.skip(e as int) =~= tv);
        assert(next@.take(s + m@.len()) =~= pre + m@);
    }
    let nl = next.len();
    let at = units_to(&next, s + m.len());
    let len = units_to(&inner, inner.len());
    assert(inner@.take(inner@.len() as int) =~= inner@);
    (next, at, at + len)
}

#[verifier::rlimit(40)]
pub fn toggle_wrap(text: &str, start: usize, end: usize, mark: Mark) -> (r: (String, usize, usize))
    requires
        fits(text@),
        in_order(text@, start as int, end as int),
    ensures
        (r.0@, r.1 as int, r.2 as int) == toggle_of(text@, start as int, end as int, mark),
{
    let t = chars_of(text);
    let m = chars_of(mark.marker());
    proof {
        lemma_marker(mark);
        lemma_units_marker(mark);
        lemma_index_from(t@, start as int, 0);
        lemma_index_from(t@, end as int, 0);
    }
    let s = char_index_exec(&t, start);
    let e = char_index_exec(&t, end);
    let inner = slice_of(&t, s, e);
    let (next, a, b) = if wrapped_exec(&inner, &m) {
        unwrap_exec(&t, s, e, m.len())
    } else {
        match enclosing(&t, s, e, &m) {
            Some((o, c)) => unpair_exec(&t, o, c, s, e, m.len()),
            None => wrap_exec(&t, s, e, &m),
        }
    };
    (string_of(&next), a, b)
}

/// The marks the toolbar shows pressed for the selection: each it wears, in the toolbar's order.
/// Nothing remembers what is pressed; it is read back out of the text every time.
pub open spec fn pressed_of(t: Seq<char>, start: int, end: int) -> Seq<Mark> {
    seq![Mark::Bold, Mark::Italic, Mark::Strike, Mark::Code].filter(
        |m: Mark| is_marked_of(t, start, end, m),
    )
}

pub fn marks_pressed(text: &str, start: usize, end: usize) -> (r: Vec<Mark>)
    requires
        fits(text@),
        in_order(text@, start as int, end as int),
    ensures
        r@ == pressed_of(text@, start as int, end as int),
{
    let all = Mark::all();
    let ghost marks = all@;
    let mut out: Vec<Mark> = Vec::new();
    let mut k: usize = 0;
    while k < all.len()
        invariant
            k <= all@.len(),
            all@ == marks,
            marks == seq![Mark::Bold, Mark::Italic, Mark::Strike, Mark::Code],
            fits(text@),
            in_order(text@, start as int, end as int),
            out@ == marks.take(k as int).filter(|m: Mark| is_marked_of(text@, start as int, end as int, m)),
        decreases all.len() - k,
    {
        assert(marks.take(k + 1).drop_last() =~= marks.take(k as int));
        reveal_with_fuel(Seq::filter, 1);
        if is_marked(text, start, end, all[k]) {
            out.push(all[k]);
        }
        k += 1;
    }
    assert(marks.take(4) =~= marks);
    out
}

/// How many words the text has, as the editor's counter shows: the runs between white space.
pub fn word_count(text: &str) -> (r: usize)
    ensures
        r == crate::text::words(text@).len(),
{
    let t = chars_of(text);
    crate::text::words_exec(&t).len()
}

// ---------------------------------------------------------------------------------------------
// Line styles
// ---------------------------------------------------------------------------------------------

/// A block style, which is a prefix on a line and nothing more.
#[derive(Debug, Clone, Copy, PartialEq, Eq, Structural)]
pub enum LineStyle {
    H1,
    H2,
    Quote,
    Bullet,
    Number,
}

/// What the toolbar calls a style.
pub open spec fn style_slug(style: LineStyle) -> Seq<char> {
    match style {
        LineStyle::H1 => "h1"@,
        LineStyle::H2 => "h2"@,
        LineStyle::Quote => "quote"@,
        LineStyle::Bullet => "bullet"@,
        LineStyle::Number => "number"@,
    }
}

/// The prefix the toolbar writes for the style called `slug`; nothing for a name that is none.
pub open spec fn prefix_for(slug: Seq<char>) -> Seq<char> {
    if slug == "h1"@ {
        "# "@
    } else if slug == "h2"@ {
        "## "@
    } else if slug == "quote"@ {
        "> "@
    } else if slug == "bullet"@ {
        "- "@
    } else if slug == "number"@ {
        "1. "@
    } else {
        seq![]
    }
}

impl LineStyle {
    /// Every style, in the order the toolbar shows them.
    pub fn all() -> (r: Vec<LineStyle>)
        ensures
            r@ == seq![
                LineStyle::H1,
                LineStyle::H2,
                LineStyle::Quote,
                LineStyle::Bullet,
                LineStyle::Number,
            ],
    {
        let r = vec![LineStyle::H1, LineStyle::H2, LineStyle::Quote, LineStyle::Bullet, LineStyle::Number];
        assert(r@ =~= seq![
            LineStyle::H1,
            LineStyle::H2,
            LineStyle::Quote,
            LineStyle::Bullet,
            LineStyle::Number,
        ]);
        r
    }

    pub fn slug(&self) -> (r: &'static str)
        ensures
            r@ == style_slug(*self),
    {
        match self {
            LineStyle::H1 => "h1",
            LineStyle::H2 => "h2",
            LineStyle::Quote => "quote",
            LineStyle::Bullet => "bullet",
            LineStyle::Number => "number",
        }
    }

    /// What the toolbar calls the style in its tooltip.
    pub fn label(&self) -> (r: &'static str)
        ensures
            r@ == match *self {
                LineStyle::H1 => "Heading"@,
                LineStyle::H2 => "Subheading"@,
                LineStyle::Quote => "Quote"@,
                LineStyle::Bullet => "Bulleted list"@,
                LineStyle::Number => "Numbered list"@,
            },
    {
        match self {
            LineStyle::H1 => "Heading",
            LineStyle::H2 => "Subheading",
            LineStyle::Quote => "Quote",
            LineStyle::Bullet => "Bulleted list",
            LineStyle::Number => "Numbered list",
        }
    }
}

/// Where the run of ASCII digits that starts at `i` ends.
pub open spec fn digits_end(line: Seq<char>, i: int) -> int
    decreases line.len() - i,
{
    if 0 <= i < line.len() && '0' <= line[i] && line[i] <= '9' {
        digits_end(line, i + 1)
    } else {
        i
    }
}

proof fn lemma_digits_end(line: Seq<char>, i: int)
    requires
        0 <= i <= line.len(),
    ensures
        i <= digits_end(line, i) <= line.len(),
    decreases line.len() - i,
{
    if i < line.len() && '0' <= line[i] && line[i] <= '9' {
        lemma_digits_end(line, i + 1);
    }
}

/// A line with its prefix taken off, and which style that prefix was. `## ` is tried before
/// `# `, or every subheading would read as a heading with a stray hash on the front; a numbered
/// item is any run of digits followed by `. `.
pub open spec fn classify_of(line: Seq<char>) -> (Seq<char>, Option<LineStyle>) {
    if starts_with(line, "## "@) {
        (line.skip(3), Some(LineStyle::H2))
    } else if starts_with(line, "# "@) {
        (line.skip(2), Some(LineStyle::H1))
    } else if starts_with(line, "> "@) {
        (line.skip(2), Some(LineStyle::Quote))
    } else if starts_with(line, "- "@) {
        (line.skip(2), Some(LineStyle::Bullet))
    } else {
        let d = digits_end(line, 0);
        if d > 0 && starts_with(line.skip(d), ". "@) {
            (line.skip(d + 2), Some(LineStyle::Number))
        } else {
            (line, None)
        }
    }
}

/// Where the text of `line` starts once its prefix is off, and its style.
fn classify_exec(line: &[char]) -> (r: (usize, Option<LineStyle>))
    ensures
        r.0 <= line@.len(),
        (line@.skip(r.0 as int), r.1) == classify_of(line@),
{
    proof {
        reveal_strlit("## ");
        reveal_strlit("# ");
        reveal_strlit("> ");
        reveal_strlit("- ");
        reveal_strlit(". ");
        lemma_digits_end(line@, 0);
    }
    if starts_with_exec(line, &chars_of("## ")) {
        return (3, Some(LineStyle::H2));
    }
    if starts_with_exec(line, &chars_of("# ")) {
        return (2, Some(LineStyle::H1));
    }
    if starts_with_exec(line, &chars_of("> ")) {
        return (2, Some(LineStyle::Quote));
    }
    if starts_with_exec(line, &chars_of("- ")) {
        return (2, Some(LineStyle::Bullet));
    }
    let mut d: usize = 0;
    while d < line.len() && '0' <= line[d] && line[d] <= '9'
        invariant
            d <= line@.len(),
            digits_end(line@, d as int) == digits_end(line@, 0),
        decreases line.len() - d,
    {
        d += 1;
    }
    if d > 0 {
        let after = slice_of(line, d, line.len());
        assert(after@ =~= line@.skip(d as int));
        if starts_with_exec(&after, &chars_of(". ")) {
            assert(line@.skip(d + 2) =~= line@.skip(d as int).skip(2));
            return (d + 2, Some(LineStyle::Number));
        }
    }
    assert(line@.skip(0) =~= line@);
    (0, None)
}

/// The style of the line the caret is on.
pub open spec fn style_at_of(t: Seq<char>, at: int) -> Option<LineStyle> {
    let a = char_index(t, at);
    classify_of(t.subrange(line_start(t, a), line_end(t, a))).1
}

pub fn style_at(text: &str, at: usize) -> (r: Option<LineStyle>)
    requires
        fits(text@),
    ensures
        r == style_at_of(text@, at as int),
{
    let t = chars_of(text);
    let a = char_index_exec(&t, at);
    let (ls, le) = line_bounds(&t, a);
    let line = slice_of(&t, ls, le);
    classify_exec(&line).1
}

/// Setting the style called `slug` on the line the caret is on, or clearing it when the line
/// wears it already: the new text, and the caret, which keeps its place in the words rather than
/// in the line.
pub open spec fn set_style_of(t: Seq<char>, at: int, slug: Seq<char>) -> (Seq<char>, int, int) {
    let a = char_index(t, at);
    let ls = line_start(t, a);
    let le = line_end(t, a);
    let line = t.subrange(ls, le);
    let (rest, current) = classify_of(line);
    let prefix = if current matches Some(st) && style_slug(st) == slug {
        seq![]
    } else {
        prefix_for(slug)
    };
    let removed = line.len() - rest.len();
    let next = t.take(ls) + prefix + rest + t.skip(le);
    let within = if a - ls >= removed {
        a - ls - removed
    } else {
        0
    };
    let caret = offset16(next, ls + prefix.len() + within);
    (next, caret, caret)
}

fn prefix_exec(slug: &[char]) -> (r: Vec<char>)
    ensures
        r@ == prefix_for(slug@),
{
    if crate::text::same(slug, &chars_of("h1")) {
        chars_of("# ")
    } else if crate::text::same(slug, &chars_of("h2")) {
        chars_of("## ")
    } else if crate::text::same(slug, &chars_of("quote")) {
        chars_of("> ")
    } else if crate::text::same(slug, &chars_of("bullet")) {
        chars_of("- ")
    } else if crate::text::same(slug, &chars_of("number")) {
        chars_of("1. ")
    } else {
        Vec::new()
    }
}

proof fn lemma_prefix_len(slug: Seq<char>)
    ensures
        prefix_for(slug).len() <= 3,
        units(prefix_for(slug)) == prefix_for(slug).len(),
{
    reveal_strlit("# ");
    reveal_strlit("## ");
    reveal_strlit("> ");
    reveal_strlit("- ");
    reveal_strlit("1. ");
    lemma_units_bmp(prefix_for(slug));
}

#[verifier::rlimit(40)]
pub fn set_style(text: &str, at: usize, slug: &str) -> (r: (String, usize, usize))
    requires
        fits(text@),
    ensures
        (r.0@, r.1 as int, r.2 as int) == set_style_of(text@, at as int, slug@),
{
    let t = chars_of(text);
    let sl = chars_of(slug);
    let ghost tv = t@;
    let a = char_index_exec(&t, at);
    let (ls, le) = line_bounds(&t, a);
    let line = slice_of(&t, ls, le);
    let (k, current) = classify_exec(&line);
    let same_style = match current {
        Some(st) => crate::text::same(&chars_of(st.slug()), &sl),
        None => false,
    };
    let prefix = if same_style {
        Vec::new()
    } else {
        prefix_exec(&sl)
    };
    proof {
        lemma_prefix_len(slug@);
        if same_style {
            assert(prefix@ =~= Seq::<char>::empty());
        }
    }
    let rest = slice_of(&line, k, line.len());
    let mut next = slice_of(&t, 0, ls);
    push_all(&mut next, &prefix);
    push_all(&mut next, &rest);
    let tail = slice_of(&t, le, t.len());
    push_all(&mut next, &tail);
    let removed = k;
    let within = if a - ls >= removed {
        a - ls - removed
    } else {
        0
    };
    proof {
        assert(rest@ =~= line@.skip(k as int));
        assert(tail@ =~= tv.skip(le as int));
        let pre = tv.take(ls as int);
        assert(next@ =~= pre + prefix@ + rest@ + tv.skip(le as int));
        assert(rest@ =~= tv.subrange(ls + k, le as int));
        lemma_units_append(pre, prefix@);
        lemma_units_append(pre + prefix@, rest@);
        lemma_units_append(pre + prefix@ + rest@, tv.skip(le as int));
        lemma_units_take(tv, ls as int, ls + k);
        lemma_units_take(tv, ls + k, le as int);
        lemma_units_take(tv, le as int, tv.len() as int);
        lemma_units_append(tv.take(le as int), tv.skip(le as int));
        assert(tv.take(le as int) + tv.skip(le as int) =~= tv);
        lemma_units_take(next@, ls + prefix@.len() + within, next@.len() as int);
    }
    let n = next.len();
    let caret = units_to(&next, ls + prefix.len() + within);
    (string_of(&next), caret, caret)
}

// ---------------------------------------------------------------------------------------------
// The preview
// ---------------------------------------------------------------------------------------------

/// The inline marks a run of text wears.
#[derive(Debug, Clone, Copy, PartialEq, Eq, Structural)]
pub struct Runs {
    pub bold: bool,
    pub italic: bool,
    pub strike: bool,
    pub code: bool,
}

pub open spec fn plain() -> Runs {
    Runs { bold: false, italic: false, strike: false, code: false }
}

/// The classes a run wearing `r` is drawn with.
pub open spec fn class_of(r: Runs) -> Seq<char> {
    (if r.bold {
        "font-semibold "@
    } else {
        seq![]
    }) + (if r.italic {
        "italic "@
    } else {
        seq![]
    }) + (if r.strike {
        "line-through "@
    } else {
        seq![]
    }) + (if r.code {
        "rounded bg-muted px-1 py-0.5 font-mono text-[0.85em] "@
    } else {
        seq![]
    })
}

impl Default for Runs {
    fn default() -> (r: Runs)
        ensures
            r == plain(),
    {
        Runs { bold: false, italic: false, strike: false, code: false }
    }
}

impl Runs {
    pub fn class(self) -> (r: String)
        ensures
            r@ == class_of(self),
    {
        let mut out: Vec<char> = Vec::new();
        if self.bold {
            push_all(&mut out, &chars_of("font-semibold "));
        }
        if self.italic {
            push_all(&mut out, &chars_of("italic "));
        }
        if self.strike {
            push_all(&mut out, &chars_of("line-through "));
        }
        if self.code {
            push_all(&mut out, &chars_of("rounded bg-muted px-1 py-0.5 font-mono text-[0.85em] "));
        }
        assert(out@ =~= class_of(self));
        string_of(&out)
    }
}

/// The run being read, if there is any text in it.
pub open spec fn flush_of(buffer: Seq<char>, marks: Runs) -> Seq<(Runs, Seq<char>)> {
    if buffer.len() > 0 {
        seq![(marks, buffer)]
    } else {
        seq![]
    }
}

/// The runs of `cs` from position `i`, with `marks` in force and `buffer` read so far. A
/// backtick opens or closes a code span, inside which nothing else counts; `**` and `~~` toggle
/// bold and strike-through, and `_` italic.
pub open spec fn runs_from(cs: Seq<char>, i: int, marks: Runs, buffer: Seq<char>) -> Seq<
    (Runs, Seq<char>),
>
    decreases cs.len() - i,
{
    if i < 0 || i >= cs.len() {
        flush_of(buffer, marks)
    } else {
        let c = cs[i];
        let pair = c == (if i + 1 < cs.len() {
            cs[i + 1]
        } else {
            '\0'
        });
        if c == '`' {
            flush_of(buffer, marks) + runs_from(
                cs,
                i + 1,
                Runs { bold: marks.bold, italic: marks.italic, strike: marks.strike, code: !marks.code },
                seq![],
            )
        } else if !marks.code && c == '*' && pair {
            flush_of(buffer, marks) + runs_from(
                cs,
                i + 2,
                Runs { bold: !marks.bold, italic: marks.italic, strike: marks.strike, code: marks.code },
                seq![],
            )
        } else if !marks.code && c == '~' && pair {
            flush_of(buffer, marks) + runs_from(
                cs,
                i + 2,
                Runs { bold: marks.bold, italic: marks.italic, strike: !marks.strike, code: marks.code },
                seq![],
            )
        } else if !marks.code && c == '_' {
            flush_of(buffer, marks) + runs_from(
                cs,
                i + 1,
                Runs { bold: marks.bold, italic: !marks.italic, strike: marks.strike, code: marks.code },
                seq![],
            )
        } else {
            runs_from(cs, i + 1, marks, buffer.push(c))
        }
    }
}

/// The views of a run of `(Runs, String)` pairs.
pub open spec fn runs_view(v: Seq<(Runs, String)>) -> Seq<(Runs, Seq<char>)> {
    Seq::new(v.len(), |i: int| (v[i].0, v[i].1@))
}

fn flush(out: &mut Vec<(Runs, String)>, buffer: &mut Vec<char>, marks: Runs)
    ensures
        runs_view(final(out)@) == runs_view(old(out)@) + flush_of(old(buffer)@, marks),
        final(buffer)@ == Seq::<char>::empty(),
{
    if buffer.len() > 0 {
        let ghost before = out@;
        out.push((marks, string_of(buffer)));
        assert(runs_view(out@) =~= runs_view(before) + flush_of(old(buffer)@, marks));
        *buffer = Vec::new();
    } else {
        assert(runs_view(out@) =~= runs_view(old(out)@) + flush_of(old(buffer)@, marks));
    }
    assert(buffer@ =~= Seq::<char>::empty());
}

/// Splits a line into runs of text that wear the same marks.
#[verifier::rlimit(40)]
pub fn runs(line: &str) -> (r: Vec<(Runs, String)>)
    ensures
        runs_view(r@) == runs_from(line@, 0, plain(), seq![]),
{
    let cs = chars_of(line);
    let mut out: Vec<(Runs, String)> = Vec::new();
    let mut buffer: Vec<char> = Vec::new();
    let mut marks = Runs { bold: false, italic: false, strike: false, code: false };
    let mut at: usize = 0;
    assert(runs_view(out@) =~= Seq::<(Runs, Seq<char>)>::empty());
    while at < cs.len()
        invariant
            at <= cs@.len(),
            cs@ == line@,
            runs_view(out@) + runs_from(cs@, at as int, marks, buffer@) == runs_from(
                cs@,
                0,
                plain(),
                seq![],
            ),
        decreases cs.len() - at,
    {
        let c = cs[at];
        let next = if at + 1 < cs.len() {
            cs[at + 1]
        } else {
            '\0'
        };
        let pair = c == next;
        let ghost before = runs_view(out@);
        let ghost buf = buffer@;
        let ghost m0 = marks;
        let ghost at0 = at;
        if c == '`' {
            flush(&mut out, &mut buffer, marks);
            marks = Runs { bold: marks.bold, italic: marks.italic, strike: marks.strike, code: !marks.code };
            at += 1;
        } else if !marks.code && c == '*' && pair {
            flush(&mut out, &mut buffer, marks);
            marks = Runs { bold: !marks.bold, italic: marks.italic, strike: marks.strike, code: marks.code };
            at += 2;
        } else if !marks.code && c == '~' && pair {
            flush(&mut out, &mut buffer, marks);
            marks = Runs { bold: marks.bold, italic: marks.italic, strike: !marks.strike, code: marks.code };
            at += 2;
        } else if !marks.code && c == '_' {
            flush(&mut out, &mut buffer, marks);
            marks = Runs { bold: marks.bold, italic: !marks.italic, strike: marks.strike, code: marks.code };
            at += 1;
        } else {
            buffer.push(c);
            at += 1;
        }
        proof {
            assert(runs_view(out@) + runs_from(cs@, at as int, marks, buffer@) =~= before
                + runs_from(cs@, at0 as int, m0, buf));
        }
    }
    let ghost before = runs_view(out@);
    flush(&mut out, &mut buffer, marks);
    out
}

/// What a block of the preview is.
#[derive(Debug, Clone, Copy, PartialEq, Eq, Structural)]
pub enum ChunkKind {
    /// A heading, of the style it was written in.
    Heading(LineStyle),
    Quote,
    /// A list, numbered or not.
    List { ordered: bool },
    /// A paragraph; its lines are read as one.
    Para,
}

/// One block of the preview: what it is, and its lines (one for a heading or a quote, one per
/// item for a list).
pub struct Chunk {
    pub kind: ChunkKind,
    pub lines: Vec<String>,
}

pub open spec fn chunk_view(c: Chunk) -> (ChunkKind, Seq<Seq<char>>) {
    (c.kind, crate::text::views_of_strings(c.lines@))
}

pub open spec fn chunks_view(v: Seq<Chunk>) -> Seq<(ChunkKind, Seq<Seq<char>>)> {
    Seq::new(v.len(), |i: int| chunk_view(v[i]))
}

/// The blocks read so far, with `line` read next. A list item joins the list before it when it
/// is of the same kind; a plain line joins the paragraph before it unless that is empty; a blank
/// line starts an empty paragraph, which is what ends the one before.
pub open spec fn chunk_step(out: Seq<(ChunkKind, Seq<Seq<char>>)>, line: Seq<char>) -> Seq<
    (ChunkKind, Seq<Seq<char>>),
> {
    let (rest, style) = classify_of(line);
    match style {
        Some(LineStyle::H1) => out.push((ChunkKind::Heading(LineStyle::H1), seq![rest])),
        Some(LineStyle::H2) => out.push((ChunkKind::Heading(LineStyle::H2), seq![rest])),
        Some(LineStyle::Quote) => out.push((ChunkKind::Quote, seq![rest])),
        Some(st) => {
            let ordered = st == LineStyle::Number;
            if out.len() > 0 && out.last().0 == (ChunkKind::List { ordered }) {
                out.update(out.len() - 1, (out.last().0, out.last().1.push(rest)))
            } else {
                out.push((ChunkKind::List { ordered }, seq![rest]))
            }
        },
        None => if crate::text::trim(rest).len() == 0 {
            out.push((ChunkKind::Para, seq![]))
        } else if out.len() > 0 && out.last().0 == ChunkKind::Para && out.last().1.len() > 0 {
            out.update(out.len() - 1, (out.last().0, out.last().1.push(rest)))
        } else {
            out.push((ChunkKind::Para, seq![rest]))
        },
    }
}

/// The blocks of `lines`, read in order.
pub open spec fn chunks_state(lines: Seq<Seq<char>>) -> Seq<(ChunkKind, Seq<Seq<char>>)>
    decreases lines.len(),
{
    if lines.len() == 0 {
        seq![]
    } else {
        chunk_step(chunks_state(lines.drop_last()), lines.last())
    }
}

/// `blocks` without the empty paragraphs, which only served to end the one before.
pub open spec fn without_empty(blocks: Seq<(ChunkKind, Seq<Seq<char>>)>) -> Seq<
    (ChunkKind, Seq<Seq<char>>),
>
    decreases blocks.len(),
{
    if blocks.len() == 0 {
        seq![]
    } else {
        let before = without_empty(blocks.drop_last());
        if blocks.last().0 == ChunkKind::Para && blocks.last().1.len() == 0 {
            before
        } else {
            before.push(blocks.last())
        }
    }
}

/// The blocks of the preview of `text`.
pub open spec fn chunks_of(text: Seq<char>) -> Seq<(ChunkKind, Seq<Seq<char>>)> {
    without_empty(chunks_state(crate::text::lines(text)))
}

#[verifier::rlimit(40)]
fn chunk_step_exec(out: &mut Vec<Chunk>, line: &Vec<char>)
    ensures
        chunks_view(final(out)@) == chunk_step(chunks_view(old(out)@), line@),
{
    let ghost before = chunks_view(out@);
    let (k, style) = classify_exec(line);
    let rest = slice_of(line, k, line.len());
    assert(rest@ =~= line@.skip(k as int));
    let rest_s = string_of(&rest);
    let mut one: Vec<String> = Vec::new();
    one.push(rest_s);
    assert(crate::text::views_of_strings(one@) =~= seq![rest@]);
    match style {
        Some(LineStyle::H1) => {
            out.push(Chunk { kind: ChunkKind::Heading(LineStyle::H1), lines: one });
            assert(chunks_view(out@) =~= before.push((ChunkKind::Heading(LineStyle::H1), seq![rest@])));
        },
        Some(LineStyle::H2) => {
            out.push(Chunk { kind: ChunkKind::Heading(LineStyle::H2), lines: one });
            assert(chunks_view(out@) =~= before.push((ChunkKind::Heading(LineStyle::H2), seq![rest@])));
        },
        Some(LineStyle::Quote) => {
            out.push(Chunk { kind: ChunkKind::Quote, lines: one });
            assert(chunks_view(out@) =~= before.push((ChunkKind::Quote, seq![rest@])));
        },
        Some(st) => {
            let ordered = st == LineStyle::Number;
            let joins = out.len() > 0 && out[out.len() - 1].kind == (ChunkKind::List { ordered });
            if joins {
                let mut last = out.pop().unwrap();
                let ghost items = last.lines@;
                last.lines.push(string_of(&rest));
                assert(crate::text::views_of_strings(last.lines@) =~= crate::text::views_of_strings(items).push(rest@));
                out.push(last);
                assert(chunks_view(out@) =~= before.update(before.len() - 1, (before.last().0, before.last().1.push(rest@))));
            } else {
                out.push(Chunk { kind: ChunkKind::List { ordered }, lines: one });
                assert(chunks_view(out@) =~= before.push((ChunkKind::List { ordered }, seq![rest@])));
            }
        },
        None => {
            let blank = crate::text::trim_exec(&rest).len() == 0;
            if blank {
                let none: Vec<String> = Vec::new();
                assert(crate::text::views_of_strings(none@) =~= Seq::<Seq<char>>::empty());
                out.push(Chunk { kind: ChunkKind::Para, lines: none });
                assert(chunks_view(out@) =~= before.push((ChunkKind::Para, seq![])));
            } else {
                let joins = out.len() > 0 && out[out.len() - 1].kind == ChunkKind::Para
                    && out[out.len() - 1].lines.len() > 0;
                if joins {
                    let mut last = out.pop().unwrap();
                    let ghost items = last.lines@;
                    last.lines.push(string_of(&rest));
                    assert(crate::text::views_of_strings(last.lines@) =~= crate::text::views_of_strings(items).push(rest@));
                    out.push(last);
                    assert(chunks_view(out@) =~= before.update(before.len() - 1, (before.last().0, before.last().1.push(rest@))));
                } else {
                    out.push(Chunk { kind: ChunkKind::Para, lines: one });
                    assert(chunks_view(out@) =~= before.push((ChunkKind::Para, seq![rest@])));
                }
            }
        },
    }
}

/// The blocks the preview renders of `text`.
#[verifier::rlimit(40)]
pub fn chunks(text: &str) -> (r: Vec<Chunk>)
    ensures
        chunks_view(r@) == chunks_of(text@),
{
    let t = chars_of(text);
    let all = crate::text::lines_exec(&t);
    let mut out: Vec<Chunk> = Vec::new();
    let mut k: usize = 0;
    assert(chunks_view(out@) =~= Seq::<(ChunkKind, Seq<Seq<char>>)>::empty());
    while k < all.len()
        invariant
            k <= all@.len(),
            chunks_view(out@) == chunks_state(crate::text::views(all@).take(k as int)),
        decreases all.len() - k,
    {
        assert(crate::text::views(all@).take(k + 1).drop_last() =~= crate::text::views(all@).take(k as int));
        assert(crate::text::views(all@).take(k + 1).last() == all@[k as int]@);
        chunk_step_exec(&mut out, &all[k]);
        k += 1;
    }
    assert(crate::text::views(all@).take(all@.len() as int) =~= crate::text::views(all@));
    let ghost every = chunks_view(out@);
    let mut kept: Vec<Chunk> = Vec::new();
    let mut rest = out;
    let total = rest.len();
    let mut i: usize = 0;
    assert(chunks_view(kept@) =~= Seq::<(ChunkKind, Seq<Seq<char>>)>::empty());
    assert(every.skip(0) =~= every);
    // The blocks move over one at a time, in order, the empty paragraphs left out.
    while rest.len() > 0
        invariant
            i <= every.len(),
            every.len() == total,
            chunks_view(rest@) == every.skip(i as int),
            chunks_view(kept@) == without_empty(every.take(i as int)),
        decreases rest.len(),
    {
        let ghost r0 = rest@;
        assert(chunks_view(r0).len() == r0.len());
        assert(i < every.len());
        let c = rest.remove(0);
        assert(chunks_view(r0)[0] == every[i as int]);
        assert(chunk_view(c) == every[i as int]);
        assert forall|j: int| 0 <= j < rest@.len() implies chunks_view(rest@)[j] == every.skip(i + 1)[j] by {
            assert(rest@[j] == r0[j + 1]);
            assert(chunks_view(r0)[j + 1] == every.skip(i as int)[j + 1]);
        }
        assert(chunks_view(rest@) =~= every.skip(i + 1));
        assert(every.take(i + 1).drop_last() =~= every.take(i as int));
        assert(every.take(i + 1).last() == every[i as int]);
        let empty_para = c.kind == ChunkKind::Para && c.lines.len() == 0;
        if !empty_para {
            let ghost before = chunks_view(kept@);
            kept.push(c);
            assert(chunks_view(kept@) =~= before.push(every[i as int]));
        }
        i += 1;
    }
    assert(every.take(every.len() as int) =~= every);
    kept
}

proof fn lemma_units_bmp(s: Seq<char>)
    requires
        forall|i: int| 0 <= i < s.len() ==> (#[trigger] s[i] as u32) < 0x10000,
    ensures
        units(s) == s.len(),
    decreases s.len(),
{
    if s.len() > 0 {
        lemma_units_bmp(s.drop_last());
    }
}

proof fn lemma_units_marker(mark: Mark)
    ensures
        units(marker_of(mark)) == marker_of(mark).len(),
{
    reveal_strlit("**");
    reveal_strlit("_");
    reveal_strlit("~~");
    reveal_strlit("`");
    lemma_units_bmp(marker_of(mark));
}


// ---------------------------------------------------------------------------------------------
// Pressing a toggle twice
// ---------------------------------------------------------------------------------------------

proof fn lemma_units_at_least_len(y: Seq<char>)
    ensures
        units(y) >= y.len(),
    decreases y.len(),
{
    if y.len() > 0 {
        lemma_units_at_least_len(y.drop_last());
    }
}

proof fn lemma_units_strict(x: Seq<char>, i: int, j: int)
    requires
        0 <= i < j <= x.len(),
    ensures
        units(x.take(i)) < units(x.take(j)),
{
    lemma_units_take(x, i, j);
    lemma_units_at_least_len(x.subrange(i, j));
}

proof fn lemma_index_from_at(x: Seq<char>, k: int, i: int)
    requires
        0 <= i <= k <= x.len(),
    ensures
        index_from(x, units(x.take(k)) as int, i) == k,
    decreases k - i,
{
    if i < k {
        lemma_units_strict(x, i, k);
        lemma_index_from_at(x, k, i + 1);
    }
}

/// The UTF-16 position of a `char` position lands back on it.
pub proof fn lemma_char_index_of_offset(x: Seq<char>, k: int)
    requires
        0 <= k <= x.len(),
    ensures
        char_index(x, offset16(x, k)) == k,
{
    lemma_index_from_at(x, k, 0);
}

proof fn lemma_index_past_end(x: Seq<char>, u: int, i: int)
    requires
        0 <= i <= x.len(),
        u >= units(x),
    ensures
        index_from(x, u, i) == x.len(),
    decreases x.len() - i,
{
    if i < x.len() {
        lemma_units_strict(x, i, x.len() as int);
        assert(x.take(x.len() as int) =~= x);
        lemma_index_past_end(x, u, i + 1);
    }
}

/// UTF-16 positions and `char` positions go back and forth: the UTF-16 position of a `char`
/// position leads back to it, a UTF-16 position on a `char` boundary comes back unchanged, and a
/// UTF-16 position at or past the end lands on the end.
pub proof fn law_utf16_round_trip(x: Seq<char>, k: int, u: int)
    ensures
        0 <= k <= x.len() ==> char_index(x, offset16(x, k)) == k,
        0 <= k <= x.len() ==> offset16(x, char_index(x, offset16(x, k))) == offset16(x, k),
        u >= units(x) ==> char_index(x, u) == x.len(),
{
    if 0 <= k <= x.len() {
        lemma_char_index_of_offset(x, k);
    }
    if u >= units(x) {
        lemma_index_past_end(x, u, 0);
    }
}

proof fn lemma_line_start_at(x: Seq<char>, l: int, at: int)
    requires
        0 <= l <= at <= x.len(),
        l == 0 || x[l - 1] == '\n',
        forall|k: int| l <= k < at ==> x[k] != '\n',
    ensures
        line_start(x, at) == l,
    decreases at - l,
{
    if at > l {
        lemma_line_start_at(x, l, at - 1);
    }
}

proof fn lemma_index_of_from_at(x: Seq<char>, c: char, i: int, j: int)
    requires
        0 <= i <= j <= x.len(),
        j == x.len() || x[j] == c,
        forall|k: int| i <= k < j ==> x[k] != c,
    ensures
        index_of_from(x, c, i) == j,
    decreases j - i,
{
    if i < j {
        lemma_index_of_from_at(x, c, i + 1, j);
    }
}

/// No occurrence of `m` starts in `x` where `x` never holds the first character of `m`.
proof fn lemma_absent(x: Seq<char>, m: Seq<char>, i: int)
    requires
        m.len() > 0,
        0 <= i,
        forall|k: int| 0 <= k < x.len() ==> x[k] != m[0],
    ensures
        find_from(x, m, i) is None,
        count_from(x, m, i) == 0,
{
    lemma_find_from(x, m, i);
    if let Some(j) = find_from(x, m, i) {
        assert(x.subrange(j, j + m.len())[0] == m[0]);
    }
}

/// `x + m`, where `x` never holds the first character of `m`, holds `m` once, at its end.
#[verifier::rlimit(40)]
proof fn lemma_once_at_end(x: Seq<char>, m: Seq<char>)
    requires
        m.len() > 0,
        forall|k: int| 0 <= k < x.len() ==> x[k] != m[0],
    ensures
        count_from(x + m, m, 0) == 1,
        rfind(x + m, m) == Some(x.len() as int),
{
    let y = x + m;
    assert(occurs_at(y, m, x.len() as int)) by {
        assert(y.subrange(x.len() as int, (x.len() + m.len()) as int) =~= m);
    }
    lemma_find_from(y, m, 0);
    match find_from(y, m, 0) {
        Some(j) => {
            if j < x.len() {
                assert(y.subrange(j, j + m.len())[0] == m[0]);
                assert(y[j] == x[j]);
            }
            assert(j == x.len());
        },
        None => {},
    }
    assert(find_from(y, m, 0) == Some(x.len() as int));
    assert(find_from(y, m, y.len() as int) is None);
    assert(count_from(y, m, y.len() as int) == 0);
    assert(rfind_from(y, m, y.len() - m.len()) == Some(x.len() as int));
}

proof fn lemma_marker_chars(mark: Mark)
    ensures
        forall|k: int| 0 <= k < marker_of(mark).len() ==> #[trigger] marker_of(mark)[k] == marker_of(mark)[0],
        marker_of(mark)[0] != '\n',
        1 <= marker_of(mark).len() <= 2,
{
    reveal_strlit("**");
    reveal_strlit("_");
    reveal_strlit("~~");
    reveal_strlit("`");
}

/// The selection conditions of the law below: in order, inside one line, and that line free of
/// the marker's character.
pub open spec fn plain_selection(t: Seq<char>, start: int, end: int, mark: Mark) -> bool {
    &&& in_order(t, start, end)
    &&& char_index(t, end) <= line_end(t, char_index(t, start))
    &&& forall|k: int|
        line_start(t, char_index(t, start)) <= k < line_end(t, char_index(t, start)) ==> t[k]
            != marker_of(mark)[0]
}

/// The first press wraps the selection `s..e`.
#[verifier::rlimit(40)]
proof fn lemma_first_press(t: Seq<char>, start: int, end: int, mark: Mark)
    requires
        plain_selection(t, start, end, mark),
    ensures
        ({
            let m = marker_of(mark);
            let s = char_index(t, start);
            let e = char_index(t, end);
            let n = t.take(s) + m + t.subrange(s, e) + m + t.skip(e);
            &&& 0 <= s <= e <= t.len()
            &&& !is_marked_of(t, start, end, mark)
            &&& toggle_of(t, start, end, mark) == (
                n,
                offset16(n, s + m.len()),
                offset16(n, e + m.len()),
            )
        }),
{
    let m = marker_of(mark);
    let w = m.len() as int;
    lemma_marker_chars(mark);
    let s = char_index(t, start);
    let e = char_index(t, end);
    lemma_index_from(t, start, 0);
    lemma_index_from(t, end, 0);
    let ls = line_start(t, s);
    let le = line_end(t, s);
    lemma_line_start(t, s);
    lemma_index_of_from(t, '\n', s);
    let inner = t.subrange(s, e);
    assert(!wrapped(inner, m)) by {
        if wrapped(inner, m) {
            assert(inner.subrange(0, w)[0] == m[0]);
            assert(inner[0] == t[s]);
        }
    }
    assert forall|k: int| 0 <= k < t.subrange(ls, s).len() implies t.subrange(ls, s)[k] != m[0] by {
        assert(t.subrange(ls, s)[k] == t[ls + k]);
    }
    lemma_absent(t.subrange(ls, s), m, 0);
    assert(enclosing_of(t, s, e, m) is None);
    let n = t.take(s) + m + inner + m + t.skip(e);
    assert(n.take(s + w) =~= t.take(s) + m);
    lemma_units_append(t.take(s), m);
    assert(n.take(e + w) =~= t.take(s) + m + inner);
    lemma_units_append(t.take(s) + m, inner);
}

/// In the wrapped text, the selection `s + w..e + w` sits between the pair at `s` and `e + w`.
#[verifier::rlimit(40)]
proof fn lemma_second_press(t: Seq<char>, s: int, e: int, mark: Mark)
    requires
        0 <= s <= e <= line_end(t, s),
        s <= t.len(),
        forall|k: int| line_start(t, s) <= k < line_end(t, s) ==> t[k] != marker_of(mark)[0],
    ensures
        ({
            let m = marker_of(mark);
            let w = m.len() as int;
            let n = t.take(s) + m + t.subrange(s, e) + m + t.skip(e);
            &&& !wrapped(n.subrange(s + w, e + w), m)
            &&& enclosing_of(n, s + w, e + w, m) == Some((s, e + w))
        }),
{
    let m = marker_of(mark);
    let w = m.len() as int;
    lemma_marker_chars(mark);
    let ls = line_start(t, s);
    let le = line_end(t, s);
    lemma_line_start(t, s);
    lemma_index_of_from(t, '\n', s);
    let inner = t.subrange(s, e);
    let n = t.take(s) + m + inner + m + t.skip(e);
    let s2 = s + w;
    let e2 = e + w;
    let le2 = le + 2 * w;
    assert(n.len() == t.len() + 2 * w);
    assert(n.subrange(s2, e2) =~= inner);
    assert forall|k: int| ls <= k < s2 implies n[k] != '\n' by {
        if k < s {
            assert(n[k] == t[k]);
        } else {
            assert(n[k] == m[k - s]);
        }
    }
    if ls > 0 {
        assert(n[ls - 1] == t[ls - 1]);
    }
    lemma_line_start_at(n, ls, s2);
    assert forall|k: int| s2 <= k < le2 implies n[k] != '\n' by {
        if k < e2 {
            assert(n[k] == t[k - w]);
        } else if k < e2 + w {
            assert(n[k] == m[k - e2]);
        } else {
            assert(n[k] == t[k - 2 * w]);
        }
    }
    if le < t.len() {
        assert(n[le2] == t[le]);
    }
    lemma_index_of_from_at(n, '\n', s2, le2);
    assert forall|k: int| 0 <= k < inner.len() implies inner[k] != m[0] by {
        assert(inner[k] == t[s + k]);
    }
    assert(!wrapped(inner, m)) by {
        if wrapped(inner, m) {
            assert(inner.subrange(0, w)[0] == m[0]);
        }
    }
    assert(n.subrange(ls, s2) =~= t.subrange(ls, s) + m);
    assert forall|k: int| 0 <= k < t.subrange(ls, s).len() implies t.subrange(ls, s)[k] != m[0] by {
        assert(t.subrange(ls, s)[k] == t[ls + k]);
    }
    lemma_once_at_end(t.subrange(ls, s), m);
    lemma_absent(inner, m, 0);
    assert(n.subrange(e2, le2) =~= m + t.subrange(e, le));
    assert(occurs_at(n.subrange(e2, le2), m, 0)) by {
        assert(n.subrange(e2, le2).subrange(0, w) =~= m);
    }
    lemma_find(n.subrange(e2, le2), m);
    assert(find(n.subrange(e2, le2), m) == Some(0int));
}

/// Pressing a mark's toggle on a selection whose line holds no character of the marker: the
/// selection was not marked, the first press leaves it marked, and the second gives the text back
/// as it was, with the selection where it was.
pub proof fn law_toggle_twice_restores(t: Seq<char>, start: int, end: int, mark: Mark)
    requires
        plain_selection(t, start, end, mark),
    ensures
        ({
            let (n, a, b) = toggle_of(t, start, end, mark);
            &&& !is_marked_of(t, start, end, mark)
            &&& is_marked_of(n, a, b, mark)
            &&& toggle_of(n, a, b, mark) == (
                t,
                offset16(t, char_index(t, start)),
                offset16(t, char_index(t, end)),
            )
        }),
{
    let m = marker_of(mark);
    let w = m.len() as int;
    lemma_marker_chars(mark);
    lemma_first_press(t, start, end, mark);
    let s = char_index(t, start);
    let e = char_index(t, end);
    let n = t.take(s) + m + t.subrange(s, e) + m + t.skip(e);
    let a = offset16(n, s + w);
    let b = offset16(n, e + w);
    lemma_char_index_of_offset(n, s + w);
    lemma_char_index_of_offset(n, e + w);
    lemma_second_press(t, s, e, mark);
    lemma_second_toggle(t, n, a, b, s, e, mark);
}

/// The second press, as `toggle_of` reads it, takes the pair off again.
#[verifier::rlimit(40)]
proof fn lemma_second_toggle(t: Seq<char>, n: Seq<char>, a: int, b: int, s: int, e: int, mark: Mark)
    requires
        0 <= s <= e <= t.len(),
        n == t.take(s) + marker_of(mark) + t.subrange(s, e) + marker_of(mark) + t.skip(e),
        char_index(n, a) == s + marker_of(mark).len(),
        char_index(n, b) == e + marker_of(mark).len(),
        !wrapped(n.subrange(s + marker_of(mark).len(), e + marker_of(mark).len()), marker_of(mark)),
        enclosing_of(
            n,
            s + marker_of(mark).len(),
            e + marker_of(mark).len(),
            marker_of(mark),
        ) == Some((s, e + marker_of(mark).len())),
    ensures
        toggle_of(n, a, b, mark) == (t, offset16(t, s), offset16(t, e)),
{
    let m = marker_of(mark);
    let w = m.len() as int;
    assert(toggle_of(n, a, b, mark) == unpair_of(n, s, e + w, s + w, e + w, w));
    let back = n.take(s) + n.subrange(s + w, e + w) + n.skip(e + w + w);
    assert(back =~= t);
}
/// A prefix the toolbar writes, put on a line that wears none, reads back as its own style with
/// the line after it.
#[verifier::rlimit(40)]
proof fn lemma_classify_prefixed(line: Seq<char>, slug: Seq<char>)
    requires
        classify_of(line).1 is None,
        prefix_for(slug).len() > 0,
    ensures
        classify_of(prefix_for(slug) + line).0 == line,
        classify_of(prefix_for(slug) + line).1 matches Some(st) && style_slug(st) == slug,
{
    reveal_strlit("h1");
    reveal_strlit("h2");
    reveal_strlit("quote");
    reveal_strlit("bullet");
    reveal_strlit("number");
    reveal_strlit("# ");
    reveal_strlit("## ");
    reveal_strlit("> ");
    reveal_strlit("- ");
    reveal_strlit("1. ");
    reveal_strlit(". ");
    let p = prefix_for(slug);
    let x = p + line;
    if slug == "h1"@ {
        assert(p == "# "@);
        assert(x.subrange(0, 2) =~= "# "@);
        assert(x[1] != "## "@[1]);
        assert(x.skip(2) =~= line);
    } else if slug == "h2"@ {
        assert(p == "## "@);
        assert(x.subrange(0, 3) =~= "## "@);
        assert(x.skip(3) =~= line);
    } else if slug == "quote"@ {
        assert(p == "> "@);
        assert(x.subrange(0, 2) =~= "> "@);
        assert(x[0] != "## "@[0] && x[0] != "# "@[0]);
        assert(x.skip(2) =~= line);
    } else if slug == "bullet"@ {
        assert(p == "- "@);
        assert(x.subrange(0, 2) =~= "- "@);
        assert(x[0] != "## "@[0] && x[0] != "# "@[0] && x[0] != "> "@[0]);
        assert(x.skip(2) =~= line);
    } else {
        assert(slug == "number"@);
        assert(p == "1. "@);
        assert(x[0] == '1' && x[1] == '.' && x[2] == ' ');
        assert(x[0] != "## "@[0] && x[0] != "# "@[0] && x[0] != "> "@[0] && x[0] != "- "@[0]);
        assert(digits_end(x, 1) == 1);
        assert(digits_end(x, 0) == 1);
        assert(x.skip(1).subrange(0, 2) =~= ". "@);
        assert(x.skip(3) =~= line);
    }
}

/// The first setting of a style on a line that wears none: the prefix goes in front of the
/// line, and the caret moves on by its length.
proof fn lemma_style_first(t: Seq<char>, at: int, slug: Seq<char>)
    requires
        classify_of(
            t.subrange(line_start(t, char_index(t, at)), line_end(t, char_index(t, at))),
        ).1 is None,
    ensures
        ({
            let a = char_index(t, at);
            let ls = line_start(t, a);
            let le = line_end(t, a);
            let n = t.take(ls) + prefix_for(slug) + t.subrange(ls, le) + t.skip(le);
            &&& 0 <= ls <= a <= le <= t.len()
            &&& set_style_of(t, at, slug) == (
                n,
                offset16(n, a + prefix_for(slug).len()),
                offset16(n, a + prefix_for(slug).len()),
            )
        }),
{
    let a = char_index(t, at);
    lemma_index_from(t, at, 0);
    lemma_line_start(t, a);
    lemma_index_of_from(t, '\n', a);
}

/// Setting the same style again on the prefixed line takes the prefix off and puts the caret
/// back.
#[verifier::rlimit(80)]
proof fn lemma_style_second(t: Seq<char>, a: int, slug: Seq<char>)
    requires
        0 <= a <= t.len(),
        classify_of(t.subrange(line_start(t, a), line_end(t, a))).1 is None,
        prefix_for(slug).len() > 0,
    ensures
        ({
            let ls = line_start(t, a);
            let le = line_end(t, a);
            let n = t.take(ls) + prefix_for(slug) + t.subrange(ls, le) + t.skip(le);
            let c = offset16(n, a + prefix_for(slug).len());
            let (n2, c2, _) = set_style_of(n, c, slug);
            &&& n2 == t && c2 == offset16(t, a)
            &&& style_at_of(n, c) matches Some(st) && style_slug(st) == slug
        }),
{
    let ls = line_start(t, a);
    let le = line_end(t, a);
    lemma_line_start(t, a);
    lemma_index_of_from(t, '\n', a);
    let line = t.subrange(ls, le);
    let p = prefix_for(slug);
    let pl = p.len() as int;
    lemma_prefix_len(slug);
    reveal_strlit("# ");
    reveal_strlit("## ");
    reveal_strlit("> ");
    reveal_strlit("- ");
    reveal_strlit("1. ");
    assert(forall|k: int| 0 <= k < p.len() ==> p[k] != '\n');
    let n = t.take(ls) + p + line + t.skip(le);
    let c = offset16(n, a + pl);
    lemma_char_index_of_offset(n, a + pl);
    assert(char_index(n, c) == a + pl);
    assert forall|k: int| ls <= k < a + pl implies n[k] != '\n' by {
        if k < ls + pl {
            assert(n[k] == p[k - ls]);
        } else {
            assert(n[k] == t[k - pl]);
        }
    }
    if ls > 0 {
        assert(n[ls - 1] == t[ls - 1]);
    }
    lemma_line_start_at(n, ls, a + pl);
    assert forall|k: int| a + pl <= k < le + pl implies n[k] != '\n' by {
        assert(n[k] == t[k - pl]);
    }
    if le < t.len() {
        assert(n[le + pl] == t[le]);
    }
    lemma_index_of_from_at(n, '\n', a + pl, le + pl);
    assert(n.subrange(ls, le + pl) =~= p + line);
    lemma_classify_prefixed(line, slug);
    let back = n.take(ls) + line + n.skip(le + pl);
    assert(back =~= t);
}

/// Setting a style on a line that wears none leaves the caret collapsed on a line that then reads
/// as that style; setting it again gives the text back as it was, with the caret where it was.
pub proof fn law_style_twice_restores(t: Seq<char>, at: int, slug: Seq<char>)
    requires
        classify_of(
            t.subrange(line_start(t, char_index(t, at)), line_end(t, char_index(t, at))),
        ).1 is None,
        prefix_for(slug).len() > 0,
    ensures
        ({
            let (n, c, d) = set_style_of(t, at, slug);
            let (n2, c2, _) = set_style_of(n, c, slug);
            &&& c == d
            &&& style_at_of(n, c) matches Some(st) && style_slug(st) == slug
            &&& n2 == t && c2 == offset16(t, char_index(t, at))
        }),
{
    lemma_style_first(t, at, slug);
    lemma_style_second(t, char_index(t, at), slug);
}


// ---------------------------------------------------------------------------------------------
// The editor block
// ---------------------------------------------------------------------------------------------

/// The text the editor block starts with, and goes back to on "Reset".
pub const SEED: &'static str = "# Release notes\n\nThe canvas no longer **pans on the primary button**, which is what a board needs to have a click of its own. Hold `Space` and drag instead.\n\n## What changed\n\n- `pan_on_drag` is off by default\n- `on_surface_click` reports a _world_ coordinate\n- ~~Drag anywhere~~ is now the hand tool, opt in\n\n> Every gesture a surface takes is one the caller cannot have.";

/// The editor block: its text, and the selection in it, in the UTF-16 units the textarea reports.
/// Nothing else is kept: which marks and which style are pressed is read back out of these. Every
/// step keeps the selection in order, so the buttons can be read back in every state.
pub struct Editor {
    pub text: String,
    pub start: usize,
    pub end: usize,
}

impl Editor {
    /// The editor as it opens: the seed text, the caret at the start.
    pub fn new() -> (r: Editor)
        ensures
            r.text@ == SEED@,
            r.start == 0 && r.end == 0,
            in_order(r.text@, 0, 0),
    {
        Editor { text: SEED.to_string(), start: 0, end: 0 }
    }

    /// "Reset": the seed text again, the caret at the start.
    pub fn reset(&mut self)
        ensures
            final(self).text@ == SEED@,
            final(self).start == 0 && final(self).end == 0,
            in_order(final(self).text@, 0, 0),
    {
        self.text = SEED.to_string();
        self.start = 0;
        self.end = 0;
    }

    /// Typing, or moving the selection: the textarea reports its text and selection, and they are
    /// taken as they come.
    pub fn edit(&mut self, text: String, start: usize, end: usize)
        ensures
            final(self).text@ == text@,
            final(self).start == start && final(self).end == end,
            start <= end ==> in_order(final(self).text@, start as int, end as int),
    {
        proof {
            if start <= end {
                lemma_index_from_mono(text@, start as int, end as int, 0);
            }
        }
        self.text = text;
        self.start = start;
        self.end = end;
    }

    /// Pressing the button of `mark`: the selection is wrapped in its marker, or has it taken off.
    pub fn press_mark(&mut self, mark: Mark)
        requires
            fits(old(self).text@),
            in_order(old(self).text@, old(self).start as int, old(self).end as int),
        ensures
            (final(self).text@, final(self).start as int, final(self).end as int) == toggle_of(
                old(self).text@,
                old(self).start as int,
                old(self).end as int,
                mark,
            ),
            in_order(final(self).text@, final(self).start as int, final(self).end as int),
            units(final(self).text@) <= units(old(self).text@) + 4,
    {
        proof {
            law_marked_selection_stays_in_order(self.text@, self.start as int, self.end as int, mark);
            law_presses_grow_the_text_a_little(self.text@, self.start as int, self.end as int, mark, 0, seq![]);
        }
        let (next, a, b) = toggle_wrap(self.text.as_str(), self.start, self.end, mark);
        self.text = next;
        self.start = a;
        self.end = b;
    }

    /// Pressing the style called `slug`: the line the selection starts on takes it, or loses it.
    pub fn press_style(&mut self, slug: &str)
        requires
            fits(old(self).text@),
        ensures
            (final(self).text@, final(self).start as int, final(self).end as int) == set_style_of(
                old(self).text@,
                old(self).start as int,
                slug@,
            ),
            final(self).start == final(self).end,
            in_order(final(self).text@, final(self).start as int, final(self).end as int),
            units(final(self).text@) <= units(old(self).text@) + 3,
    {
        proof {
            law_presses_grow_the_text_a_little(self.text@, 0, 0, Mark::Bold, self.start as int, slug@);
        }
        let (next, a, b) = set_style(self.text.as_str(), self.start, slug);
        self.text = next;
        self.start = a;
        self.end = b;
    }

    /// The marks whose buttons show pressed: those the selection wears.
    pub fn pressed_marks(&self) -> (r: Vec<Mark>)
        requires
            fits(self.text@),
            in_order(self.text@, self.start as int, self.end as int),
        ensures
            r@ == pressed_of(self.text@, self.start as int, self.end as int),
    {
        marks_pressed(self.text.as_str(), self.start, self.end)
    }

    /// The style whose button shows pressed: the one the line the selection starts on wears.
    pub fn pressed_style(&self) -> (r: Option<LineStyle>)
        requires
            fits(self.text@),
        ensures
            r == style_at_of(self.text@, self.start as int),
    {
        style_at(self.text.as_str(), self.start)
    }
}

proof fn lemma_index_from_mono(s: Seq<char>, u1: int, u2: int, i: int)
    requires
        0 <= i <= s.len(),
        u1 <= u2,
    ensures
        index_from(s, u1, i) <= index_from(s, u2, i),
    decreases s.len() - i,
{
    if i < s.len() {
        if units(s.take(i)) >= u1 && units(s.take(i)) < u2 {
            lemma_index_from(s, u2, i + 1);
        } else if units(s.take(i)) < u1 {
            lemma_index_from_mono(s, u1, u2, i + 1);
        }
    }
}

proof fn lemma_enclosing_bounds(t: Seq<char>, s: int, e: int, m: Seq<char>)
    requires
        0 <= s <= e <= t.len(),
        m.len() > 0,
    ensures
        enclosing_of(t, s, e, m) matches Some((o, c)) ==> 0 <= o && o + m.len() <= s && e <= c
            && c + m.len() <= t.len(),
{
    let ls = line_start(t, s);
    let le = line_end(t, s);
    lemma_line_start(t, s);
    lemma_index_of_from(t, '\n', s);
    if e <= le {
        let before = t.subrange(ls, s);
        let after = t.subrange(e, le);
        lemma_rfind_from(before, m, before.len() - m.len());
        lemma_find(after, m);
    }
}

/// Whatever a mark's button does to the text, a selection in order stays in order, so the
/// buttons can be read back after every press.
pub proof fn law_marked_selection_stays_in_order(t: Seq<char>, start: int, end: int, mark: Mark)
    requires
        in_order(t, start, end),
    ensures
        ({
            let (n, a, b) = toggle_of(t, start, end, mark);
            in_order(n, a, b)
        }),
{
    let m = marker_of(mark);
    let w = m.len() as int;
    lemma_marker_chars(mark);
    let s = char_index(t, start);
    let e = char_index(t, end);
    lemma_index_from(t, start, 0);
    lemma_index_from(t, end, 0);
    let (n, a, b) = toggle_of(t, start, end, mark);
    if !wrapped(t.subrange(s, e), m) {
        match enclosing_of(t, s, e, m) {
            Some((o, c)) => {
                lemma_enclosing_bounds(t, s, e, m);
                let next = t.take(o) + t.subrange(o + w, c) + t.skip(c + w);
                assert(next.len() == t.len() - 2 * w);
                lemma_units_take(next, s - w, e - w);
            },
            None => {},
        }
    }
    assert(a <= b);
    lemma_index_from_mono(n, a, b, 0);
}

proof fn lemma_units_cut(x: Seq<char>, a: int, b: int, c: int, d: int)
    requires
        0 <= a <= b <= c <= d <= x.len(),
    ensures
        units(x.take(a) + x.subrange(b, c) + x.skip(d)) <= units(x),
{
    assert(x =~= x.take(a) + x.subrange(a, b) + x.subrange(b, c) + x.subrange(c, d) + x.skip(d));
    lemma_units_append(x.take(a), x.subrange(a, b));
    lemma_units_append(x.take(a) + x.subrange(a, b), x.subrange(b, c));
    lemma_units_append(x.take(a) + x.subrange(a, b) + x.subrange(b, c), x.subrange(c, d));
    lemma_units_append(x.take(a) + x.subrange(a, b) + x.subrange(b, c) + x.subrange(c, d), x.skip(d));
    lemma_units_append(x.take(a), x.subrange(b, c));
    lemma_units_append(x.take(a) + x.subrange(b, c), x.skip(d));
}

proof fn lemma_classify_suffix(line: Seq<char>)
    ensures
        classify_of(line).0.len() <= line.len(),
        classify_of(line).0 == line.skip(line.len() - classify_of(line).0.len()),
{
    reveal_strlit("## ");
    reveal_strlit("# ");
    reveal_strlit("> ");
    reveal_strlit("- ");
    reveal_strlit(". ");
    lemma_digits_end(line, 0);
    let r = classify_of(line).0;
    if r == line {
        assert(line.skip(0) =~= line);
    }
}

/// A press of a mark's button adds at most the two markers, four UTF-16 units, and a press of a
/// style's button at most its prefix, three: a text that fits with that much to spare can be
/// pressed again.
pub proof fn law_presses_grow_the_text_a_little(t: Seq<char>, start: int, end: int, mark: Mark, at: int, slug: Seq<char>)
    requires
        in_order(t, start, end),
    ensures
        units(toggle_of(t, start, end, mark).0) <= units(t) + 4,
        units(set_style_of(t, at, slug).0) <= units(t) + 3,
{
    let m = marker_of(mark);
    let w = m.len() as int;
    lemma_marker_chars(mark);
    lemma_units_marker(mark);
    let s = char_index(t, start);
    let e = char_index(t, end);
    lemma_index_from(t, start, 0);
    lemma_index_from(t, end, 0);
    let inner = t.subrange(s, e);
    if wrapped(inner, m) {
        assert(inner.subrange(w, inner.len() - w) =~= t.subrange(s + w, e - w));
        lemma_units_cut(t, s, s + w, e - w, e);
    } else {
        match enclosing_of(t, s, e, m) {
            Some((o, c)) => {
                lemma_enclosing_bounds(t, s, e, m);
                lemma_units_cut(t, o, o + w, c, c + w);
            },
            None => {
                let n = t.take(s) + m + inner + m + t.skip(e);
                assert(t =~= t.take(s) + inner + t.skip(e));
                lemma_units_append(t.take(s), inner);
                lemma_units_append(t.take(s) + inner, t.skip(e));
                lemma_units_append(t.take(s), m);
                lemma_units_append(t.take(s) + m, inner);
                lemma_units_append(t.take(s) + m + inner, m);
                lemma_units_append(t.take(s) + m + inner + m, t.skip(e));
            },
        }
    }
    let a = char_index(t, at);
    lemma_index_from(t, at, 0);
    let ls = line_start(t, a);
    let le = line_end(t, a);
    lemma_line_start(t, a);
    lemma_index_of_from(t, '\n', a);
    let line = t.subrange(ls, le);
    let rest = classify_of(line).0;
    lemma_classify_suffix(line);
    let k = line.len() - rest.len();
    assert(rest =~= t.subrange(ls + k, le));
    let prefix = if classify_of(line).1 matches Some(st) && style_slug(st) == slug {
        seq![]
    } else {
        prefix_for(slug)
    };
    lemma_prefix_len(slug);
    assert(units(prefix) <= 3) by {
        if prefix.len() == 0 {
            assert(prefix =~= Seq::<char>::empty());
        }
    }
    lemma_units_cut(t, ls, ls + k, le, le);
    lemma_units_append(t.take(ls), prefix);
    lemma_units_append(t.take(ls) + prefix, rest);
    lemma_units_append(t.take(ls) + prefix + rest, t.skip(le));
    lemma_units_append(t.take(ls), rest);
    lemma_units_append(t.take(ls) + rest, t.skip(le));
}

/// After a style is pressed the selection is a caret, so the mark buttons can always be read
/// back: a collapsed selection is in order.
pub proof fn law_styled_selection_is_in_order(t: Seq<char>, at: int, slug: Seq<char>)
    ensures
        ({
            let (n, c, d) = set_style_of(t, at, slug);
            c == d && in_order(n, c, d)
        }),
{
}

} // verus!
