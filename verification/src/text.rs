//! Text as a sequence of `char`s: the searching, trimming and splicing that the rest of the
//! crate is written in, each with the specification that the others are proved against.
//!
//! Positions are counted in `char`s. Every delimiter this crate looks for is ASCII, and a byte
//! offset of an ASCII character in UTF-8 names the same place as its `char` offset, so nothing
//! observable changes by counting this way.

use vstd::prelude::*;

verus! {

/// `String::push` appends one `char`, as its documentation says.
pub assume_specification[ String::push ](s: &mut String, ch: char)
    ensures
        final(s)@ == old(s)@.push(ch),
;

// ---------------------------------------------------------------------------------------------
// Characters
// ---------------------------------------------------------------------------------------------

/// Unicode `White_Space`, which is what `char::is_whitespace` answers.
pub open spec fn is_ws(c: char) -> bool {
    let u = c as u32;
    ||| u == 0x20
    ||| (0x09 <= u && u <= 0x0d)
    ||| u == 0x85
    ||| u == 0xa0
    ||| u == 0x1680
    ||| (0x2000 <= u && u <= 0x200a)
    ||| u == 0x2028
    ||| u == 0x2029
    ||| u == 0x202f
    ||| u == 0x205f
    ||| u == 0x3000
}

pub fn is_whitespace(c: char) -> (r: bool)
    ensures
        r == is_ws(c),
{
    let u = c as u32;
    u == 0x20 || (0x09 <= u && u <= 0x0d) || u == 0x85 || u == 0xa0 || u == 0x1680 || (0x2000
        <= u && u <= 0x200a) || u == 0x2028 || u == 0x2029 || u == 0x202f || u == 0x205f || u
        == 0x3000
}

// ---------------------------------------------------------------------------------------------
// Between `&str` and `char`s
// ---------------------------------------------------------------------------------------------

/// The characters of `s`, in order.
pub fn chars_of(s: &str) -> (out: Vec<char>)
    ensures
        out@ == s@,
{
    let mut out: Vec<char> = Vec::new();
    for c in it: s.chars()
        invariant
            out@ == it.seq().take(it.index() as int),
    {
        out.push(c);
    }
    out
}

/// The string made of `cs`.
pub fn string_of(cs: &[char]) -> (out: String)
    ensures
        out@ == cs@,
{
    let mut out = String::new();
    let mut i: usize = 0;
    while i < cs.len()
        invariant
            i <= cs@.len(),
            out@ == cs@.take(i as int),
        decreases cs.len() - i,
    {
        out.push(cs[i]);
        i += 1;
    }
    out
}

/// Appends all of `s` to `out`.
pub fn push_all(out: &mut Vec<char>, s: &[char])
    ensures
        final(out)@ == old(out)@ + s@,
{
    let mut i: usize = 0;
    while i < s.len()
        invariant
            i <= s@.len(),
            out@ == old(out)@ + s@.take(i as int),
        decreases s.len() - i,
    {
        out.push(s[i]);
        i += 1;
    }
}

/// A copy of `s[from..to]`.
pub fn slice_of(s: &[char], from: usize, to: usize) -> (out: Vec<char>)
    requires
        from <= to <= s@.len(),
    ensures
        out@ == s@.subrange(from as int, to as int),
{
    let mut out: Vec<char> = Vec::new();
    let mut i: usize = from;
    while i < to
        invariant
            from <= i <= to <= s@.len(),
            out@ == s@.subrange(from as int, i as int),
        decreases to - i,
    {
        out.push(s[i]);
        i += 1;
    }
    out
}

/// Whether two runs of characters are the same.
pub fn same(a: &[char], b: &[char]) -> (r: bool)
    ensures
        r == (a@ == b@),
{
    if a.len() != b.len() {
        return false;
    }
    let mut i: usize = 0;
    while i < a.len()
        invariant
            a@.len() == b@.len(),
            i <= a@.len(),
            forall|j: int| 0 <= j < i ==> a@[j] == b@[j],
        decreases a.len() - i,
    {
        if a[i] != b[i] {
            return false;
        }
        i += 1;
    }
    assert(a@ =~= b@);
    true
}

// ---------------------------------------------------------------------------------------------
// Prefixes, suffixes, occurrences
// ---------------------------------------------------------------------------------------------

/// `p` occurs in `s` starting at `i`.
pub open spec fn occurs_at(s: Seq<char>, p: Seq<char>, i: int) -> bool {
    0 <= i && i + p.len() <= s.len() && s.subrange(i, i + p.len()) == p
}

pub open spec fn starts_with(s: Seq<char>, p: Seq<char>) -> bool {
    occurs_at(s, p, 0)
}

pub open spec fn ends_with(s: Seq<char>, p: Seq<char>) -> bool {
    occurs_at(s, p, s.len() - p.len())
}

/// The first place at or after `i` where `p` occurs in `s`.
pub open spec fn find_from(s: Seq<char>, p: Seq<char>, i: int) -> Option<int>
    decreases s.len() + 1 - i,
{
    if i < 0 || i + p.len() > s.len() {
        None
    } else if occurs_at(s, p, i) {
        Some(i)
    } else {
        find_from(s, p, i + 1)
    }
}

/// The first place where `p` occurs in `s`, which is what `str::find` answers.
pub open spec fn find(s: Seq<char>, p: Seq<char>) -> Option<int> {
    find_from(s, p, 0)
}

pub open spec fn contains(s: Seq<char>, p: Seq<char>) -> bool {
    find(s, p) is Some
}

/// What `find_from` answers, said without the recursion: the least place at or after `i`.
pub proof fn lemma_find_from(s: Seq<char>, p: Seq<char>, i: int)
    requires
        0 <= i,
    ensures
        find_from(s, p, i) matches Some(j) ==> i <= j && occurs_at(s, p, j) && forall|k: int|
            i <= k < j ==> !occurs_at(s, p, k),
        find_from(s, p, i) is None ==> forall|k: int| i <= k ==> !occurs_at(s, p, k),
    decreases s.len() + 1 - i,
{
    if i + p.len() > s.len() {
    } else if occurs_at(s, p, i) {
    } else {
        lemma_find_from(s, p, i + 1);
        if let Some(j) = find_from(s, p, i + 1) {
            assert forall|k: int| i <= k < j implies !occurs_at(s, p, k) by {
                if k > i {
                }
            }
        } else {
            assert forall|k: int| i <= k implies !occurs_at(s, p, k) by {
                if k > i {
                }
            }
        }
    }
}

/// The first occurrence is the least place it occurs.
pub proof fn lemma_find(s: Seq<char>, p: Seq<char>)
    ensures
        find(s, p) matches Some(j) ==> occurs_at(s, p, j) && forall|k: int|
            0 <= k < j ==> !occurs_at(s, p, k),
        find(s, p) is None ==> forall|k: int| !occurs_at(s, p, k),
{
    lemma_find_from(s, p, 0);
}

/// Whether `p` occurs in `s` at `i`.
pub fn occurs_at_exec(s: &[char], p: &[char], i: usize) -> (r: bool)
    ensures
        r == occurs_at(s@, p@, i as int),
{
    if i > s.len() || p.len() > s.len() - i {
        return false;
    }
    let mut k: usize = 0;
    while k < p.len()
        invariant
            s@.len() == s.len(),
            i <= s@.len(),
            i + p@.len() <= s@.len(),
            k <= p@.len(),
            forall|j: int| 0 <= j < k ==> s@[i + j] == p@[j],
        decreases p.len() - k,
    {
        if s[i + k] != p[k] {
            assert(s@.subrange(i as int, i + p@.len())[k as int] != p@[k as int]);
            return false;
        }
        k += 1;
    }
    assert(s@.subrange(i as int, i + p@.len()) =~= p@);
    true
}

pub fn starts_with_exec(s: &[char], p: &[char]) -> (r: bool)
    ensures
        r == starts_with(s@, p@),
{
    occurs_at_exec(s, p, 0)
}

pub fn ends_with_exec(s: &[char], p: &[char]) -> (r: bool)
    ensures
        r == ends_with(s@, p@),
{
    if p.len() > s.len() {
        return false;
    }
    occurs_at_exec(s, p, s.len() - p.len())
}

/// The first place at or after `from` where `p` occurs in `s`.
pub fn find_from_exec(s: &[char], p: &[char], from: usize) -> (r: Option<usize>)
    ensures
        r matches Some(j) ==> find_from(s@, p@, from as int) == Some(j as int),
        r is None ==> find_from(s@, p@, from as int) is None,
{
    let mut i = from;
    while i <= s.len() && p.len() <= s.len() - i
        invariant
            from <= i,
            find_from(s@, p@, i as int) == find_from(s@, p@, from as int),
        decreases s.len() + 1 - i,
    {
        if occurs_at_exec(s, p, i) {
            return Some(i);
        }
        if i == s.len() {
            assert(s@.subrange(i as int, i as int) =~= p@);
        }
        i += 1;
    }
    None
}

pub fn find_exec(s: &[char], p: &[char]) -> (r: Option<usize>)
    ensures
        r matches Some(j) ==> find(s@, p@) == Some(j as int),
        r is None ==> find(s@, p@) is None,
{
    find_from_exec(s, p, 0)
}

pub fn contains_exec(s: &[char], p: &[char]) -> (r: bool)
    ensures
        r == contains(s@, p@),
{
    find_exec(s, p).is_some()
}

/// The first place at or after `i` that holds `c`, or the length if none does.
pub open spec fn index_of_from(s: Seq<char>, c: char, i: int) -> int
    decreases s.len() - i,
{
    if i < 0 || i >= s.len() {
        s.len() as int
    } else if s[i] == c {
        i
    } else {
        index_of_from(s, c, i + 1)
    }
}

pub proof fn lemma_index_of_from(s: Seq<char>, c: char, i: int)
    requires
        0 <= i <= s.len(),
    ensures
        i <= index_of_from(s, c, i) <= s.len(),
        index_of_from(s, c, i) < s.len() ==> s[index_of_from(s, c, i)] == c,
        forall|k: int| i <= k < index_of_from(s, c, i) ==> s[k] != c,
    decreases s.len() - i,
{
    if i < s.len() && s[i] != c {
        lemma_index_of_from(s, c, i + 1);
    }
}

pub fn index_of_from_exec(s: &[char], c: char, from: usize) -> (r: usize)
    requires
        from <= s@.len(),
    ensures
        r == index_of_from(s@, c, from as int),
{
    let mut i = from;
    while i < s.len()
        invariant
            from <= i <= s@.len(),
            index_of_from(s@, c, i as int) == index_of_from(s@, c, from as int),
        decreases s.len() - i,
    {
        if s[i] == c {
            return i;
        }
        i += 1;
    }
    i
}

// ---------------------------------------------------------------------------------------------
// Trimming
// ---------------------------------------------------------------------------------------------

/// Where the leading white space of `s` ends, looking from `i`.
pub open spec fn lead_ws(s: Seq<char>, i: int) -> int
    decreases s.len() - i,
{
    if 0 <= i < s.len() && is_ws(s[i]) {
        lead_ws(s, i + 1)
    } else {
        i
    }
}

/// Where the trailing white space of `s[..j]` begins.
pub open spec fn trail_ws(s: Seq<char>, j: int) -> int
    decreases j,
{
    if 0 < j <= s.len() && is_ws(s[j - 1]) {
        trail_ws(s, j - 1)
    } else {
        j
    }
}

/// `str::trim_start`.
pub open spec fn trim_start(s: Seq<char>) -> Seq<char> {
    s.skip(lead_ws(s, 0))
}

/// `str::trim_end`.
pub open spec fn trim_end(s: Seq<char>) -> Seq<char> {
    s.take(trail_ws(s, s.len() as int))
}

/// `str::trim`.
pub open spec fn trim(s: Seq<char>) -> Seq<char> {
    trim_end(trim_start(s))
}

pub proof fn lemma_lead_ws(s: Seq<char>, i: int)
    requires
        0 <= i <= s.len(),
    ensures
        i <= lead_ws(s, i) <= s.len(),
        forall|k: int| i <= k < lead_ws(s, i) ==> is_ws(s[k]),
        lead_ws(s, i) < s.len() ==> !is_ws(s[lead_ws(s, i)]),
    decreases s.len() - i,
{
    if i < s.len() && is_ws(s[i]) {
        lemma_lead_ws(s, i + 1);
    }
}

pub proof fn lemma_trail_ws(s: Seq<char>, j: int)
    requires
        0 <= j <= s.len(),
    ensures
        0 <= trail_ws(s, j) <= j,
        forall|k: int| trail_ws(s, j) <= k < j ==> is_ws(s[k]),
        trail_ws(s, j) > 0 ==> !is_ws(s[trail_ws(s, j) - 1]),
    decreases j,
{
    if j > 0 && is_ws(s[j - 1]) {
        lemma_trail_ws(s, j - 1);
    }
}

pub fn lead_ws_exec(s: &[char]) -> (r: usize)
    ensures
        r == lead_ws(s@, 0),
{
    let mut i: usize = 0;
    while i < s.len() && is_whitespace(s[i])
        invariant
            i <= s@.len(),
            lead_ws(s@, i as int) == lead_ws(s@, 0),
        decreases s.len() - i,
    {
        i += 1;
    }
    i
}

pub fn trail_ws_exec(s: &[char]) -> (r: usize)
    ensures
        r == trail_ws(s@, s@.len() as int),
{
    let mut j: usize = s.len();
    while j > 0 && is_whitespace(s[j - 1])
        invariant
            j <= s@.len(),
            trail_ws(s@, j as int) == trail_ws(s@, s@.len() as int),
        decreases j,
    {
        j -= 1;
    }
    j
}

pub fn trim_start_exec(s: &[char]) -> (r: Vec<char>)
    ensures
        r@ == trim_start(s@),
{
    let k = lead_ws_exec(s);
    proof {
        lemma_lead_ws(s@, 0);
    }
    slice_of(s, k, s.len())
}

pub fn trim_end_exec(s: &[char]) -> (r: Vec<char>)
    ensures
        r@ == trim_end(s@),
{
    let k = trail_ws_exec(s);
    proof {
        lemma_trail_ws(s@, s@.len() as int);
    }
    slice_of(s, 0, k)
}

pub fn trim_exec(s: &[char]) -> (r: Vec<char>)
    ensures
        r@ == trim(s@),
{
    let t = trim_start_exec(s);
    trim_end_exec(&t)
}

// ---------------------------------------------------------------------------------------------
// Replacing
// ---------------------------------------------------------------------------------------------

/// `str::replace`: every occurrence of `from`, left to right and not overlapping, becomes `to`.
pub open spec fn replace_all(s: Seq<char>, from: Seq<char>, to: Seq<char>) -> Seq<char>
    decreases s.len(),
    when from.len() > 0
{
    match find(s, from) {
        Some(i) => {
            proof {
                lemma_find(s, from);
            }
            s.take(i) + to + replace_all(s.skip(i + from.len()), from, to)
        },
        None => s,
    }
}

/// The occurrence that `find_from` reports in a suffix is the one `find` reports in the suffix.
proof fn lemma_find_from_shift(s: Seq<char>, p: Seq<char>, i: int)
    requires
        0 <= i <= s.len(),
    ensures
        find_from(s, p, i) == (match find(s.skip(i), p) {
            Some(j) => Some(i + j),
            None => None,
        }),
{
    lemma_find_from(s, p, i);
    lemma_find(s.skip(i), p);
    assert forall|k: int| 0 <= k implies occurs_at(s.skip(i), p, k) == occurs_at(s, p, i + k) by {
        if 0 <= k && k + p.len() <= s.skip(i).len() {
            assert(s.skip(i).subrange(k, k + p.len()) =~= s.subrange(i + k, i + k + p.len()));
        }
    }
    match find_from(s, p, i) {
        Some(j) => {
            assert(occurs_at(s.skip(i), p, j - i));
            match find(s.skip(i), p) {
                Some(j2) => {
                    assert(occurs_at(s, p, i + j2));
                    if j2 < j - i {
                    } else if j2 > j - i {
                    }
                },
                None => {},
            }
        },
        None => {
            match find(s.skip(i), p) {
                Some(j2) => {
                    assert(occurs_at(s, p, i + j2));
                },
                None => {},
            }
        },
    }
}

/// `u` agrees with `p` as far as both go.
pub open spec fn agrees(u: Seq<char>, p: Seq<char>) -> bool {
    forall|k: int| 0 <= k < u.len() && k < p.len() ==> u[k] == p[k]
}

/// Replacing never makes `p` where there was none: when `from` is `p` itself, or `s` holds no
/// `p`, the result holds none, provided no occurrence of `p` can start inside `to` and none can
/// run into it from before.
pub proof fn lemma_replace_makes_no(s: Seq<char>, from: Seq<char>, to: Seq<char>, p: Seq<char>)
    requires
        from.len() > 0,
        p.len() > 0,
        to.len() > 0,
        from == p || !contains(s, p),
        forall|j: int| 0 <= j < to.len() ==> !agrees(#[trigger] to.skip(j), p),
        forall|d: int| 1 <= d < p.len() ==> !agrees(to, #[trigger] p.skip(d)),
    ensures
        !contains(replace_all(s, from, to), p),
    decreases s.len(),
{
    lemma_find(s, from);
    lemma_find(s, p);
    match find(s, from) {
        None => {},
        Some(i) => {
            let a = s.take(i);
            let rest = s.skip(i + from.len());
            if from != p {
                assert forall|k: int| !occurs_at(rest, p, k) by {
                    if occurs_at(rest, p, k) {
                        assert(rest.subrange(k, k + p.len()) =~= s.subrange(
                            i + from.len() + k,
                            i + from.len() + k + p.len(),
                        ));
                        assert(occurs_at(s, p, i + from.len() + k));
                    }
                }
                lemma_find(rest, p);
            }
            lemma_replace_makes_no(rest, from, to, p);
            let b = replace_all(rest, from, to);
            lemma_find(b, p);
            let out = a + to + b;
            assert(replace_all(s, from, to) == out);
            let l = a.len() as int;
            let t = to.len() as int;
            assert forall|x: int| !occurs_at(out, p, x) by {
                if occurs_at(out, p, x) {
                    let w = out.subrange(x, x + p.len());
                    assert(w == p);
                    if x + p.len() <= l {
                        assert(w =~= s.subrange(x, x + p.len()));
                        assert(occurs_at(s, p, x));
                    } else if x < l {
                        let d = l - x;
                        assert(agrees(to, p.skip(d))) by {
                            assert forall|k: int| 0 <= k < to.len() && k < p.skip(d).len() implies to[k]
                                == p.skip(d)[k] by {
                                assert(out[l + k] == to[k]);
                                assert(w[d + k] == out[x + d + k]);
                            }
                        }
                    } else if x < l + t {
                        let j = x - l;
                        assert(agrees(to.skip(j), p)) by {
                            assert forall|k: int| 0 <= k < to.skip(j).len() && k < p.len() implies to.skip(
                                j,
                            )[k] == p[k] by {
                                assert(out[x + k] == to[j + k]);
                                assert(w[k] == out[x + k]);
                            }
                        }
                    } else {
                        assert(w =~= b.subrange(x - l - t, x - l - t + p.len()));
                        assert(occurs_at(b, p, x - l - t));
                    }
                }
            }
            lemma_find(out, p);
        },
    }
}

/// `s` with every occurrence of `from` replaced by `to`.
pub fn replace_exec(s: &[char], from: &[char], to: &[char]) -> (r: Vec<char>)
    requires
        from@.len() > 0,
    ensures
        r@ == replace_all(s@, from@, to@),
{
    let mut out: Vec<char> = Vec::new();
    let mut i: usize = 0;
    assert(s@.skip(0) =~= s@);
    while i <= s.len()
        invariant
            i <= s@.len(),
            from@.len() > 0,
            out@ + replace_all(s@.skip(i as int), from@, to@) == replace_all(s@, from@, to@),
        decreases s.len() - i,
    {
        proof {
            lemma_find_from_shift(s@, from@, i as int);
            lemma_find(s@.skip(i as int), from@);
        }
        match find_from_exec(s, from, i) {
            Some(j) => {
                let ghost rest = s@.skip(i as int);
                proof {
                    assert(rest.take(j - i) =~= s@.subrange(i as int, j as int));
                    assert(rest.skip(j - i + from@.len()) =~= s@.skip(j + from@.len()));
                }
                let piece = slice_of(s, i, j);
                push_all(&mut out, &piece);
                push_all(&mut out, to);
                i = j + from.len();
            },
            None => {
                let piece = slice_of(s, i, s.len());
                proof {
                    assert(s@.subrange(i as int, s@.len() as int) =~= s@.skip(i as int));
                }
                push_all(&mut out, &piece);
                return out;
            },
        }
    }
    out
}


// ---------------------------------------------------------------------------------------------
// Trimming one character
// ---------------------------------------------------------------------------------------------

/// Where the leading run of `c` in `s` ends, looking from `i`.
pub open spec fn lead_char(s: Seq<char>, c: char, i: int) -> int
    decreases s.len() - i,
{
    if 0 <= i < s.len() && s[i] == c {
        lead_char(s, c, i + 1)
    } else {
        i
    }
}

/// Where the trailing run of `c` in `s[..j]` begins.
pub open spec fn trail_char(s: Seq<char>, c: char, j: int) -> int
    decreases j,
{
    if 0 < j <= s.len() && s[j - 1] == c {
        trail_char(s, c, j - 1)
    } else {
        j
    }
}

/// `str::trim_matches` with one `char`: every `c` at either end taken off.
pub open spec fn trim_char(s: Seq<char>, c: char) -> Seq<char> {
    let t = s.skip(lead_char(s, c, 0));
    t.take(trail_char(t, c, t.len() as int))
}

pub proof fn lemma_lead_char(s: Seq<char>, c: char, i: int)
    requires
        0 <= i <= s.len(),
    ensures
        i <= lead_char(s, c, i) <= s.len(),
    decreases s.len() - i,
{
    if i < s.len() && s[i] == c {
        lemma_lead_char(s, c, i + 1);
    }
}

pub proof fn lemma_trail_char(s: Seq<char>, c: char, j: int)
    requires
        0 <= j <= s.len(),
    ensures
        0 <= trail_char(s, c, j) <= j,
    decreases j,
{
    if j > 0 && s[j - 1] == c {
        lemma_trail_char(s, c, j - 1);
    }
}

pub fn trim_char_exec(s: &[char], c: char) -> (r: Vec<char>)
    ensures
        r@ == trim_char(s@, c),
{
    let mut i: usize = 0;
    while i < s.len() && s[i] == c
        invariant
            i <= s@.len(),
            lead_char(s@, c, i as int) == lead_char(s@, c, 0),
        decreases s.len() - i,
    {
        i += 1;
    }
    let t = slice_of(s, i, s.len());
    assert(t@ =~= s@.skip(i as int));
    let mut j: usize = t.len();
    while j > 0 && t[j - 1] == c
        invariant
            j <= t@.len(),
            trail_char(t@, c, j as int) == trail_char(t@, c, t@.len() as int),
        decreases j,
    {
        j -= 1;
    }
    slice_of(&t, 0, j)
}

/// `str::trim_start_matches` with a pattern: every leading copy of `p` taken off.
pub open spec fn strip_leading(s: Seq<char>, p: Seq<char>) -> Seq<char>
    decreases s.len(),
    when p.len() > 0
{
    if starts_with(s, p) {
        strip_leading(s.skip(p.len() as int), p)
    } else {
        s
    }
}

pub fn strip_leading_exec(s: &[char], p: &[char]) -> (r: Vec<char>)
    requires
        p@.len() > 0,
    ensures
        r@ == strip_leading(s@, p@),
{
    let mut i: usize = 0;
    assert(s@.skip(0) =~= s@);
    while i <= s.len() && p.len() <= s.len() - i && occurs_at_exec(s, p, i)
        invariant
            i <= s@.len(),
            p@.len() > 0,
            strip_leading(s@.skip(i as int), p@) == strip_leading(s@, p@),
        decreases s.len() - i,
    {
        proof {
            let t = s@.skip(i as int);
            assert(t.subrange(0, p@.len() as int) =~= s@.subrange(i as int, i + p@.len()));
            assert(t.skip(p@.len() as int) =~= s@.skip(i + p@.len()));
        }
        i += p.len();
    }
    proof {
        let t = s@.skip(i as int);
        if p@.len() <= t.len() {
            assert(t.subrange(0, p@.len() as int) =~= s@.subrange(i as int, i + p@.len()));
        }
    }
    slice_of(s, i, s.len())
}

// ---------------------------------------------------------------------------------------------
// Splitting and joining
// ---------------------------------------------------------------------------------------------

/// The views of a run of strings.
pub open spec fn views(v: Seq<Vec<char>>) -> Seq<Seq<char>> {
    Seq::new(v.len(), |i: int| v[i]@)
}

/// Reading `s` left to right and cutting at every `sep`: the pieces finished so far (the empty
/// ones dropped) and the piece still being read.
pub open spec fn split_state(s: Seq<char>, sep: char) -> (Seq<Seq<char>>, Seq<char>)
    decreases s.len(),
{
    if s.len() == 0 {
        (seq![], seq![])
    } else {
        let (done, cur) = split_state(s.drop_last(), sep);
        if s.last() == sep {
            (
                if cur.len() > 0 {
                    done.push(cur)
                } else {
                    done
                },
                seq![],
            )
        } else {
            (done, cur.push(s.last()))
        }
    }
}

/// `s.split(sep).filter(|p| !p.is_empty())`.
pub open spec fn pieces(s: Seq<char>, sep: char) -> Seq<Seq<char>> {
    let (done, cur) = split_state(s, sep);
    if cur.len() > 0 {
        done.push(cur)
    } else {
        done
    }
}

pub fn pieces_exec(s: &[char], sep: char) -> (r: Vec<Vec<char>>)
    ensures
        views(r@) == pieces(s@, sep),
{
    let mut done: Vec<Vec<char>> = Vec::new();
    let mut cur: Vec<char> = Vec::new();
    let mut i: usize = 0;
    while i < s.len()
        invariant
            i <= s@.len(),
            (views(done@), cur@) == split_state(s@.take(i as int), sep),
        decreases s.len() - i,
    {
        assert(s@.take(i + 1).drop_last() =~= s@.take(i as int));
        let c = s[i];
        if c == sep {
            if cur.len() > 0 {
                let ghost old_done = done@;
                done.push(cur);
                assert(views(done@) =~= views(old_done).push(cur@));
            }
            cur = Vec::new();
            assert(cur@ =~= Seq::<char>::empty());
        } else {
            cur.push(c);
        }
        i += 1;
    }
    assert(s@.take(s@.len() as int) =~= s@);
    if cur.len() > 0 {
        let ghost old_done = done@;
        done.push(cur);
        assert(views(done@) =~= views(old_done).push(cur@));
    }
    done
}

/// `parts.join(sep)`.
pub open spec fn join(parts: Seq<Seq<char>>, sep: Seq<char>) -> Seq<char>
    decreases parts.len(),
{
    if parts.len() == 0 {
        seq![]
    } else if parts.len() == 1 {
        parts[0]
    } else {
        join(parts.drop_last(), sep) + sep + parts.last()
    }
}

pub fn join_exec(parts: &Vec<Vec<char>>, sep: &[char]) -> (r: Vec<char>)
    ensures
        r@ == join(views(parts@), sep@),
{
    let mut out: Vec<char> = Vec::new();
    let mut i: usize = 0;
    while i < parts.len()
        invariant
            i <= parts@.len(),
            out@ == join(views(parts@).take(i as int), sep@),
        decreases parts.len() - i,
    {
        assert(views(parts@).take(i + 1).drop_last() =~= views(parts@).take(i as int));
        if i > 0 {
            push_all(&mut out, sep);
        }
        push_all(&mut out, &parts[i]);
        i += 1;
    }
    assert(views(parts@).take(parts@.len() as int) =~= views(parts@));
    out
}

/// Reading `s` left to right and cutting at every white-space character: the words finished so
/// far and the word still being read.
pub open spec fn words_state(s: Seq<char>) -> (Seq<Seq<char>>, Seq<char>)
    decreases s.len(),
{
    if s.len() == 0 {
        (seq![], seq![])
    } else {
        let (done, cur) = words_state(s.drop_last());
        if is_ws(s.last()) {
            (
                if cur.len() > 0 {
                    done.push(cur)
                } else {
                    done
                },
                seq![],
            )
        } else {
            (done, cur.push(s.last()))
        }
    }
}

/// `s.split_whitespace()`.
pub open spec fn words(s: Seq<char>) -> Seq<Seq<char>> {
    let (done, cur) = words_state(s);
    if cur.len() > 0 {
        done.push(cur)
    } else {
        done
    }
}

/// The words of `s`, one space between each.
pub open spec fn collapse_ws(s: Seq<char>) -> Seq<char> {
    join(words(s), seq![' '])
}

pub fn words_exec(s: &[char]) -> (r: Vec<Vec<char>>)
    ensures
        views(r@) == words(s@),
{
    let mut done: Vec<Vec<char>> = Vec::new();
    let mut cur: Vec<char> = Vec::new();
    let mut i: usize = 0;
    while i < s.len()
        invariant
            i <= s@.len(),
            (views(done@), cur@) == words_state(s@.take(i as int)),
        decreases s.len() - i,
    {
        assert(s@.take(i + 1).drop_last() =~= s@.take(i as int));
        let c = s[i];
        if is_whitespace(c) {
            if cur.len() > 0 {
                let ghost old_done = done@;
                done.push(cur);
                assert(views(done@) =~= views(old_done).push(cur@));
            }
            cur = Vec::new();
            assert(cur@ =~= Seq::<char>::empty());
        } else {
            cur.push(c);
        }
        i += 1;
    }
    assert(s@.take(s@.len() as int) =~= s@);
    if cur.len() > 0 {
        let ghost old_done = done@;
        done.push(cur);
        assert(views(done@) =~= views(old_done).push(cur@));
    }
    done
}

pub fn collapse_ws_exec(s: &[char]) -> (r: Vec<char>)
    ensures
        r@ == collapse_ws(s@),
{
    let w = words_exec(s);
    let mut space: Vec<char> = Vec::new();
    space.push(' ');
    assert(space@ =~= seq![' ']);
    join_exec(&w, &space)
}

/// The views of a run of `String`s.
pub open spec fn views_of_strings(v: Seq<String>) -> Seq<Seq<char>> {
    Seq::new(v.len(), |i: int| v[i]@)
}

/// Each run of `char`s as a `String`.
pub fn strings_of(v: &Vec<Vec<char>>) -> (r: Vec<String>)
    ensures
        views_of_strings(r@) == views(v@),
{
    let mut out: Vec<String> = Vec::new();
    let mut i: usize = 0;
    while i < v.len()
        invariant
            i <= v@.len(),
            views_of_strings(out@) == views(v@).take(i as int),
        decreases v.len() - i,
    {
        let ghost before = out@;
        let s = string_of(&v[i]);
        out.push(s);
        assert(views_of_strings(out@) =~= views_of_strings(before).push(v@[i as int]@));
        assert(views(v@).take(i + 1) =~= views(v@).take(i as int).push(v@[i as int]@));
        i += 1;
    }
    assert(views(v@).take(v@.len() as int) =~= views(v@));
    out
}

/// The characters of each string.
pub fn chars_of_strings(v: &Vec<String>) -> (r: Vec<Vec<char>>)
    ensures
        views(r@) == views_of_strings(v@),
{
    let mut out: Vec<Vec<char>> = Vec::new();
    let mut i: usize = 0;
    while i < v.len()
        invariant
            i <= v@.len(),
            views(out@) == views_of_strings(v@).take(i as int),
        decreases v.len() - i,
    {
        let ghost before = out@;
        let c = chars_of(v[i].as_str());
        out.push(c);
        assert(views(out@) =~= views(before).push(v@[i as int]@));
        assert(views_of_strings(v@).take(i + 1) =~= views_of_strings(v@).take(i as int).push(
            v@[i as int]@,
        ));
        i += 1;
    }
    assert(views_of_strings(v@).take(v@.len() as int) =~= views_of_strings(v@));
    out
}

/// Appends a copy of each of `more` to `out`.
pub fn append_copies(out: &mut Vec<Vec<char>>, more: &Vec<Vec<char>>)
    ensures
        views(final(out)@) == views(old(out)@) + views(more@),
{
    let mut k: usize = 0;
    while k < more.len()
        invariant
            k <= more@.len(),
            views(out@) == views(old(out)@) + views(more@).take(k as int),
        decreases more.len() - k,
    {
        let ghost before = out@;
        let copy = slice_of(&more[k], 0, more[k].len());
        assert(copy@ =~= more@[k as int]@);
        out.push(copy);
        assert(views(out@) =~= views(before).push(more@[k as int]@));
        assert(views(more@).take(k + 1) =~= views(more@).take(k as int).push(more@[k as int]@));
        k += 1;
    }
    assert(views(more@).take(more@.len() as int) =~= views(more@));
}


/// Reading `s` left to right and ending a line at every `\n`: the lines finished so far, each
/// without its `\n` and without a `\r` just before it, and the line still being read.
pub open spec fn lines_state(s: Seq<char>) -> (Seq<Seq<char>>, Seq<char>)
    decreases s.len(),
{
    if s.len() == 0 {
        (seq![], seq![])
    } else {
        let (done, cur) = lines_state(s.drop_last());
        if s.last() == '\n' {
            (
                done.push(
                    if cur.len() > 0 && cur.last() == '\r' {
                        cur.drop_last()
                    } else {
                        cur
                    },
                ),
                seq![],
            )
        } else {
            (done, cur.push(s.last()))
        }
    }
}

/// `str::lines`: the lines of `s`, each without its `\n` or `\r\n`; a last line with no `\n`
/// counts when it is not empty, and keeps a `\r` it ends with.
pub open spec fn lines(s: Seq<char>) -> Seq<Seq<char>> {
    let (done, cur) = lines_state(s);
    if cur.len() > 0 {
        done.push(cur)
    } else {
        done
    }
}

pub fn lines_exec(s: &[char]) -> (r: Vec<Vec<char>>)
    ensures
        views(r@) == lines(s@),
{
    let mut done: Vec<Vec<char>> = Vec::new();
    let mut cur: Vec<char> = Vec::new();
    let mut i: usize = 0;
    while i < s.len()
        invariant
            i <= s@.len(),
            (views(done@), cur@) == lines_state(s@.take(i as int)),
        decreases s.len() - i,
    {
        assert(s@.take(i + 1).drop_last() =~= s@.take(i as int));
        let c = s[i];
        if c == '\n' {
            let line = if cur.len() > 0 && cur[cur.len() - 1] == '\r' {
                let l = slice_of(&cur, 0, cur.len() - 1);
                assert(l@ =~= cur@.drop_last());
                l
            } else {
                cur
            };
            let ghost old_done = done@;
            done.push(line);
            assert(views(done@) =~= views(old_done).push(line@));
            cur = Vec::new();
            assert(cur@ =~= Seq::<char>::empty());
        } else {
            cur.push(c);
        }
        i += 1;
    }
    assert(s@.take(s@.len() as int) =~= s@);
    if cur.len() > 0 {
        let ghost old_done = done@;
        done.push(cur);
        assert(views(done@) =~= views(old_done).push(cur@));
    }
    done
}

} // verus!
