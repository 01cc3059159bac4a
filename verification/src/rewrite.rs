//! Rewrites a file from the library's `src/components/` so it compiles inside another crate.
//!
//! Imports are nested trees (`use crate::{cn, components::button::…, primitives::…}`), so
//! `crate::components::` is not a substring of what has to change. Each `use` is flattened to one
//! full path per line, rewritten, and printed back; everything between the imports has its paths
//! redirected in place.

use crate::order::{sorted_set, sort_seq, sort_strings, sorted_set_of, strictly_sorted};
use crate::text::{
    agrees, lemma_replace_makes_no, occurs_at, append_copies, chars_of, contains, collapse_ws, collapse_ws_exec, ends_with, ends_with_exec, find, find_exec,
    find_from, find_from_exec, index_of_from, index_of_from_exec, join, join_exec, lead_ws,
    lemma_find, lemma_find_from, lemma_index_of_from, lemma_lead_ws, lemma_trail_ws, push_all,
    replace_all, replace_exec, same, slice_of, starts_with, starts_with_exec, string_of,
    strings_of, trail_ws, trim, trim_exec, trim_start, views, views_of_strings,
};
use crate::site::is_ascii_alnum;
use vstd::prelude::*;

verus! {

/// Whether `c`, a `char` beyond ASCII, has the Unicode `Alphabetic` or `Numeric` property, which
/// is what `char::is_alphanumeric` answers.
pub uninterp spec fn is_alphanumeric_char(c: char) -> bool;

/// What `char::is_alphanumeric` answers: for ASCII, exactly the letters and digits.
pub open spec fn alnum(c: char) -> bool {
    if (c as u32) < 128 {
        is_ascii_alnum(c)
    } else {
        is_alphanumeric_char(c)
    }
}

/// `char::is_alphanumeric`: the contract claims that an ASCII `char` is alphanumeric exactly
/// when it is a letter or a digit, and that beyond ASCII the answer is a function of the `char`,
/// named `is_alphanumeric_char`; the Unicode tables behind that are not written out here.
pub assume_specification[ char::is_alphanumeric ](c: char) -> (r: bool)
    ensures
        r == if (c as u32) < 128 {
            ('0' <= c && c <= '9') || ('a' <= c && c <= 'z') || ('A' <= c && c <= 'Z')
        } else {
            is_alphanumeric_char(c)
        },
;

pub proof fn lemma_trim_len(s: Seq<char>)
    ensures
        trim(s).len() <= s.len(),
{
    lemma_lead_ws(s, 0);
    let t = trim_start(s);
    lemma_trail_ws(t, t.len() as int);
}

// ---------------------------------------------------------------------------------------------
// Flattening a `use` tree
// ---------------------------------------------------------------------------------------------

/// The paths of the tree `body` from position `i` on, each behind `prefix`: the item being read
/// started at `start`, and `depth` braces are open.
pub open spec fn flatten_at(
    body: Seq<char>,
    prefix: Seq<char>,
    i: int,
    depth: nat,
    start: int,
) -> Seq<Seq<char>>
    decreases body.len(), 1int, body.len() - i,
{
    if !(0 <= start <= i <= body.len()) {
        seq![]
    } else if i == body.len() {
        expand(body.subrange(start, i), prefix)
    } else {
        let c = body[i];
        if c == '{' {
            flatten_at(body, prefix, i + 1, depth + 1, start)
        } else if c == '}' {
            flatten_at(
                body,
                prefix,
                i + 1,
                if depth == 0 {
                    0
                } else {
                    (depth - 1) as nat
                },
                start,
            )
        } else if c == ',' && depth == 0 {
            expand(body.subrange(start, i), prefix) + flatten_at(body, prefix, i + 1, 0, i + 1)
        } else {
            flatten_at(body, prefix, i + 1, depth, start)
        }
    }
}

/// `a::{b, c::{d, e}}` is `a::b`, `a::c::d`, `a::c::e`: the items of `body` split at the commas
/// outside any braces, each expanded behind `prefix`.
pub open spec fn flatten(body: Seq<char>, prefix: Seq<char>) -> Seq<Seq<char>> {
    flatten_at(body, prefix, 0, 0, 0)
}

/// One item of a tree behind `prefix`: nothing when it is blank, the tree after its first `{`
/// (one closing `}` dropped) behind `prefix` and the trimmed head when it has one, and otherwise
/// `prefix` and the item with its white space collapsed to single spaces.
pub open spec fn expand(item: Seq<char>, prefix: Seq<char>) -> Seq<Seq<char>>
    decreases item.len(), 0int, 0int,
{
    let t = trim(item);
    if t.len() == 0 {
        seq![]
    } else {
        let k = index_of_from(t, '{', 0);
        if k < t.len() {
            let head = t.take(k);
            let rest = t.skip(k + 1);
            let inner = if ends_with(rest, seq!['}']) {
                rest.drop_last()
            } else {
                rest
            };
            proof {
                lemma_trim_len(item);
                lemma_index_of_from(t, '{', 0);
            }
            flatten_at(inner, prefix + trim(head), 0, 0, 0)
        } else {
            seq![prefix + collapse_ws(t)]
        }
    }
}

fn append_all(out: &mut Vec<Vec<char>>, more: Vec<Vec<char>>)
    ensures
        views(final(out)@) == views(old(out)@) + views(more@),
{
    let ghost before = out@;
    let mut more = more;
    let ghost m = more@;
    out.append(&mut more);
    assert(views(out@) =~= views(before) + views(m));
}

#[verifier::rlimit(40)]
fn flatten_exec(body: &[char], prefix: &[char]) -> (out: Vec<Vec<char>>)
    ensures
        views(out@) == flatten(body@, prefix@),
    decreases body@.len(), 1int,
{
    let mut out: Vec<Vec<char>> = Vec::new();
    let mut depth: usize = 0;
    let mut start: usize = 0;
    let mut current: Vec<char> = Vec::new();
    let mut i: usize = 0;
    assert(current@ =~= body@.subrange(0, 0));
    while i < body.len()
        invariant
            start <= i <= body@.len(),
            depth <= i,
            current@ == body@.subrange(start as int, i as int),
            views(out@) + flatten_at(body@, prefix@, i as int, depth as nat, start as int)
                == flatten(body@, prefix@),
        decreases body.len() - i,
    {
        let c = body[i];
        if c == '{' {
            depth += 1;
            current.push(c);
        } else if c == '}' {
            depth = if depth == 0 {
                0
            } else {
                depth - 1
            };
            current.push(c);
        } else if c == ',' && depth == 0 {
            let piece = expand_exec(&current, prefix);
            let ghost before = out@;
            append_all(&mut out, piece);
            assert(views(before) + views(piece@) + flatten_at(
                body@,
                prefix@,
                i + 1,
                0,
                i + 1,
            ) =~= views(before) + (views(piece@) + flatten_at(body@, prefix@, i + 1, 0, i + 1)));
            current = Vec::new();
            start = i + 1;
        } else {
            current.push(c);
        }
        assert(current@ =~= body@.subrange(start as int, i + 1));
        i += 1;
    }
    let piece = expand_exec(&current, prefix);
    append_all(&mut out, piece);
    out
}

#[verifier::rlimit(40)]
fn expand_exec(item: &[char], prefix: &[char]) -> (out: Vec<Vec<char>>)
    ensures
        views(out@) == expand(item@, prefix@),
    decreases item@.len(), 0int,
{
    let t = trim_exec(item);
    if t.len() == 0 {
        let out: Vec<Vec<char>> = Vec::new();
        assert(views(out@) =~= Seq::<Seq<char>>::empty());
        return out;
    }
    let k = index_of_from_exec(&t, '{', 0);
    proof {
        lemma_trim_len(item@);
        lemma_index_of_from(t@, '{', 0);
    }
    if k < t.len() {
        let head = slice_of(&t, 0, k);
        let rest = slice_of(&t, k + 1, t.len());
        assert(head@ =~= t@.take(k as int));
        assert(rest@ =~= t@.skip(k + 1));
        let mut close: Vec<char> = Vec::new();
        close.push('}');
        assert(close@ =~= seq!['}']);
        let inner = if ends_with_exec(&rest, &close) {
            let r = slice_of(&rest, 0, rest.len() - 1);
            assert(r@ =~= rest@.drop_last());
            r
        } else {
            rest
        };
        let mut next_prefix: Vec<char> = Vec::new();
        push_all(&mut next_prefix, prefix);
        let trimmed_head = trim_exec(&head);
        push_all(&mut next_prefix, &trimmed_head);
        flatten_exec(&inner, &next_prefix)
    } else {
        let mut leaf: Vec<char> = Vec::new();
        push_all(&mut leaf, prefix);
        let collapsed = collapse_ws_exec(&t);
        push_all(&mut leaf, &collapsed);
        let mut out: Vec<Vec<char>> = Vec::new();
        out.push(leaf);
        assert(views(out@) =~= seq![prefix@ + collapse_ws(t@)]);
        out
    }
}

// ---------------------------------------------------------------------------------------------
// Finding the `use` statements
// ---------------------------------------------------------------------------------------------

/// Where the statement whose body starts at `i` ends: the first `;` outside braces, or the end
/// of the text. `depth` braces are open at `i`; a `}` with none open closes nothing.
pub open spec fn statement_end(s: Seq<char>, i: int, depth: nat) -> int
    decreases s.len() - i,
{
    if i < 0 || i >= s.len() {
        s.len() as int
    } else if s[i] == ';' && depth == 0 {
        i
    } else if s[i] == '{' {
        statement_end(s, i + 1, depth + 1)
    } else if s[i] == '}' {
        statement_end(
            s,
            i + 1,
            if depth == 0 {
                0
            } else {
                (depth - 1) as nat
            },
        )
    } else {
        statement_end(s, i + 1, depth)
    }
}

pub proof fn lemma_statement_end(s: Seq<char>, i: int, depth: nat)
    requires
        0 <= i <= s.len(),
    ensures
        i <= statement_end(s, i, depth) <= s.len(),
    decreases s.len() - i,
{
    if i < s.len() && !(s[i] == ';' && depth == 0) {
        if s[i] == '{' {
            lemma_statement_end(s, i + 1, depth + 1);
        } else if s[i] == '}' {
            lemma_statement_end(
                s,
                i + 1,
                if depth == 0 {
                    0
                } else {
                    (depth - 1) as nat
                },
            );
        } else {
            lemma_statement_end(s, i + 1, depth);
        }
    }
}

/// One `use` statement of a text, by position: where it starts (after its indentation), where it
/// ends (after its `;`), whether it is `pub use`, and where its tree starts and stops.
pub struct UseSpan {
    pub start: usize,
    pub end: usize,
    pub is_pub: bool,
    pub body_start: usize,
    pub semi: usize,
}

/// Where the line of `s` that starts at `pos` ends: its `\n`, or the end of the text.
pub open spec fn line_end(s: Seq<char>, pos: int) -> int {
    index_of_from(s, '\n', pos)
}

/// The line starting at `pos` with its indentation taken off.
pub open spec fn line_text(s: Seq<char>, pos: int) -> Seq<char> {
    let line = s.subrange(pos, line_end(s, pos));
    line.skip(lead_ws(line, 0))
}

/// Where the text after the indentation of the line at `pos` starts.
pub open spec fn line_indent(s: Seq<char>, pos: int) -> int {
    lead_ws(s.subrange(pos, line_end(s, pos)), 0)
}

/// How long the keyword is that opens a `use` statement on the line at `pos`, if one does.
pub open spec fn use_keyword(s: Seq<char>, pos: int) -> Option<int> {
    let t = line_text(s, pos);
    if starts_with(t, "pub use "@) {
        Some("pub use "@.len() as int)
    } else if starts_with(t, "use "@) {
        Some("use "@.len() as int)
    } else {
        None
    }
}

pub proof fn lemma_line(s: Seq<char>, pos: int)
    requires
        0 <= pos < s.len(),
    ensures
        pos <= line_end(s, pos) <= s.len(),
        0 <= line_indent(s, pos) <= line_end(s, pos) - pos,
        line_text(s, pos) == s.subrange(pos + line_indent(s, pos), line_end(s, pos)),
        use_keyword(s, pos) matches Some(k) ==> pos + line_indent(s, pos) + k <= line_end(s, pos),
{
    lemma_index_of_from(s, '\n', pos);
    let line = s.subrange(pos, line_end(s, pos));
    lemma_lead_ws(line, 0);
    assert(line_text(s, pos) =~= s.subrange(pos + line_indent(s, pos), line_end(s, pos)));
}

/// The statements of `s` found by reading it from `pos`. A statement starts at a line whose first
/// non-blank characters are `pub use ` or `use `, and runs to its `;`; reading goes on after the
/// `;`, or after the line when it held no statement.
pub open spec fn uses_from(s: Seq<char>, pos: int) -> Seq<UseSpan>
    decreases s.len() + 1 - pos,
{
    if pos < 0 || pos >= s.len() {
        seq![]
    } else {
        proof {
            lemma_line(s, pos);
        }
        let indent = line_indent(s, pos);
        match use_keyword(s, pos) {
            Some(kw) => {
                let body_start = pos + indent + kw;
                proof {
                    lemma_statement_end(s, body_start, 0);
                }
                let semi = statement_end(s, body_start, 0);
                let end = if semi + 1 < s.len() {
                    semi + 1
                } else {
                    s.len() as int
                };
                seq![
                    UseSpan {
                        start: (pos + indent) as usize,
                        end: end as usize,
                        is_pub: starts_with(line_text(s, pos), "pub use "@),
                        body_start: body_start as usize,
                        semi: semi as usize,
                    },
                ] + uses_from(s, semi + 1)
            },
            None => uses_from(s, line_end(s, pos) + 1),
        }
    }
}

/// Every statement of `s`.
pub open spec fn uses_of(s: Seq<char>) -> Seq<UseSpan> {
    uses_from(s, 0)
}

/// The statements lie in order inside `[from, n]`, each after the one before it.
pub open spec fn spans_wf(sp: Seq<UseSpan>, from: int, n: int) -> bool
    decreases sp.len(),
{
    sp.len() == 0 || {
        &&& from <= sp[0].start <= sp[0].body_start <= sp[0].semi <= n
        &&& sp[0].start <= sp[0].end <= n
        &&& spans_wf(sp.drop_first(), sp[0].end as int, n)
    }
}

proof fn lemma_spans_wf_weaken(sp: Seq<UseSpan>, a: int, b: int, n: int)
    requires
        spans_wf(sp, a, n),
        b <= a,
    ensures
        spans_wf(sp, b, n),
{
}

#[verifier::rlimit(40)]
pub proof fn lemma_uses_wf(s: Seq<char>, pos: int)
    requires
        0 <= pos,
        s.len() <= usize::MAX,
    ensures
        spans_wf(uses_from(s, pos), pos, s.len() as int),
    decreases s.len() + 1 - pos,
{
    if pos < s.len() {
        lemma_line(s, pos);
        let indent = line_indent(s, pos);
        match use_keyword(s, pos) {
            Some(kw) => {
                let body_start = pos + indent + kw;
                lemma_statement_end(s, body_start, 0);
                let semi = statement_end(s, body_start, 0);
                lemma_uses_wf(s, semi + 1);
                let sp = uses_from(s, pos);
                assert(sp.drop_first() =~= uses_from(s, semi + 1));
                lemma_spans_wf_weaken(
                    uses_from(s, semi + 1),
                    semi + 1,
                    sp[0].end as int,
                    s.len() as int,
                );
            },
            None => {
                lemma_uses_wf(s, line_end(s, pos) + 1);
                lemma_spans_wf_weaken(
                    uses_from(s, line_end(s, pos) + 1),
                    line_end(s, pos) + 1,
                    pos,
                    s.len() as int,
                );
            },
        }
    }
}

/// A statement found in a text, with the paths its tree flattens to.
pub struct UseStatement {
    pub span: UseSpan,
    pub paths: Vec<Vec<char>>,
}

/// The paths the statement `u` of `s` brings in.
pub open spec fn paths_of(s: Seq<char>, u: UseSpan) -> Seq<Seq<char>> {
    flatten(s.subrange(u.body_start as int, u.semi as int), seq![])
}

pub open spec fn spans_of(v: Seq<UseStatement>) -> Seq<UseSpan> {
    Seq::new(v.len(), |i: int| v[i].span)
}

#[verifier::rlimit(40)]
fn find_uses(s: &[char]) -> (out: Vec<UseStatement>)
    ensures
        spans_of(out@) == uses_of(s@),
        forall|k: int| 0 <= k < out@.len() ==> #[trigger] views(out@[k].paths@) == paths_of(s@, out@[k].span),
{
    let mut out: Vec<UseStatement> = Vec::new();
    let mut line_start: usize = 0;
    let pub_use = chars_of("pub use ");
    let use_kw = chars_of("use ");
    while line_start < s.len()
        invariant
            line_start <= s@.len(),
            pub_use@ == "pub use "@,
            use_kw@ == "use "@,
            spans_of(out@) + uses_from(s@, line_start as int) == uses_of(s@),
            forall|k: int| 0 <= k < out@.len() ==> #[trigger] views(out@[k].paths@) == paths_of(s@, out@[k].span),
        decreases s.len() - line_start,
    {
        let le = index_of_from_exec(s, '\n', line_start);
        proof {
            lemma_index_of_from(s@, '\n', line_start as int);
            lemma_line(s@, line_start as int);
        }
        let line = slice_of(s, line_start, le);
        let indent = crate::text::lead_ws_exec(&line);
        proof {
            lemma_lead_ws(line@, 0);
        }
        let t = slice_of(&line, indent, line.len());
        assert(t@ =~= line_text(s@, line_start as int));
        let is_pub = starts_with_exec(&t, &pub_use);
        let is_use = is_pub || starts_with_exec(&t, &use_kw);
        if !is_use {
            let ghost at = line_start;
            if le < s.len() {
                line_start = le + 1;
            } else {
                line_start = s.len();
                assert(uses_from(s@, le + 1) =~= Seq::<UseSpan>::empty());
            }
            assert(uses_from(s@, at as int) == uses_from(s@, line_start as int));
            continue;
        }
        let kw = if is_pub {
            pub_use.len()
        } else {
            use_kw.len()
        };
        let body_start = line_start + indent + kw;
        let mut depth: usize = 0;
        let mut i = body_start;
        proof {
            lemma_statement_end(s@, body_start as int, 0);
        }
        while i < s.len()
            invariant
                body_start <= i <= s@.len(),
                depth <= i,
                statement_end(s@, i as int, depth as nat) == statement_end(
                    s@,
                    body_start as int,
                    0,
                ),
            ensures
                i == statement_end(s@, body_start as int, 0),
            decreases s.len() - i,
        {
            let c = s[i];
            if c == ';' && depth == 0 {
                break;
            }
            if c == '{' {
                depth += 1;
            } else if c == '}' {
                depth = if depth == 0 {
                    0
                } else {
                    depth - 1
                };
            }
            i += 1;
        }
        let semi = i;
        let end = if semi < s.len() && semi + 1 < s.len() {
            semi + 1
        } else {
            s.len()
        };
        let body = slice_of(s, body_start, semi);
        let empty: Vec<char> = Vec::new();
        let paths = flatten_exec(&body, &empty);
        assert(empty@ =~= Seq::<char>::empty());
        let span = UseSpan { start: line_start + indent, end, is_pub, body_start, semi };
        let ghost at = line_start;
        let ghost before = out@;
        let ghost flat = views(paths@);
        assert(flat == paths_of(s@, span));
        out.push(UseStatement { span, paths });
        proof {
            assert(spans_of(out@) =~= spans_of(before).push(span));
            assert forall|k: int| 0 <= k < out@.len() implies #[trigger] views(out@[k].paths@)
                == paths_of(s@, out@[k].span) by {
                if k < before.len() {
                    assert(out@[k] == before[k]);
                } else {
                    assert(out@[k].span == span);
                    assert(views(out@[k].paths@) == flat);
                }
            }
        }
        if semi < s.len() {
            line_start = semi + 1;
        } else {
            line_start = s.len();
            assert(uses_from(s@, semi + 1) =~= Seq::<UseSpan>::empty());
        }
        proof {
            let rest = uses_from(s@, at as int);
            assert(rest =~= seq![span] + uses_from(s@, line_start as int));
            assert(spans_of(before) + rest =~= spans_of(out@) + uses_from(s@, line_start as int));
        }
    }
    out
}


proof fn lemma_span_at(sp: Seq<UseSpan>, from: int, n: int, i: int)
    requires
        spans_wf(sp, from, n),
        0 <= i < sp.len(),
    ensures
        i == 0 ==> from <= sp[i].start,
        i > 0 ==> sp[i - 1].end <= sp[i].start,
        sp[i].start <= sp[i].body_start <= sp[i].semi <= n,
        sp[i].start <= sp[i].end <= n,
    decreases i,
{
    if i > 0 {
        lemma_span_at(sp.drop_first(), sp[0].end as int, n, i - 1);
        assert(sp.drop_first()[i - 1] == sp[i]);
        if i > 1 {
            assert(sp.drop_first()[i - 2] == sp[i - 1]);
        }
    }
}

// ---------------------------------------------------------------------------------------------
// Redirecting paths
// ---------------------------------------------------------------------------------------------

/// Where one flattened import points once the file lives in the project: the library's own
/// components under the project's module, the rest of the library under `nocomponents`, and
/// `leptos_node_ref` through the library's re-export of it. Anything else is left as it is.
pub open spec fn rewrite_path_of(path: Seq<char>, rust_path: Seq<char>) -> Seq<char> {
    if starts_with(path, "crate::components::"@) {
        rust_path + "::"@ + path.skip("crate::components::"@.len() as int)
    } else if starts_with(path, "crate::"@) {
        "nocomponents::"@ + path.skip("crate::"@.len() as int)
    } else if path == "leptos_node_ref"@ || starts_with(path, "leptos_node_ref::"@) {
        "nocomponents::deps::"@ + path
    } else {
        path
    }
}

fn rewrite_path(path: &[char], rust_path: &[char]) -> (r: Vec<char>)
    ensures
        r@ == rewrite_path_of(path@, rust_path@),
{
    let components = chars_of("crate::components::");
    let krate = chars_of("crate::");
    let node_ref = chars_of("leptos_node_ref");
    let node_ref_path = chars_of("leptos_node_ref::");
    let mut out: Vec<char> = Vec::new();
    if starts_with_exec(path, &components) {
        push_all(&mut out, rust_path);
        push_all(&mut out, &chars_of("::"));
        let rest = slice_of(path, components.len(), path.len());
        assert(rest@ =~= path@.skip(components@.len() as int));
        push_all(&mut out, &rest);
    } else if starts_with_exec(path, &krate) {
        push_all(&mut out, &chars_of("nocomponents::"));
        let rest = slice_of(path, krate.len(), path.len());
        assert(rest@ =~= path@.skip(krate@.len() as int));
        push_all(&mut out, &rest);
    } else if same(path, &node_ref) || starts_with_exec(path, &node_ref_path) {
        push_all(&mut out, &chars_of("nocomponents::deps::"));
        push_all(&mut out, path);
    } else {
        push_all(&mut out, path);
    }
    out
}

/// A stretch of source between imports, with every path into the library redirected in place:
/// `crate::components::` to the project's module, the primitives, icons and utilities to
/// `nocomponents`, and `js_sys` through the library's re-export of it.
pub open spec fn rewrite_body_of(body: Seq<char>, rust_path: Seq<char>) -> Seq<char> {
    let a = replace_all(body, "crate::components::"@, rust_path + "::"@);
    let b = replace_all(a, "crate::primitives::"@, "nocomponents::primitives::"@);
    let c = replace_all(b, "crate::icons::"@, "nocomponents::icons::"@);
    let d = replace_all(c, "crate::utils::"@, "nocomponents::utils::"@);
    replace_all(d, "js_sys::"@, "nocomponents::deps::js_sys::"@)
}

fn rewrite_body(body: &[char], rust_path: &[char]) -> (r: Vec<char>)
    ensures
        r@ == rewrite_body_of(body@, rust_path@),
{
    proof {
        reveal_strlit("crate::components::");
        reveal_strlit("crate::primitives::");
        reveal_strlit("crate::icons::");
        reveal_strlit("crate::utils::");
        reveal_strlit("js_sys::");
    }
    let mut module = Vec::new();
    push_all(&mut module, rust_path);
    push_all(&mut module, &chars_of("::"));
    let a = replace_exec(body, &chars_of("crate::components::"), &module);
    let b = replace_exec(&a, &chars_of("crate::primitives::"), &chars_of("nocomponents::primitives::"));
    let c = replace_exec(&b, &chars_of("crate::icons::"), &chars_of("nocomponents::icons::"));
    let d = replace_exec(&c, &chars_of("crate::utils::"), &chars_of("nocomponents::utils::"));
    replace_exec(&d, &chars_of("js_sys::"), &chars_of("nocomponents::deps::js_sys::"))
}

// ---------------------------------------------------------------------------------------------
// Printing the imports back
// ---------------------------------------------------------------------------------------------

/// One flattened import printed back as a statement of its own.
pub open spec fn use_line(path: Seq<char>, is_pub: bool, rust_path: Seq<char>) -> Seq<char> {
    (if is_pub {
        "pub use "@
    } else {
        "use "@
    }) + rewrite_path_of(path, rust_path) + ";"@
}

pub open spec fn use_lines(paths: Seq<Seq<char>>, is_pub: bool, rust_path: Seq<char>) -> Seq<
    Seq<char>,
> {
    Seq::new(paths.len(), |k: int| use_line(paths[k], is_pub, rust_path))
}

/// What the statement `u` of `s` becomes: one line per path, sorted, one under the other.
pub open spec fn use_block(s: Seq<char>, u: UseSpan, rust_path: Seq<char>) -> Seq<char> {
    join(sort_seq(use_lines(paths_of(s, u), u.is_pub, rust_path)), "\n"@)
}

fn use_lines_exec(paths: &Vec<Vec<char>>, is_pub: bool, rust_path: &[char]) -> (r: Vec<Vec<char>>)
    ensures
        views(r@) == use_lines(views(paths@), is_pub, rust_path@),
{
    let keyword = if is_pub {
        chars_of("pub use ")
    } else {
        chars_of("use ")
    };
    let semi = chars_of(";");
    let mut out: Vec<Vec<char>> = Vec::new();
    let mut k: usize = 0;
    while k < paths.len()
        invariant
            k <= paths@.len(),
            keyword@ == (if is_pub {
                "pub use "@
            } else {
                "use "@
            }),
            semi@ == ";"@,
            views(out@) == use_lines(views(paths@), is_pub, rust_path@).take(k as int),
        decreases paths.len() - k,
    {
        let mut line: Vec<char> = Vec::new();
        push_all(&mut line, &keyword);
        let target = rewrite_path(&paths[k], rust_path);
        push_all(&mut line, &target);
        push_all(&mut line, &semi);
        let ghost before = out@;
        out.push(line);
        assert(views(out@) =~= views(before).push(line@));
        assert(use_lines(views(paths@), is_pub, rust_path@).take(k + 1) =~= use_lines(
            views(paths@),
            is_pub,
            rust_path@,
        ).take(k as int).push(line@));
        k += 1;
    }
    assert(use_lines(views(paths@), is_pub, rust_path@).take(paths@.len() as int) =~= use_lines(
        views(paths@),
        is_pub,
        rust_path@,
    ));
    out
}

/// The source put back together from position `cursor` on, the statements `sp[i..]` still to
/// come: the stretches between them redirected, each statement replaced by its block.
pub open spec fn assemble(
    s: Seq<char>,
    sp: Seq<UseSpan>,
    i: int,
    cursor: int,
    rust_path: Seq<char>,
) -> Seq<char>
    decreases sp.len() - i,
{
    if i < 0 || i >= sp.len() {
        rewrite_body_of(s.subrange(cursor, s.len() as int), rust_path)
    } else {
        rewrite_body_of(s.subrange(cursor, sp[i].start as int), rust_path) + use_block(
            s,
            sp[i],
            rust_path,
        ) + assemble(s, sp, i + 1, sp[i].end as int, rust_path)
    }
}

/// The file as it is written into the project.
pub open spec fn rewritten_source(s: Seq<char>, rust_path: Seq<char>) -> Seq<char> {
    assemble(s, uses_of(s), 0, 0, rust_path)
}

// ---------------------------------------------------------------------------------------------
// What a file depends on
// ---------------------------------------------------------------------------------------------

/// Where the identifier starting at `j` ends: letters, digits and `_`.
pub open spec fn ident_end(s: Seq<char>, j: int) -> int
    decreases s.len() - j,
{
    if 0 <= j < s.len() && (alnum(s[j]) || s[j] == '_') {
        ident_end(s, j + 1)
    } else {
        j
    }
}

proof fn lemma_ident_end(s: Seq<char>, j: int)
    requires
        0 <= j <= s.len(),
    ensures
        j <= ident_end(s, j) <= s.len(),
    decreases s.len() - j,
{
    if j < s.len() && (alnum(s[j]) || s[j] == '_') {
        lemma_ident_end(s, j + 1);
    }
}

/// Each place at or after `pos` where `prefix` is written in `s`, as `prefix` and the identifier
/// right after it: the paths that source names outside its imports.
pub open spec fn inline_from(s: Seq<char>, prefix: Seq<char>, pos: int) -> Seq<Seq<char>>
    decreases s.len() + 1 - pos,
{
    if prefix.len() == 0 || pos < 0 {
        seq![]
    } else {
        match find_from(s, prefix, pos) {
            Some(i) => {
                proof {
                    lemma_find_from(s, prefix, pos);
                }
                let start = i + prefix.len();
                seq![prefix + s.subrange(start, ident_end(s, start))] + inline_from(
                    s,
                    prefix,
                    start,
                )
            },
            None => seq![],
        }
    }
}

/// The library paths written in expression position, components first and icons after.
pub open spec fn inline_paths_of(s: Seq<char>) -> Seq<Seq<char>> {
    inline_from(s, "crate::components::"@, 0) + inline_from(s, "crate::icons::"@, 0)
}

fn inline_from_exec(s: &[char], prefix: &[char], out: &mut Vec<Vec<char>>)
    requires
        prefix@.len() > 0,
    ensures
        views(final(out)@) == views(old(out)@) + inline_from(s@, prefix@, 0),
{
    let mut pos: usize = 0;
    assert(views(out@) + inline_from(s@, prefix@, 0) =~= views(old(out)@) + inline_from(
        s@,
        prefix@,
        0,
    ));
    loop
        invariant
            pos <= s@.len(),
            prefix@.len() > 0,
            views(out@) + inline_from(s@, prefix@, pos as int) == views(old(out)@) + inline_from(
                s@,
                prefix@,
                0,
            ),
        decreases s.len() - pos,
    {
        proof {
            lemma_find_from(s@, prefix@, pos as int);
        }
        match find_from_exec(s, prefix, pos) {
            None => {
                assert(views(out@) =~= views(out@) + inline_from(s@, prefix@, pos as int));
                return;
            },
            Some(i) => {
                let start = i + prefix.len();
                let mut j = start;
                proof {
                    lemma_ident_end(s@, start as int);
                }
                while j < s.len() && (s[j].is_alphanumeric() || s[j] == '_')
                    invariant
                        start <= j <= s@.len(),
                        ident_end(s@, j as int) == ident_end(s@, start as int),
                    decreases s.len() - j,
                {
                    j += 1;
                }
                let mut item: Vec<char> = Vec::new();
                push_all(&mut item, prefix);
                let name = slice_of(s, start, j);
                push_all(&mut item, &name);
                let ghost before = out@;
                out.push(item);
                assert(views(out@) =~= views(before).push(item@));
                assert(views(out@) + inline_from(s@, prefix@, start as int) =~= views(before)
                    + inline_from(s@, prefix@, pos as int));
                pos = start;
            },
        }
    }
}

/// The component a path names, if it names one: the segment after `crate::components::`.
pub open spec fn dep_of(path: Seq<char>) -> Option<Seq<char>> {
    if starts_with(path, "crate::components::"@) {
        let rest = path.skip("crate::components::"@.len() as int);
        let name = match find(rest, "::"@) {
            Some(j) => rest.take(j),
            None => rest,
        };
        if name.len() > 0 {
            Some(name)
        } else {
            None
        }
    } else {
        None
    }
}

/// The components `paths` name, in the order they are named.
pub open spec fn dep_names(paths: Seq<Seq<char>>) -> Seq<Seq<char>>
    decreases paths.len(),
{
    if paths.len() == 0 {
        seq![]
    } else {
        let before = dep_names(paths.drop_last());
        match dep_of(paths.last()) {
            Some(name) => before.push(name),
            None => before,
        }
    }
}

/// Whether any of `paths` reaches into the library's icons.
pub open spec fn names_icons(paths: Seq<Seq<char>>) -> bool {
    exists|k: int| 0 <= k < paths.len() && starts_with(#[trigger] paths[k], "crate::icons"@)
}

fn dep_of_exec(path: &[char]) -> (r: Option<Vec<char>>)
    ensures
        r matches Some(v) ==> dep_of(path@) == Some(v@),
        r is None ==> dep_of(path@) is None,
{
    let components = chars_of("crate::components::");
    if !starts_with_exec(path, &components) {
        return None;
    }
    let rest = slice_of(path, components.len(), path.len());
    assert(rest@ =~= path@.skip(components@.len() as int));
    let sep = chars_of("::");
    proof {
        lemma_find(rest@, sep@);
    }
    let name = match find_exec(&rest, &sep) {
        Some(j) => {
            let n = slice_of(&rest, 0, j);
            assert(n@ =~= rest@.take(j as int));
            n
        },
        None => rest,
    };
    if name.len() > 0 {
        Some(name)
    } else {
        None
    }
}

/// The library paths `s` writes in expression position, which the import scan cannot see.
fn inline_paths(s: &[char]) -> (r: Vec<Vec<char>>)
    ensures
        views(r@) == inline_paths_of(s@),
{
    proof {
        reveal_strlit("crate::components::");
        reveal_strlit("crate::icons::");
    }
    let mut found: Vec<Vec<char>> = Vec::new();
    assert(views(found@) =~= Seq::<Seq<char>>::empty());
    inline_from_exec(s, &chars_of("crate::components::"), &mut found);
    inline_from_exec(s, &chars_of("crate::icons::"), &mut found);
    found
}

/// Notes what `path` says of the file it is in: the component it names joins `deps`, and a
/// path into the icons sets `uses_icons`.
fn note_dep(path: &Vec<char>, deps: &mut Vec<Vec<char>>, uses_icons: &mut bool)
    ensures
        views(final(deps)@) == match dep_of(path@) {
            Some(name) => views(old(deps)@).push(name),
            None => views(old(deps)@),
        },
        *final(uses_icons) == (*old(uses_icons) || starts_with(path@, "crate::icons"@)),
{
    let ghost before = deps@;
    match dep_of_exec(path) {
        Some(name) => {
            deps.push(name);
            assert(views(deps@) =~= views(before).push(name@));
        },
        None => {},
    }
    if starts_with_exec(path, &chars_of("crate::icons")) {
        *uses_icons = true;
    }
}

/// The paths of the statements `sp` of `s`, one statement after the other.
pub open spec fn use_paths(s: Seq<char>, sp: Seq<UseSpan>) -> Seq<Seq<char>>
    decreases sp.len(),
{
    if sp.len() == 0 {
        seq![]
    } else {
        use_paths(s, sp.drop_last()) + paths_of(s, sp.last())
    }
}

/// Every library path a file names: those its imports bring in, then those written inline.
pub open spec fn all_paths(s: Seq<char>) -> Seq<Seq<char>> {
    use_paths(s, uses_of(s)) + inline_paths_of(s)
}

/// A file from the library's `src/components/`, rewritten to compile inside another crate, with
/// what it needs from there.
pub struct Rewritten {
    pub source: String,
    pub component_deps: Vec<String>,
    pub uses_icons: bool,
}

/// Rewrites `source` to compile inside a project whose components live at `rust_path`.
///
/// Every `use` statement is flattened to one import per path, redirected, sorted and printed back
/// in its place; the text between the imports has its library paths redirected where they stand.
/// The components named anywhere in the file, sorted and without repeats, are what it is built
/// on; `uses_icons` says whether it reaches into the icons.
#[verifier::rlimit(40)]
pub fn rewrite(source: &str, rust_path: &str) -> (r: Rewritten)
    ensures
        r.source@ == rewritten_source(source@, rust_path@),
        views_of_strings(r.component_deps@) == sorted_set(dep_names(all_paths(source@))),
        strictly_sorted(views_of_strings(r.component_deps@)),
        forall|x: Seq<char>| #[trigger] views_of_strings(r.component_deps@).contains(x)
            <==> dep_names(all_paths(source@)).contains(x),
        r.uses_icons == names_icons(all_paths(source@)),
{
    let s = chars_of(source);
    let mp = chars_of(rust_path);
    let uses = find_uses(&s);
    let ghost sp = uses_of(s@);
    let n = s.len();
    proof {
        lemma_uses_wf(s@, 0);
    }
    let nl = chars_of("\n");
    let mut out: Vec<char> = Vec::new();
    let mut paths: Vec<Vec<char>> = Vec::new();
    let mut cursor: usize = 0;
    let mut idx: usize = 0;
    assert(sp.take(0) =~= Seq::<UseSpan>::empty());
    while idx < uses.len()
        invariant
            sp == uses_of(s@),
            spans_of(uses@) == sp,
            forall|k: int|
                0 <= k < uses@.len() ==> #[trigger] views(uses@[k].paths@) == paths_of(
                    s@,
                    uses@[k].span,
                ),
            spans_wf(sp, 0, s@.len() as int),
            nl@ == "\n"@,
            idx <= uses@.len(),
            cursor <= s@.len(),
            idx == 0 ==> cursor == 0,
            idx > 0 ==> cursor == sp[idx - 1].end,
            out@ + assemble(s@, sp, idx as int, cursor as int, mp@) == rewritten_source(s@, mp@),
            views(paths@) == use_paths(s@, sp.take(idx as int)),
        decreases uses.len() - idx,
    {
        proof {
            lemma_span_at(sp, 0, s@.len() as int, idx as int);
            assert(spans_of(uses@)[idx as int] == uses@[idx as int].span);
        }
        let u = &uses[idx];
        let piece = slice_of(&s, cursor, u.span.start);
        let body = rewrite_body(&piece, &mp);
        let lines = use_lines_exec(&u.paths, u.span.is_pub, &mp);
        let sorted = sort_strings(lines);
        let block = join_exec(&sorted, &nl);
        let ghost before = out@;
        push_all(&mut out, &body);
        push_all(&mut out, &block);
        assert(out@ + assemble(s@, sp, idx + 1, u.span.end as int, mp@) =~= before + assemble(
            s@,
            sp,
            idx as int,
            cursor as int,
            mp@,
        ));
        append_copies(&mut paths, &u.paths);
        assert(sp.take(idx + 1).drop_last() =~= sp.take(idx as int));
        assert(sp.take(idx + 1).last() == sp[idx as int]);
        cursor = u.span.end;
        idx += 1;
    }
    assert(sp.take(sp.len() as int) =~= sp);
    let tail = slice_of(&s, cursor, s.len());
    let body = rewrite_body(&tail, &mp);
    let ghost before = out@;
    push_all(&mut out, &body);
    assert(out@ =~= before + assemble(s@, sp, idx as int, cursor as int, mp@));
    let inline = inline_paths(&s);
    append_copies(&mut paths, &inline);
    let ghost every = views(paths@);
    assert(every =~= all_paths(s@));
    let mut deps: Vec<Vec<char>> = Vec::new();
    let mut uses_icons = false;
    let mut k: usize = 0;
    while k < paths.len()
        invariant
            k <= paths@.len(),
            every == views(paths@),
            views(deps@) == dep_names(every.take(k as int)),
            uses_icons == (exists|j: int| 0 <= j < k && starts_with(#[trigger] every[j], "crate::icons"@)),
        decreases paths.len() - k,
    {
        assert(every.take(k + 1).drop_last() =~= every.take(k as int));
        assert(every.take(k + 1).last() == every[k as int]);
        let ghost was = uses_icons;
        note_dep(&paths[k], &mut deps, &mut uses_icons);
        proof {
            if uses_icons && !was {
                assert(starts_with(every[k as int], "crate::icons"@));
            }
        }
        k += 1;
    }
    assert(every.take(every.len() as int) =~= every);
    let deps = sorted_set_of(deps);
    Rewritten { source: string_of(&out), component_deps: strings_of(&deps), uses_icons }
}


proof fn lemma_replace_absent(s: Seq<char>, from: Seq<char>, to: Seq<char>)
    requires
        from.len() > 0,
        !contains(s, from),
    ensures
        replace_all(s, from, to) == s,
{
}

proof fn lemma_no_primitives_from(to: Seq<char>)
    requires
        to == "nocomponents::primitives::"@ || to == "nocomponents::icons::"@ || to
            == "nocomponents::utils::"@ || to == "nocomponents::deps::js_sys::"@,
    ensures
        to.len() > 0,
        forall|j: int| 0 <= j < to.len() ==> !agrees(#[trigger] to.skip(j), "crate::primitives::"@),
        forall|d: int| 1 <= d < "crate::primitives::"@.len() ==> !agrees(to, #[trigger] "crate::primitives::"@.skip(d)),
{
    reveal_strlit("crate::primitives::");
    reveal_strlit("nocomponents::primitives::");
    reveal_strlit("nocomponents::icons::");
    reveal_strlit("nocomponents::utils::");
    reveal_strlit("nocomponents::deps::js_sys::");
    let p = "crate::primitives::"@;
    assert forall|j: int| 0 <= j < to.len() implies !agrees(#[trigger] to.skip(j), p) by {
        if agrees(to.skip(j), p) {
            assert(to.skip(j)[0] == p[0]);
            if j + 1 < to.len() {
                assert(to.skip(j)[1] == p[1]);
            }
        }
    }
    assert forall|d: int| 1 <= d < p.len() implies !agrees(to, #[trigger] p.skip(d)) by {
        if agrees(to, p.skip(d)) {
            assert(to[0] == p.skip(d)[0]);
        }
    }
}

proof fn lemma_nothing_left_from(to: Seq<char>, p: Seq<char>)
    requires
        to == "nocomponents::icons::"@ || to == "nocomponents::utils::"@ || to
            == "nocomponents::deps::js_sys::"@,
        p == "crate::icons::"@ || p == "crate::utils::"@,
    ensures
        to.len() > 0,
        forall|j: int| 0 <= j < to.len() ==> !agrees(#[trigger] to.skip(j), p),
        forall|d: int| 1 <= d < p.len() ==> !agrees(to, #[trigger] p.skip(d)),
{
    reveal_strlit("crate::icons::");
    reveal_strlit("crate::utils::");
    reveal_strlit("nocomponents::icons::");
    reveal_strlit("nocomponents::utils::");
    reveal_strlit("nocomponents::deps::js_sys::");
    assert forall|j: int| 0 <= j < to.len() implies !agrees(#[trigger] to.skip(j), p) by {
        if agrees(to.skip(j), p) {
            assert(to.skip(j)[0] == p[0]);
            if j + 1 < to.len() {
                assert(to.skip(j)[1] == p[1]);
            }
        }
    }
    assert forall|d: int| 1 <= d < p.len() implies !agrees(to, #[trigger] p.skip(d)) by {
        if agrees(to, p.skip(d)) {
            assert(to[0] == p.skip(d)[0]);
            if d + 1 < p.len() {
                assert(to[1] == p.skip(d)[1]);
            }
        }
    }
}

/// Nor is a path into the library's icons or utilities left pointing at the project's crate:
/// whatever the text, no `crate::icons::` and no `crate::utils::` is left once it is redirected.
pub proof fn law_body_keeps_no_crate_icons_or_utils(body: Seq<char>, rust_path: Seq<char>)
    ensures
        !contains(rewrite_body_of(body, rust_path), "crate::icons::"@),
        !contains(rewrite_body_of(body, rust_path), "crate::utils::"@),
{
    reveal_strlit("crate::icons::");
    reveal_strlit("crate::utils::");
    reveal_strlit("js_sys::");
    let a = replace_all(body, "crate::components::"@, rust_path + "::"@);
    let b = replace_all(a, "crate::primitives::"@, "nocomponents::primitives::"@);
    let pi = "crate::icons::"@;
    let pu = "crate::utils::"@;
    lemma_nothing_left_from("nocomponents::icons::"@, pi);
    lemma_replace_makes_no(b, pi, "nocomponents::icons::"@, pi);
    let c = replace_all(b, pi, "nocomponents::icons::"@);
    lemma_nothing_left_from("nocomponents::utils::"@, pi);
    lemma_replace_makes_no(c, pu, "nocomponents::utils::"@, pi);
    lemma_nothing_left_from("nocomponents::utils::"@, pu);
    lemma_replace_makes_no(c, pu, "nocomponents::utils::"@, pu);
    let d = replace_all(c, pu, "nocomponents::utils::"@);
    lemma_nothing_left_from("nocomponents::deps::js_sys::"@, pi);
    lemma_replace_makes_no(d, "js_sys::"@, "nocomponents::deps::js_sys::"@, pi);
    lemma_nothing_left_from("nocomponents::deps::js_sys::"@, pu);
    lemma_replace_makes_no(d, "js_sys::"@, "nocomponents::deps::js_sys::"@, pu);
}

/// Redirecting the text between imports leaves no path into the library's primitives pointing at
/// the project's own crate: whatever the text and wherever the components go, no
/// `crate::primitives::` is left, each having become `nocomponents::primitives::`.
pub proof fn law_body_keeps_no_crate_primitives(body: Seq<char>, rust_path: Seq<char>)
    ensures
        !contains(rewrite_body_of(body, rust_path), "crate::primitives::"@),
{
    reveal_strlit("crate::primitives::");
    reveal_strlit("crate::components::");
    reveal_strlit("crate::icons::");
    reveal_strlit("crate::utils::");
    reveal_strlit("js_sys::");
    let p = "crate::primitives::"@;
    let a = replace_all(body, "crate::components::"@, rust_path + "::"@);
    lemma_no_primitives_from("nocomponents::primitives::"@);
    lemma_replace_makes_no(a, p, "nocomponents::primitives::"@, p);
    let b = replace_all(a, p, "nocomponents::primitives::"@);
    lemma_no_primitives_from("nocomponents::icons::"@);
    lemma_replace_makes_no(b, "crate::icons::"@, "nocomponents::icons::"@, p);
    let c = replace_all(b, "crate::icons::"@, "nocomponents::icons::"@);
    lemma_no_primitives_from("nocomponents::utils::"@);
    lemma_replace_makes_no(c, "crate::utils::"@, "nocomponents::utils::"@, p);
    let d = replace_all(c, "crate::utils::"@, "nocomponents::utils::"@);
    lemma_no_primitives_from("nocomponents::deps::js_sys::"@);
    lemma_replace_makes_no(d, "js_sys::"@, "nocomponents::deps::js_sys::"@, p);
}

/// A file with no imports comes out with no `crate::primitives::` in it: every one the source
/// wrote is redirected to `nocomponents::primitives::`.
pub proof fn law_plain_file_reaches_primitives_through_the_library(s: Seq<char>, rust_path: Seq<char>)
    requires
        uses_of(s).len() == 0,
    ensures
        !contains(rewritten_source(s, rust_path), "crate::primitives::"@),
{
    assert(s.subrange(0, s.len() as int) =~= s);
    law_body_keeps_no_crate_primitives(s, rust_path);
}

/// `c` may stand in a Rust identifier written in ASCII: a letter, a digit or `_`.
pub open spec fn ascii_ident_char(c: char) -> bool {
    ('a' <= c && c <= 'z') || ('A' <= c && c <= 'Z') || ('0' <= c && c <= '9') || c == '_'
}

proof fn lemma_ident_run(s: Seq<char>, k: int, j: int)
    requires
        0 <= k <= j <= s.len(),
        forall|m: int| k <= m < j ==> ascii_ident_char(#[trigger] s[m]),
        j == s.len() || ((s[j] as u32) < 128 && !ascii_ident_char(s[j])),
    ensures
        ident_end(s, k) == j,
    decreases j - k,
{
    if k < j {
        assert(ascii_ident_char(s[k]));
        lemma_ident_run(s, k + 1, j);
    }
}

/// Two occurrences of `crate::components::` never overlap.
proof fn lemma_components_apart(s: Seq<char>, k: int, i: int)
    requires
        occurs_at(s, "crate::components::"@, k),
        occurs_at(s, "crate::components::"@, i),
        k < i,
    ensures
        k + "crate::components::"@.len() <= i,
{
    reveal_strlit("crate::components::");
    let p = "crate::components::"@;
    if i < k + p.len() {
        let d = i - k;
        assert(s.subrange(k, k + p.len())[d] == s[i]);
        assert(s.subrange(i, i + p.len())[0] == s[i]);
        assert(p[d] == p[0]);
        if d + 1 < p.len() {
            assert(s.subrange(k, k + p.len())[d + 1] == s[i + 1]);
            assert(s.subrange(i, i + p.len())[1] == s[i + 1]);
            assert(p[d + 1] == p[1]);
        }
    }
}

proof fn lemma_inline_has(s: Seq<char>, p: Seq<char>, pos: int, i: int)
    requires
        p.len() > 0,
        0 <= pos <= i,
        occurs_at(s, p, i),
        forall|k: int| pos <= k < i && occurs_at(s, p, k) ==> k + p.len() <= i,
    ensures
        inline_from(s, p, pos).contains(p + s.subrange(i + p.len(), ident_end(s, i + p.len()))),
    decreases s.len() + 1 - pos,
{
    lemma_find_from(s, p, pos);
    let want = p + s.subrange(i + p.len(), ident_end(s, i + p.len()));
    match find_from(s, p, pos) {
        Some(k) => {
            let r = inline_from(s, p, pos);
            if k == i {
                assert(r[0] == want);
            } else {
                lemma_inline_has(s, p, k + p.len(), i);
                let rest = inline_from(s, p, k + p.len());
                let m = choose|m: int| 0 <= m < rest.len() && rest[m] == want;
                assert(r[m + 1] == rest[m]);
            }
        },
        None => {},
    }
}

proof fn lemma_dep_names_has(paths: Seq<Seq<char>>, path: Seq<char>, name: Seq<char>)
    requires
        paths.contains(path),
        dep_of(path) == Some(name),
    ensures
        dep_names(paths).contains(name),
    decreases paths.len(),
{
    let init = paths.drop_last();
    let before = dep_names(init);
    if paths.last() == path {
        assert(dep_names(paths) == before.push(name));
        assert(dep_names(paths)[before.len() as int] == name);
    } else {
        let k = choose|k: int| 0 <= k < paths.len() && paths[k] == path;
        assert(init[k] == path);
        lemma_dep_names_has(init, path, name);
        let m = choose|m: int| 0 <= m < before.len() && before[m] == name;
        assert(dep_names(paths)[m] == name);
    }
}

/// A component named in a path written inline, `crate::components::<ident>`, is the whole
/// identifier after the prefix, underscores and digits included, up to the first character that
/// cannot stand in one: such a file is built on exactly that component.
pub proof fn law_inline_component_is_the_whole_identifier(s: Seq<char>, i: int, j: int)
    requires
        occurs_at(s, "crate::components::"@, i),
        i + "crate::components::"@.len() < j <= s.len(),
        forall|m: int| i + "crate::components::"@.len() <= m < j ==> ascii_ident_char(#[trigger] s[m]),
        j == s.len() || ((s[j] as u32) < 128 && !ascii_ident_char(s[j])),
    ensures
        dep_names(all_paths(s)).contains(s.subrange(i + "crate::components::"@.len(), j)),
{
    reveal_strlit("crate::components::");
    reveal_strlit("::");
    let p = "crate::components::"@;
    let start = i + p.len();
    let id = s.subrange(start, j);
    lemma_ident_run(s, start, j);
    assert forall|k: int| 0 <= k < i && occurs_at(s, p, k) implies k + p.len() <= i by {
        lemma_components_apart(s, k, i);
    }
    lemma_inline_has(s, p, 0, i);
    let path = p + id;
    let inl = inline_from(s, p, 0);
    let m = choose|m: int| 0 <= m < inl.len() && inl[m] == path;
    let all = all_paths(s);
    let u = use_paths(s, uses_of(s));
    assert(all == u + (inl + inline_from(s, "crate::icons::"@, 0)));
    assert(all[u.len() + m] == path);
    assert(all.contains(path));
    assert(starts_with(path, p)) by {
        assert(path.subrange(0, p.len() as int) =~= p);
    }
    assert(path.skip(p.len() as int) =~= id);
    lemma_find(id, "::"@);
    if find(id, "::"@) is Some {
        let q = find(id, "::"@)->0;
        assert(id.subrange(q, q + 2)[0] == ':');
        assert(id[q] == s[start + q]);
    }
    assert(dep_of(path) == Some(id));
    lemma_dep_names_has(all, path, id);
}

/// A file that names nothing of the library, in an import or anywhere else, comes out exactly as
/// it went in, built on no component and reaching into no icons.
pub proof fn law_plain_file_untouched(s: Seq<char>, rust_path: Seq<char>)
    requires
        uses_of(s).len() == 0,
        !contains(s, "crate::components::"@),
        !contains(s, "crate::primitives::"@),
        !contains(s, "crate::icons::"@),
        !contains(s, "crate::utils::"@),
        !contains(s, "js_sys::"@),
    ensures
        rewritten_source(s, rust_path) == s,
        sorted_set(dep_names(all_paths(s))).len() == 0,
        !names_icons(all_paths(s)),
{
    reveal_strlit("crate::components::");
    reveal_strlit("crate::primitives::");
    reveal_strlit("crate::icons::");
    reveal_strlit("crate::utils::");
    reveal_strlit("js_sys::");
    assert(s.subrange(0, s.len() as int) =~= s);
    lemma_replace_absent(s, "crate::components::"@, rust_path + "::"@);
    lemma_replace_absent(s, "crate::primitives::"@, "nocomponents::primitives::"@);
    lemma_replace_absent(s, "crate::icons::"@, "nocomponents::icons::"@);
    lemma_replace_absent(s, "crate::utils::"@, "nocomponents::utils::"@);
    lemma_replace_absent(s, "js_sys::"@, "nocomponents::deps::js_sys::"@);
    assert(inline_from(s, "crate::components::"@, 0) =~= Seq::<Seq<char>>::empty());
    assert(inline_from(s, "crate::icons::"@, 0) =~= Seq::<Seq<char>>::empty());
    assert(all_paths(s) =~= Seq::<Seq<char>>::empty());
    let none = Seq::<Seq<char>>::empty();
    assert(dep_names(none) =~= none);
    crate::order::lemma_sorted_set_of_empty();
}

} // verus!
