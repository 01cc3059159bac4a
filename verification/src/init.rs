//! `cargo nocli init`: the stylesheet a project starts from, the Tailwind that Trunk fetches,
//! and the features it asks of `nocomponents`.

use crate::order::{sorted_set, sorted_set_of};
use crate::text::{
    append_copies, chars_of, find, lemma_find, occurs_at, chars_of_strings, contains, contains_exec, ends_with, ends_with_exec,
    join, join_exec, lines, lines_exec, push_all, replace_all, replace_exec, starts_with,
    starts_with_exec, string_of, strings_of, trim, trim_exec, views, views_of_strings,
};
use vstd::prelude::*;

verus! {

/// Whether a line of the docs stylesheet is one a project does without: its `@source` (the
/// project's components are in its own `src`, already scanned) and its font import.
pub open spec fn docs_only(line: Seq<char>) -> bool {
    starts_with(trim(line), "@source"@) || starts_with(trim(line), "@import url("@)
}

/// `lines` without those that are the docs' own.
pub open spec fn kept_lines(lines: Seq<Seq<char>>) -> Seq<Seq<char>>
    decreases lines.len(),
{
    if lines.len() == 0 {
        seq![]
    } else {
        let before = kept_lines(lines.drop_last());
        if docs_only(lines.last()) {
            before
        } else {
            before.push(lines.last())
        }
    }
}

/// The stylesheet a project gets: the docs stylesheet's lines less the docs' own, joined with
/// `\n`.
pub open spec fn project_stylesheet_of(source: Seq<char>) -> Seq<char> {
    join(kept_lines(lines(source)), "\n"@)
}

/// The docs stylesheet, minus its `@source` and its font import.
#[verifier::rlimit(40)]
pub fn project_stylesheet(source: &str) -> (r: String)
    ensures
        r@ == project_stylesheet_of(source@),
{
    let s = chars_of(source);
    let all = lines_exec(&s);
    let src_kw = chars_of("@source");
    let font_kw = chars_of("@import url(");
    let mut kept: Vec<Vec<char>> = Vec::new();
    let mut k: usize = 0;
    while k < all.len()
        invariant
            k <= all@.len(),
            src_kw@ == "@source"@,
            font_kw@ == "@import url("@,
            views(kept@) == kept_lines(views(all@).take(k as int)),
        decreases all.len() - k,
    {
        assert(views(all@).take(k + 1).drop_last() =~= views(all@).take(k as int));
        assert(views(all@).take(k + 1).last() == all@[k as int]@);
        let t = trim_exec(&all[k]);
        if !(starts_with_exec(&t, &src_kw) || starts_with_exec(&t, &font_kw)) {
            let ghost before = kept@;
            let copy = crate::text::slice_of(&all[k], 0, all[k].len());
            assert(copy@ =~= all@[k as int]@);
            kept.push(copy);
            assert(views(kept@) =~= views(before).push(all@[k as int]@));
        }
        k += 1;
    }
    assert(views(all@).take(all@.len() as int) =~= views(all@));
    string_of(&join_exec(&kept, &chars_of("\n")))
}

/// What naming the Tailwind version in `Trunk.toml` adds.
pub const TAILWIND_LINE: &'static str = "tailwindcss = \"4.3.0\"";

/// `Trunk.toml` with the Tailwind version named, from what it held (empty when there was none):
/// `None` when it names a `tailwindcss` already, which is left alone. Otherwise the line goes
/// under `[tools]` where there is one, and into a new `[tools]` at the end where there is not.
pub open spec fn trunk_toml_of(existing: Seq<char>) -> Option<Seq<char>> {
    if contains(existing, "tailwindcss"@) {
        None
    } else if contains(existing, "[tools]"@) {
        Some(replace_all(existing, "[tools]"@, "[tools]\n"@ + TAILWIND_LINE@))
    } else {
        Some(
            (if existing.len() > 0 && !ends_with(existing, "\n"@) {
                existing + "\n"@
            } else {
                existing
            }) + "\n[tools]\n"@ + TAILWIND_LINE@ + "\n"@,
        )
    }
}

pub fn trunk_toml(existing: &str) -> (r: Option<String>)
    ensures
        r matches Some(t) ==> trunk_toml_of(existing@) == Some(t@),
        r is None ==> trunk_toml_of(existing@) is None,
{
    let s = chars_of(existing);
    if contains_exec(&s, &chars_of("tailwindcss")) {
        return None;
    }
    let tools = chars_of("[tools]");
    let mut line = chars_of("[tools]\n");
    push_all(&mut line, &chars_of(TAILWIND_LINE));
    if contains_exec(&s, &tools) {
        proof {
            reveal_strlit("[tools]");
        }
        return Some(string_of(&replace_exec(&s, &tools, &line)));
    }
    let mut out: Vec<char> = Vec::new();
    push_all(&mut out, &s);
    if s.len() > 0 && !ends_with_exec(&s, &chars_of("\n")) {
        push_all(&mut out, &chars_of("\n"));
    }
    push_all(&mut out, &chars_of("\n[tools]\n"));
    push_all(&mut out, &chars_of(TAILWIND_LINE));
    push_all(&mut out, &chars_of("\n"));
    Some(string_of(&out))
}

/// The features `init` asks of `nocomponents`: those the project asks for already, with the
/// primitives, the icons and the theme, sorted and each once.
pub open spec fn init_features_of(current: Seq<Seq<char>>) -> Seq<Seq<char>> {
    sorted_set(current + seq!["primitives"@, "icons"@, "theme"@])
}

pub fn init_features(current: &Vec<String>) -> (r: Vec<String>)
    ensures
        views_of_strings(r@) == init_features_of(views_of_strings(current@)),
        crate::order::strictly_sorted(views_of_strings(r@)),
{
    let mut all = chars_of_strings(current);
    let ghost c = views(all@);
    let mut extra: Vec<Vec<char>> = Vec::new();
    extra.push(chars_of("primitives"));
    extra.push(chars_of("icons"));
    extra.push(chars_of("theme"));
    assert(views(extra@) =~= seq!["primitives"@, "icons"@, "theme"@]);
    append_copies(&mut all, &extra);
    let set = sorted_set_of(all);
    strings_of(&set)
}


proof fn lemma_occurs_in_middle(a: Seq<char>, b: Seq<char>, c: Seq<char>, p: Seq<char>, j: int)
    requires
        occurs_at(b, p, j),
    ensures
        occurs_at(a + b + c, p, a.len() + j),
{
    assert((a + b + c).subrange(a.len() + j, a.len() + j + p.len()) =~= b.subrange(j, j + p.len()));
}

proof fn lemma_occurs_contains(s: Seq<char>, p: Seq<char>, j: int)
    requires
        occurs_at(s, p, j),
    ensures
        contains(s, p),
{
    lemma_find(s, p);
}

/// Once `init` has named the Tailwind version in `Trunk.toml`, running it again leaves the file
/// alone.
#[verifier::rlimit(40)]
pub proof fn law_trunk_toml_settles(existing: Seq<char>)
    requires
        trunk_toml_of(existing) is Some,
    ensures
        trunk_toml_of(trunk_toml_of(existing)->0) is None,
{
    reveal_strlit("tailwindcss");
    reveal_strlit("[tools]");
    reveal_strlit("[tools]\n");
    reveal_strlit("tailwindcss = \"4.3.0\"");
    let tw = "tailwindcss"@;
    let tl = TAILWIND_LINE@;
    assert(occurs_at(tl, tw, 0)) by {
        assert(tl.subrange(0, tw.len() as int) =~= tw);
    }
    let r = trunk_toml_of(existing)->0;
    if contains(existing, "[tools]"@) {
        let from = "[tools]"@;
        let to = "[tools]\n"@ + tl;
        lemma_find(existing, from);
        let i = find(existing, from)->0;
        assert(occurs_at(to, tw, 8)) by {
            lemma_occurs_in_middle("[tools]\n"@, tl, seq![], tw, 0);
            assert("[tools]\n"@ + tl + Seq::<char>::empty() =~= to);
        }
        let rest = replace_all(existing.skip(i + from.len()), from, to);
        assert(r == existing.take(i) + to + rest);
        lemma_occurs_in_middle(existing.take(i), to, rest, tw, 8);
        lemma_occurs_contains(r, tw, i + 8);
    } else {
        let pre = (if existing.len() > 0 && !ends_with(existing, "\n"@) {
            existing + "\n"@
        } else {
            existing
        }) + "\n[tools]\n"@;
        assert(r == pre + tl + "\n"@);
        lemma_occurs_in_middle(pre, tl, "\n"@, tw, 0);
        lemma_occurs_contains(r, tw, pre.len() as int);
    }
}

} // verus!
