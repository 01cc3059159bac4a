//! Installing components: which of them a run brings in and what it does with each, the `mod.rs`
//! that declares them, and what `remove` and `list` make of the directory.
//!
//! Fetching sources, reading and writing files and printing are the binary's part. Everything
//! here takes the values those produce and hands back what to write or say.

use crate::lock::{
    component_of_file, dependents_among, dependents_in, hash_of, listing_view, state_in, Lock, State,
};
use crate::order::{lemma_sort_seq, sorted_set, sorted_set_of, sort_seq, sort_strings, strictly_sorted};
use crate::rewrite::{
    all_paths, dep_names, names_icons, rewrite, rewritten_source,
};
use crate::text::{
    chars_of, contains, occurs_at, starts_with, contains_exec, ends_with, ends_with_exec, find, find_exec, lemma_find,
    push_all, slice_of, string_of, strings_of, views, views_of_strings, chars_of_strings,
};
use vstd::prelude::*;

verus! {

/// The line that opens the block `cargo nocli` owns in `mod.rs`.
pub const MOD_BEGIN: &'static str = "// nocli:begin";

/// The line that closes it.
pub const MOD_END: &'static str = "// nocli:end";

/// What the block says about itself, between its first line and the declarations.
pub const BLOCK_NOTE: &'static str = "\n// Written by `cargo nocli` from the directory, every time something is added or\n// removed. The components are yours to edit; this list is not. Anything you write\n// outside these two markers is left alone.\n\n";

// ---------------------------------------------------------------------------------------------
// The block in `mod.rs`
// ---------------------------------------------------------------------------------------------

/// Where the block of `s` starts and where its closing marker starts, when both markers are there
/// and the first closing marker comes after the first opening one.
pub open spec fn block_bounds(s: Seq<char>) -> Option<(int, int)> {
    match find(s, MOD_BEGIN@) {
        Some(a) => match find(s, MOD_END@) {
            Some(b) => if b > a {
                Some((a, b))
            } else {
                None
            },
            None => None,
        },
        None => None,
    }
}

/// Everything in `mod.rs` that is the project's rather than ours: what stands before the block
/// and after it, or nothing when there is no block.
pub open spec fn outside_of(s: Seq<char>) -> Seq<char> {
    match block_bounds(s) {
        Some((a, b)) => s.take(a) + s.skip(b + MOD_END@.len()),
        None => seq![],
    }
}

/// `block` put where the block of `s` stands, or, when `s` has none, `block` alone on a new file.
pub open spec fn spliced(s: Seq<char>, block: Seq<char>) -> Seq<char> {
    match block_bounds(s) {
        Some((a, b)) => s.take(a) + block + s.skip(b + MOD_END@.len()),
        None => block + "\n"@,
    }
}

/// Finds the block of `s`, as `block_bounds` says: where it starts, and where the text after its
/// closing marker starts.
fn find_block(s: &[char]) -> (r: Option<(usize, usize)>)
    ensures
        r matches Some((a, c)) ==> (block_bounds(s@) matches Some((a2, b)) && a2 == a && c == b
            + MOD_END@.len() && c <= s@.len()),
        r is None ==> block_bounds(s@) is None,
{
    let begin = chars_of(MOD_BEGIN);
    let end = chars_of(MOD_END);
    let n = s.len();
    proof {
        lemma_find(s@, begin@);
        lemma_find(s@, end@);
    }
    match find_exec(s, &begin) {
        Some(a) => match find_exec(s, &end) {
            Some(b) => if b > a {
                assert(occurs_at(s@, end@, b as int));
                Some((a, b + end.len()))
            } else {
                None
            },
            None => None,
        },
        None => None,
    }
}

/// Everything in `mod.rs` that is the project's rather than ours.
pub fn outside_the_block(existing: &str) -> (r: String)
    ensures
        r@ == outside_of(existing@),
{
    let s = chars_of(existing);
    let mut out: Vec<char> = Vec::new();
    match find_block(&s) {
        Some((a, b)) => {
            let before = slice_of(&s, 0, a);
            let after = slice_of(&s, b, s.len());
            proof {
                assert(before@ =~= s@.take(a as int));
                assert(after@ =~= s@.skip(b as int));
            }
            push_all(&mut out, &before);
            push_all(&mut out, &after);
        },
        None => {},
    }
    string_of(&out)
}

/// The generated block put back where the last one was, or a new file if there is no block to
/// replace. A `mod.rs` from before the markers existed was generated in full anyway, so replacing
/// it whole is what it was always getting.
pub fn splice(existing: &str, block: &str) -> (r: String)
    ensures
        r@ == spliced(existing@, block@),
{
    let s = chars_of(existing);
    let b_chars = chars_of(block);
    let mut out: Vec<char> = Vec::new();
    match find_block(&s) {
        Some((a, b)) => {
            let before = slice_of(&s, 0, a);
            let after = slice_of(&s, b, s.len());
            proof {
                assert(before@ =~= s@.take(a as int));
                assert(after@ =~= s@.skip(b as int));
            }
            push_all(&mut out, &before);
            push_all(&mut out, &b_chars);
            push_all(&mut out, &after);
        },
        None => {
            push_all(&mut out, &b_chars);
            push_all(&mut out, &chars_of("\n"));
        },
    }
    string_of(&out)
}


/// A block as `cargo nocli` writes one: it opens with the opening marker, closes with the closing
/// marker, and holds the closing marker nowhere before that.
pub open spec fn is_block(block: Seq<char>) -> bool {
    &&& starts_with(block, MOD_BEGIN@)
    &&& ends_with(block, MOD_END@)
    &&& forall|k: int| 0 <= k < block.len() - MOD_END@.len() ==> !occurs_at(block, MOD_END@, k)
}

proof fn lemma_occurs_agree(s1: Seq<char>, s2: Seq<char>, p: Seq<char>, k: int, m: int)
    requires
        0 <= k,
        k + p.len() <= m <= s1.len(),
        m <= s2.len(),
        s1.take(m) == s2.take(m),
    ensures
        occurs_at(s1, p, k) == occurs_at(s2, p, k),
{
    assert(s1.subrange(k, k + p.len()) =~= s1.take(m).subrange(k, k + p.len()));
    assert(s2.subrange(k, k + p.len()) =~= s2.take(m).subrange(k, k + p.len()));
}

/// Where the block of `spliced(s, block)` stands: where the old one stood (or at the start of a
/// new file), running the length of `block`.
#[verifier::rlimit(40)]
proof fn lemma_spliced_bounds(s: Seq<char>, block: Seq<char>)
    requires
        is_block(block),
    ensures
        block_bounds(spliced(s, block)) == Some(
            (
                match block_bounds(s) {
                    Some((a, b)) => a,
                    None => 0,
                },
                match block_bounds(s) {
                    Some((a, b)) => a,
                    None => 0,
                } + block.len() - MOD_END@.len(),
            ),
        ),
{
    reveal_strlit("// nocli:begin");
    reveal_strlit("// nocli:end");
    let bl = MOD_BEGIN@.len() as int;
    let el = MOD_END@.len() as int;
    assert(bl == 14 && el == 12);
    let r = spliced(s, block);
    let a = match block_bounds(s) {
        Some((a, b)) => a,
        None => 0,
    };
    lemma_find(s, MOD_BEGIN@);
    lemma_find(s, MOD_END@);
    lemma_find(r, MOD_BEGIN@);
    lemma_find(r, MOD_END@);
    assert(block.len() >= bl);
    // `r` holds `block` at `a`.
    match block_bounds(s) {
        Some((a0, b0)) => {
            assert(r.subrange(a, a + block.len()) =~= block);
            assert(r.take(a) =~= s.take(a));
            assert(occurs_at(s, MOD_BEGIN@, a));
            // `r` and `s` agree up to the end of the opening marker.
            assert(r.take(a + bl) =~= s.take(a + bl)) by {
                assert(block.subrange(0, bl) =~= MOD_BEGIN@);
                assert(s.subrange(a, a + bl) =~= MOD_BEGIN@);
                assert forall|i: int| 0 <= i < a + bl implies #[trigger] r.take(a + bl)[i] == s.take(a + bl)[i] by {
                    if i >= a {
                        assert(r[i] == block[i - a]);
                        assert(block[i - a] == block.subrange(0, bl)[i - a]);
                        assert(s[i] == s.subrange(a, a + bl)[i - a]);
                    }
                }
            }
            assert forall|k: int| 0 <= k < a implies !occurs_at(r, MOD_BEGIN@, k) by {
                lemma_occurs_agree(r, s, MOD_BEGIN@, k, a + bl);
            }
            assert forall|k: int| 0 <= k < a implies !occurs_at(r, MOD_END@, k) by {
                lemma_occurs_agree(r, s, MOD_END@, k, a + bl);
            }
        },
        None => {
            assert(r.subrange(0, block.len() as int) =~= block);
        },
    }
    assert(occurs_at(r, MOD_BEGIN@, a)) by {
        assert(r.subrange(a, a + bl) =~= block.subrange(0, bl));
    }
    let e = a + block.len() - el;
    assert(occurs_at(r, MOD_END@, e)) by {
        assert(r.subrange(e, e + el) =~= block.subrange(block.len() - el, block.len() as int));
    }
    assert forall|k: int| a <= k < e implies !occurs_at(r, MOD_END@, k) by {
        assert(!occurs_at(block, MOD_END@, k - a));
        assert(r.subrange(k, k + el) =~= block.subrange(k - a, k - a + el));
    }
    if find(r, MOD_BEGIN@) != Some(a) {
        let j = find(r, MOD_BEGIN@)->0;
        assert(j < a);
    }
    if find(r, MOD_END@) != Some(e) {
        let j = find(r, MOD_END@)->0;
        assert(j < e);
    }
}

/// Splicing a new block into `mod.rs` keeps everything the project wrote outside the old one.
#[verifier::rlimit(40)]
pub proof fn law_splice_keeps_what_is_outside(existing: Seq<char>, block: Seq<char>)
    requires
        is_block(block),
        block_bounds(existing) is Some,
    ensures
        outside_of(spliced(existing, block)) == outside_of(existing),
{
    lemma_spliced_bounds(existing, block);
    lemma_find(existing, MOD_BEGIN@);
    lemma_find(existing, MOD_END@);
    let r = spliced(existing, block);
    let (a, b) = block_bounds(existing)->0;
    let el = MOD_END@.len() as int;
    assert(r.take(a) =~= existing.take(a));
    assert(r.skip(a + block.len() - el + el) =~= existing.skip(b + el));
}

/// Splicing the same block a second time changes nothing.
#[verifier::rlimit(40)]
pub proof fn law_splice_twice_is_splice_once(existing: Seq<char>, block: Seq<char>)
    requires
        is_block(block),
    ensures
        spliced(spliced(existing, block), block) == spliced(existing, block),
{
    lemma_spliced_bounds(existing, block);
    lemma_find(existing, MOD_BEGIN@);
    lemma_find(existing, MOD_END@);
    let r = spliced(existing, block);
    let (a, b) = block_bounds(r)->0;
    let el = MOD_END@.len() as int;
    assert(r.subrange(a, a + block.len()) == block) by {
        match block_bounds(existing) {
            Some((a0, b0)) => {
                assert(r.subrange(a, a + block.len()) =~= block);
            },
            None => {
                assert(r.subrange(a, a + block.len()) =~= block);
            },
        }
    }
    assert(spliced(r, block) =~= r.take(a) + r.subrange(a, a + block.len()) + r.skip(a + block.len()));
    assert(r =~= r.take(a) + r.subrange(a, a + block.len()) + r.skip(a + block.len()));
}


// ---------------------------------------------------------------------------------------------
// Writing `mod.rs`
// ---------------------------------------------------------------------------------------------

/// Whether `file` names a component: a `.rs` file other than `mod.rs`.
pub open spec fn rs_name(file: Seq<char>) -> Option<Seq<char>> {
    if ends_with(file, ".rs"@) && file.take(file.len() - ".rs"@.len()) != "mod"@ {
        Some(file.take(file.len() - ".rs"@.len()))
    } else {
        None
    }
}

/// The components a directory listing holds, in the listing's order.
pub open spec fn rs_names(files: Seq<Seq<char>>) -> Seq<Seq<char>>
    decreases files.len(),
{
    if files.len() == 0 {
        seq![]
    } else {
        let before = rs_names(files.drop_last());
        match rs_name(files.last()) {
            Some(n) => before.push(n),
            None => before,
        }
    }
}

/// The declaration of one module.
pub open spec fn declaration(name: Seq<char>) -> Seq<char> {
    "pub mod "@ + name + ";"@
}

/// `names` without those the project declared itself in `theirs`.
pub open spec fn undeclared(names: Seq<Seq<char>>, theirs: Seq<char>) -> Seq<Seq<char>>
    decreases names.len(),
{
    if names.len() == 0 {
        seq![]
    } else {
        let before = undeclared(names.drop_last(), theirs);
        if contains(theirs, declaration(names.last())) {
            before
        } else {
            before.push(names.last())
        }
    }
}

/// The declarations of the block, one per line.
pub open spec fn declarations(names: Seq<Seq<char>>) -> Seq<char>
    decreases names.len(),
{
    if names.len() == 0 {
        seq![]
    } else {
        declarations(names.drop_last()) + declaration(names.last()) + "\n"@
    }
}

/// The re-exports of the block's prelude, one per line.
pub open spec fn reexports(names: Seq<Seq<char>>) -> Seq<char>
    decreases names.len(),
{
    if names.len() == 0 {
        seq![]
    } else {
        reexports(names.drop_last()) + "    pub use super::"@ + names.last() + "::*;\n"@
    }
}

/// The block that declares `names` and re-exports each of them from a prelude.
pub open spec fn block_for(names: Seq<Seq<char>>) -> Seq<char> {
    MOD_BEGIN@ + BLOCK_NOTE@ + declarations(names) + "\npub mod prelude {\n"@ + reexports(names)
        + "}\n"@ + MOD_END@
}

/// The components `mod.rs` declares in its block: every component in the directory, sorted,
/// but those the project declared itself outside the block.
pub open spec fn declared_names(files: Seq<Seq<char>>, existing: Seq<char>) -> Seq<Seq<char>> {
    undeclared(sort_seq(rs_names(files)), outside_of(existing))
}

/// `mod.rs` rewritten for a directory holding `files`, from what it held before.
pub open spec fn module_file_of(files: Seq<Seq<char>>, existing: Seq<char>) -> Seq<char> {
    spliced(existing, block_for(declared_names(files, existing)))
}

fn rs_name_exec(file: &Vec<char>) -> (r: Option<Vec<char>>)
    ensures
        r matches Some(v) ==> rs_name(file@) == Some(v@),
        r is None ==> rs_name(file@) is None,
{
    let ext = chars_of(".rs");
    if !ends_with_exec(file, &ext) {
        return None;
    }
    let stem = slice_of(file, 0, file.len() - ext.len());
    assert(stem@ =~= file@.take(file@.len() - ".rs"@.len()));
    let m = chars_of("mod");
    if crate::text::same(&stem, &m) {
        None
    } else {
        Some(stem)
    }
}

fn rs_names_exec(files: &Vec<Vec<char>>) -> (r: Vec<Vec<char>>)
    ensures
        views(r@) == rs_names(views(files@)),
{
    let mut out: Vec<Vec<char>> = Vec::new();
    let mut k: usize = 0;
    while k < files.len()
        invariant
            k <= files@.len(),
            views(out@) == rs_names(views(files@).take(k as int)),
        decreases files.len() - k,
    {
        assert(views(files@).take(k + 1).drop_last() =~= views(files@).take(k as int));
        assert(views(files@).take(k + 1).last() == files@[k as int]@);
        let ghost before = out@;
        match rs_name_exec(&files[k]) {
            Some(n) => {
                out.push(n);
                assert(views(out@) =~= views(before).push(n@));
            },
            None => {},
        }
        k += 1;
    }
    assert(views(files@).take(files@.len() as int) =~= views(files@));
    out
}

fn declaration_exec(name: &Vec<char>) -> (r: Vec<char>)
    ensures
        r@ == declaration(name@),
{
    let mut d: Vec<char> = Vec::new();
    push_all(&mut d, &chars_of("pub mod "));
    push_all(&mut d, name);
    push_all(&mut d, &chars_of(";"));
    d
}

fn undeclared_exec(names: &Vec<Vec<char>>, theirs: &Vec<char>) -> (r: Vec<Vec<char>>)
    ensures
        views(r@) == undeclared(views(names@), theirs@),
{
    let mut out: Vec<Vec<char>> = Vec::new();
    let mut k: usize = 0;
    while k < names.len()
        invariant
            k <= names@.len(),
            views(out@) == undeclared(views(names@).take(k as int), theirs@),
        decreases names.len() - k,
    {
        assert(views(names@).take(k + 1).drop_last() =~= views(names@).take(k as int));
        assert(views(names@).take(k + 1).last() == names@[k as int]@);
        let d = declaration_exec(&names[k]);
        if !contains_exec(theirs, &d) {
            let ghost before = out@;
            let copy = slice_of(&names[k], 0, names[k].len());
            assert(copy@ =~= names@[k as int]@);
            out.push(copy);
            assert(views(out@) =~= views(before).push(names@[k as int]@));
        }
        k += 1;
    }
    assert(views(names@).take(names@.len() as int) =~= views(names@));
    out
}

fn block_exec(names: &Vec<Vec<char>>) -> (r: Vec<char>)
    ensures
        r@ == block_for(views(names@)),
{
    let mut decls: Vec<char> = Vec::new();
    let mut uses: Vec<char> = Vec::new();
    let mut k: usize = 0;
    while k < names.len()
        invariant
            k <= names@.len(),
            decls@ == declarations(views(names@).take(k as int)),
            uses@ == reexports(views(names@).take(k as int)),
        decreases names.len() - k,
    {
        assert(views(names@).take(k + 1).drop_last() =~= views(names@).take(k as int));
        assert(views(names@).take(k + 1).last() == names@[k as int]@);
        let d = declaration_exec(&names[k]);
        push_all(&mut decls, &d);
        push_all(&mut decls, &chars_of("\n"));
        push_all(&mut uses, &chars_of("    pub use super::"));
        push_all(&mut uses, &names[k]);
        push_all(&mut uses, &chars_of("::*;\n"));
        k += 1;
    }
    assert(views(names@).take(names@.len() as int) =~= views(names@));
    let mut out: Vec<char> = Vec::new();
    push_all(&mut out, &chars_of(MOD_BEGIN));
    push_all(&mut out, &chars_of(BLOCK_NOTE));
    push_all(&mut out, &decls);
    push_all(&mut out, &chars_of("\npub mod prelude {\n"));
    push_all(&mut out, &uses);
    push_all(&mut out, &chars_of("}\n"));
    push_all(&mut out, &chars_of(MOD_END));
    out
}

/// `mod.rs` for a directory whose entries are named `files`, given what `mod.rs` held before
/// (empty when there was none). The block is rewritten from the directory, so a file removed by
/// hand stops being declared, but only between the markers: everything the project wrote
/// outside them stays, and a module it declared there is not declared a second time inside.
#[verifier::rlimit(40)]
pub fn module_file(files: &Vec<String>, existing: &str) -> (r: String)
    ensures
        r@ == module_file_of(views_of_strings(files@), existing@),
{
    let fs = chars_of_strings(files);
    let names = rs_names_exec(&fs);
    let sorted = sort_strings(names);
    let theirs = chars_of(outside_the_block(existing).as_str());
    let declared = undeclared_exec(&sorted, &theirs);
    let block = block_exec(&declared);
    splice(existing, string_of(&block).as_str())
}

/// No component is declared in the block that the project declared itself outside it.
pub proof fn law_block_skips_what_the_project_declared(
    files: Seq<Seq<char>>,
    existing: Seq<char>,
    name: Seq<char>,
)
    requires
        declared_names(files, existing).contains(name),
    ensures
        !contains(outside_of(existing), declaration(name)),
{
    lemma_undeclared(sort_seq(rs_names(files)), outside_of(existing));
}

proof fn lemma_undeclared(names: Seq<Seq<char>>, theirs: Seq<char>)
    ensures
        forall|n: Seq<char>| #[trigger] undeclared(names, theirs).contains(n) ==> !contains(theirs, declaration(n)) && names.contains(n),
    decreases names.len(),
{
    if names.len() > 0 {
        lemma_undeclared(names.drop_last(), theirs);
        let before = undeclared(names.drop_last(), theirs);
        assert forall|n: Seq<char>| #[trigger] undeclared(names, theirs).contains(n) implies !contains(theirs, declaration(n)) && names.contains(n) by {
            if before.contains(n) {
                let i = choose|i: int| 0 <= i < names.drop_last().len() && names.drop_last()[i] == n;
                assert(names[i] == n);
            } else {
                assert(n == names.last());
                assert(names[names.len() - 1] == n);
            }
        }
    }
}


/// `s` holds no slash, as no file name does.
pub open spec fn slash_free(s: Seq<char>) -> bool {
    forall|i: int| 0 <= i < s.len() ==> s[i] != '/'
}

proof fn lemma_slash_free_add(a: Seq<char>, b: Seq<char>)
    requires
        slash_free(a),
        slash_free(b),
    ensures
        slash_free(a + b),
{
    assert forall|i: int| 0 <= i < (a + b).len() implies (a + b)[i] != '/' by {
        if i >= a.len() {
            assert((a + b)[i] == b[i - a.len()]);
        }
    }
}

proof fn lemma_lists_slash_free(names: Seq<Seq<char>>)
    requires
        forall|i: int| 0 <= i < names.len() ==> slash_free(#[trigger] names[i]),
    ensures
        slash_free(declarations(names)),
        slash_free(reexports(names)),
    decreases names.len(),
{
    reveal_strlit("pub mod ");
    reveal_strlit(";");
    reveal_strlit("\n");
    reveal_strlit("    pub use super::");
    reveal_strlit("::*;\n");
    if names.len() > 0 {
        lemma_lists_slash_free(names.drop_last());
        let n = names.last();
        assert(slash_free(n)) by {
            assert(n == names[names.len() - 1]);
        }
        lemma_slash_free_add("pub mod "@, n);
        lemma_slash_free_add("pub mod "@ + n, ";"@);
        lemma_slash_free_add(declarations(names.drop_last()), declaration(n));
        lemma_slash_free_add(declarations(names.drop_last()) + declaration(n), "\n"@);
        lemma_slash_free_add(reexports(names.drop_last()), "    pub use super::"@);
        lemma_slash_free_add(reexports(names.drop_last()) + "    pub use super::"@, n);
        lemma_slash_free_add(reexports(names.drop_last()) + "    pub use super::"@ + n, "::*;\n"@);
    } else {
        assert(declarations(names) =~= seq![]);
        assert(reexports(names) =~= seq![]);
    }
}

/// The block written for names without a slash in them is a block: the closing marker comes
/// only at its end.
#[verifier::rlimit(60)]
pub proof fn law_written_block_is_a_block(names: Seq<Seq<char>>)
    requires
        forall|i: int| 0 <= i < names.len() ==> slash_free(#[trigger] names[i]),
    ensures
        is_block(block_for(names)),
{
    reveal_strlit("// nocli:begin");
    reveal_strlit("// nocli:end");
    reveal_strlit("\n// Written by `cargo nocli` from the directory, every time something is added or\n// removed. The components are yours to edit; this list is not. Anything you write\n// outside these two markers is left alone.\n\n");
    reveal_strlit("\npub mod prelude {\n");
    reveal_strlit("}\n");
    let head = MOD_BEGIN@ + BLOCK_NOTE@;
    let end = MOD_END@;
    assert(end.len() == 12);
    assert(forall|k: int|
        0 <= k < head.len() && #[trigger] head[k] == '/' ==> k + 9 < head.len() && (head[k + 1]
            != end[1] || head[k + 2] != end[2] || head[k + 3] != end[3] || head[k + 9] != end[9]));
    lemma_lists_slash_free(names);
    let d = declarations(names);
    let r = reexports(names);
    lemma_slash_free_add(d, "\npub mod prelude {\n"@);
    lemma_slash_free_add(d + "\npub mod prelude {\n"@, r);
    lemma_slash_free_add(d + "\npub mod prelude {\n"@ + r, "}\n"@);
    let q = d + "\npub mod prelude {\n"@ + r + "}\n"@;
    let b = block_for(names);
    assert(b =~= head + q + end);
    assert(starts_with(b, MOD_BEGIN@)) by {
        assert(b.subrange(0, 14) =~= MOD_BEGIN@);
    }
    assert(ends_with(b, end)) by {
        assert(b.subrange(b.len() - 12, b.len() as int) =~= end);
    }
    assert forall|k: int| 0 <= k < b.len() - end.len() implies !occurs_at(b, end, k) by {
        if occurs_at(b, end, k) {
            assert(b.subrange(k, k + 12)[0] == end[0]);
            assert(b[k] == '/');
            if k < head.len() {
                assert(head[k] == '/');
                assert(b.subrange(k, k + 12)[1] == end[1]);
                assert(b.subrange(k, k + 12)[2] == end[2]);
                assert(b.subrange(k, k + 12)[3] == end[3]);
                assert(b.subrange(k, k + 12)[9] == end[9]);
            } else {
                assert(b[k] == q[k - head.len()]);
            }
        }
    }
}

/// Writing `mod.rs` a second time from the same directory changes nothing: the block comes out
/// the same, and it goes where the first one went.
#[verifier::rlimit(40)]
pub proof fn law_module_file_twice_is_once(files: Seq<Seq<char>>, existing: Seq<char>)
    requires
        forall|i: int| 0 <= i < files.len() ==> slash_free(#[trigger] files[i]),
    ensures
        module_file_of(files, module_file_of(files, existing)) == module_file_of(files, existing),
{
    let names = declared_names(files, existing);
    lemma_declared_slash_free(files, existing);
    law_written_block_is_a_block(names);
    let block = block_for(names);
    let once = module_file_of(files, existing);
    assert(once == spliced(existing, block));
    assert(declared_names(files, once) == names) by {
        if block_bounds(existing) is Some {
            law_splice_keeps_what_is_outside(existing, block);
        } else {
            lemma_spliced_bounds(existing, block);
            reveal_strlit("\n");
            assert(outside_of(once) =~= "\n"@);
            lemma_undeclared_short(sort_seq(rs_names(files)), outside_of(once));
            lemma_undeclared_short(sort_seq(rs_names(files)), outside_of(existing));
        }
    }
    law_splice_twice_is_splice_once(existing, block);
}

proof fn lemma_declared_slash_free(files: Seq<Seq<char>>, existing: Seq<char>)
    requires
        forall|i: int| 0 <= i < files.len() ==> slash_free(#[trigger] files[i]),
    ensures
        forall|i: int| 0 <= i < declared_names(files, existing).len() ==> slash_free(
            #[trigger] declared_names(files, existing)[i],
        ),
{
    lemma_rs_names_slash_free(files);
    let names = rs_names(files);
    lemma_sort_seq(names);
    lemma_undeclared(sort_seq(names), outside_of(existing));
    let dn = declared_names(files, existing);
    assert forall|i: int| 0 <= i < dn.len() implies slash_free(#[trigger] dn[i]) by {
        assert(dn.contains(dn[i]));
        assert(sort_seq(names).contains(dn[i]));
        assert(names.contains(dn[i]));
    }
}

proof fn lemma_rs_names_slash_free(files: Seq<Seq<char>>)
    requires
        forall|i: int| 0 <= i < files.len() ==> slash_free(#[trigger] files[i]),
    ensures
        forall|n: Seq<char>| #[trigger] rs_names(files).contains(n) ==> slash_free(n),
    decreases files.len(),
{
    if files.len() > 0 {
        lemma_rs_names_slash_free(files.drop_last());
        let f = files.last();
        assert(slash_free(f)) by {
            assert(f == files[files.len() - 1]);
        }
        let before = rs_names(files.drop_last());
        assert forall|n: Seq<char>| #[trigger] rs_names(files).contains(n) implies slash_free(n) by {
            if before.contains(n) {
            } else {
                match rs_name(f) {
                    Some(m) => {
                        assert(rs_names(files) == before.push(m));
                        let i = choose|i: int| 0 <= i < before.push(m).len() && before.push(m)[i] == n;
                        if i < before.len() {
                            assert(before.contains(n));
                        }
                        assert(n == m);
                    },
                    None => {},
                }
            }
        }
    }
}

/// No declaration fits in fewer characters than `pub mod ` and a `;`, so text that short leaves
/// every name undeclared.
proof fn lemma_undeclared_short(names: Seq<Seq<char>>, theirs: Seq<char>)
    requires
        theirs.len() < 9,
    ensures
        undeclared(names, theirs) == names,
    decreases names.len(),
{
    reveal_strlit("pub mod ");
    reveal_strlit(";");
    if names.len() > 0 {
        lemma_undeclared_short(names.drop_last(), theirs);
        lemma_find(theirs, declaration(names.last()));
        assert(names.drop_last().push(names.last()) =~= names);
    }
}

// ---------------------------------------------------------------------------------------------
// `add`: which components a run installs, and what it does with each
// ---------------------------------------------------------------------------------------------

/// Why `add` left a file that was already there alone.
#[derive(Debug, Clone, Copy, PartialEq, Eq, Structural)]
pub enum KeepReason {
    /// It is still exactly what was installed; `--force` refreshes it.
    Unchanged,
    /// The project has edited it.
    EditedHere,
    /// It was there before the lock, so nothing says whose it is.
    AlreadyHere,
}

/// The reason a file in a given state is kept.
pub open spec fn keep_reason(state: State) -> KeepReason {
    match state {
        State::Untouched => KeepReason::Unchanged,
        State::Edited => KeepReason::EditedHere,
        State::Unrecorded => KeepReason::AlreadyHere,
    }
}

impl KeepReason {
    /// How the reason reads in `add`'s report.
    pub fn text(&self) -> (r: &'static str)
        ensures
            r@ == match *self {
                KeepReason::Unchanged => "unchanged, --force refreshes it"@,
                KeepReason::EditedHere => "edited here"@,
                KeepReason::AlreadyHere => "already here"@,
            },
    {
        match self {
            KeepReason::Unchanged => "unchanged, --force refreshes it",
            KeepReason::EditedHere => "edited here",
            KeepReason::AlreadyHere => "already here",
        }
    }
}

fn keep_reason_exec(state: State) -> (r: KeepReason)
    ensures
        r == keep_reason(state),
{
    match state {
        State::Untouched => KeepReason::Unchanged,
        State::Edited => KeepReason::EditedHere,
        State::Unrecorded => KeepReason::AlreadyHere,
    }
}

/// What `add` did with one component.
pub enum Step {
    /// A file was already there and is left as it is.
    Kept { name: String, reason: KeepReason },
    /// `source` is to be written for the component; `requested` says whether it was asked for by
    /// name or is needed by one that was.
    Written { name: String, source: String, requested: bool },
}

/// The components a file is built on: those it names, sorted, each once.
pub open spec fn component_deps_of(file: Seq<char>) -> Seq<Seq<char>> {
    sorted_set(dep_names(all_paths(file)))
}

/// `queue` with each of `deps` added at the back that it does not hold yet, in order.
pub open spec fn enqueue(queue: Seq<Seq<char>>, deps: Seq<Seq<char>>) -> Seq<Seq<char>>
    decreases deps.len(),
{
    if deps.len() == 0 {
        queue
    } else {
        let q = enqueue(queue, deps.drop_last());
        if q.contains(deps.last()) {
            q
        } else {
            q.push(deps.last())
        }
    }
}

/// Whether `add` leaves the component alone: a file is there and `--force` was not given.
pub open spec fn keeps(force: bool, present: bool) -> bool {
    present && !force
}

/// An `add` in progress. The queue holds every component the run has met, in the order it met
/// them: first those asked for, then each dependency the first time it turns up. The ones before
/// `next` are done.
pub struct Install {
    pub requested: Vec<String>,
    pub queue: Vec<String>,
    pub next: usize,
    pub installed: Vec<String>,
    pub written: usize,
    pub kept: usize,
    pub clobbered: Vec<String>,
    pub uses_icons: bool,
    pub force: bool,
}

impl Install {
    /// The run is consistent: the queue starts with what was asked for, holds no dependency
    /// twice, and what is done is what was installed, each either written or kept.
    pub open spec fn wf(&self) -> bool {
        &&& self.next <= self.queue@.len()
        &&& self.written + self.kept == self.next
        &&& views_of_strings(self.installed@) == views_of_strings(self.queue@).take(self.next as int)
        &&& self.requested@.len() <= self.queue@.len()
        &&& views_of_strings(self.queue@).take(self.requested@.len() as int) == views_of_strings(
            self.requested@,
        )
        &&& forall|i: int, j: int|
            0 <= i < j < self.queue@.len() && j >= self.requested@.len() ==> #[trigger] self.queue@[i]@
                != #[trigger] self.queue@[j]@
    }

    /// The component to settle next.
    pub open spec fn current(&self) -> Seq<char> {
        self.queue@[self.next as int]@
    }

    /// A run that is to install `names`, and what they are built on.
    pub fn new(names: &Vec<String>, force: bool) -> (r: Install)
        ensures
            r.wf(),
            views_of_strings(r.requested@) == views_of_strings(names@),
            views_of_strings(r.queue@) == views_of_strings(names@),
            r.next == 0,
            r.installed@.len() == 0,
            r.clobbered@.len() == 0,
            !r.uses_icons,
            r.force == force,
    {
        let requested = copy_strings(names);
        let queue = copy_strings(names);
        let r = Install {
            requested,
            queue,
            next: 0,
            installed: Vec::new(),
            written: 0,
            kept: 0,
            clobbered: Vec::new(),
            uses_icons: false,
            force,
        };
        assert(views_of_strings(r.installed@) =~= views_of_strings(r.queue@).take(0));
        assert(views_of_strings(r.queue@).take(r.requested@.len() as int) =~= views_of_strings(
            r.requested@,
        ));
        r
    }

    /// The component to settle next, if any is left.
    pub fn pending(&self) -> (r: Option<String>)
        requires
            self.wf(),
        ensures
            r matches Some(n) ==> self.next < self.queue@.len() && n@ == self.current(),
            r is None ==> self.next == self.queue@.len(),
    {
        if self.next < self.queue.len() {
            Some(self.queue[self.next].clone())
        } else {
            None
        }
    }

    /// Settles the next component, whose source is `file` and whose file in the project holds
    /// `existing`, if there is one.
    ///
    /// A file already there is never written over unless `--force` was given: the installed
    /// source is the project's to edit. Otherwise the rewritten source is to be written, the
    /// lock records it, and a forced write over an edited file is remembered. Either way the
    /// components the source is built on join the queue, each the first time it is met.
    #[verifier::rlimit(40)]
    pub fn settle(
        &mut self,
        lock: &mut Lock,
        file: &str,
        existing: Option<&str>,
        rust_path: &str,
    ) -> (step: Step)
        requires
            old(self).wf(),
            old(self).next < old(self).queue@.len(),
        ensures
            final(self).wf(),
            final(self).force == old(self).force,
            final(self).requested@ == old(self).requested@,
            final(self).next == old(self).next + 1,
            views_of_strings(final(self).installed@) == views_of_strings(old(self).installed@).push(
                old(self).current(),
            ),
            views_of_strings(final(self).queue@) == enqueue(
                views_of_strings(old(self).queue@),
                component_deps_of(file@),
            ),
            forall|d: Seq<char>| #[trigger]
                component_deps_of(file@).contains(d) ==> views_of_strings(
                    final(self).queue@,
                ).contains(d),
            final(self).uses_icons == (old(self).uses_icons || names_icons(all_paths(file@))),
            keeps(old(self).force, existing is Some) ==> {
                &&& step matches Step::Kept { name, reason } && name@ == old(self).current()
                    && reason == keep_reason(
                    state_in(old(lock)@, old(self).current(), existing->0@),
                )
                &&& final(lock)@ == old(lock)@
                &&& final(self).kept == old(self).kept + 1
                &&& final(self).written == old(self).written
                &&& final(self).clobbered@ == old(self).clobbered@
            },
            !keeps(old(self).force, existing is Some) ==> {
                &&& step matches Step::Written { name, source, requested } && name@
                    == old(self).current() && source@ == rewritten_source(file@, rust_path@)
                    && requested == views_of_strings(old(self).requested@).contains(
                    old(self).current(),
                )
                &&& final(lock)@ == old(lock)@.insert(
                    old(self).current(),
                    hash_of(rewritten_source(file@, rust_path@)),
                )
                &&& final(self).written == old(self).written + 1
                &&& final(self).kept == old(self).kept
                &&& views_of_strings(final(self).clobbered@) == if existing matches Some(e)
                    && state_in(old(lock)@, old(self).current(), e@) == State::Edited {
                    views_of_strings(old(self).clobbered@).push(old(self).current())
                } else {
                    views_of_strings(old(self).clobbered@)
                }
            },
    {
        let qlen = self.queue.len();
        proof {
            lemma_wf_parts(self);
        }
        let ghost q0 = views_of_strings(self.queue@);
        let name = self.queue[self.next].clone();
        let out = rewrite(file, rust_path);
        self.uses_icons = self.uses_icons || out.uses_icons;
        let step = self.decide(lock, name.clone(), out.source, existing);
        let ghost inst = self.installed@;
        self.installed.push(name);
        assert(views_of_strings(self.installed@) =~= views_of_strings(inst).push(q0[self.next as int]));
        assert(q0.take(self.next + 1) =~= q0.take(self.next as int).push(q0[self.next as int]));
        self.next = self.next + 1;
        let fixed = self.requested.len();
        enqueue_exec(&mut self.queue, &out.component_deps, fixed);
        proof {
            let q = views_of_strings(self.queue@);
            assert(q.take(self.next as int) =~= q0.take(self.next as int));
            assert(q.take(self.requested@.len() as int) =~= q0.take(self.requested@.len() as int));
        }
        step
    }

    /// Keeps or writes the component `name`, whose rewritten source is `source`.
    #[verifier::rlimit(40)]
    fn decide(&mut self, lock: &mut Lock, name: String, source: String, existing: Option<&str>) -> (step: Step)
        requires
            old(self).written + old(self).kept < usize::MAX,
        ensures
            final(self).queue@ == old(self).queue@,
            final(self).requested@ == old(self).requested@,
            final(self).installed@ == old(self).installed@,
            final(self).next == old(self).next,
            final(self).uses_icons == old(self).uses_icons,
            final(self).force == old(self).force,
            final(self).written + final(self).kept == old(self).written + old(self).kept + 1,
            keeps(old(self).force, existing is Some) ==> {
                &&& step matches Step::Kept { name: n, reason } && n@ == name@
                    && reason == keep_reason(state_in(old(lock)@, name@, existing->0@))
                &&& final(lock)@ == old(lock)@
                &&& final(self).kept == old(self).kept + 1
                &&& final(self).written == old(self).written
                &&& final(self).clobbered@ == old(self).clobbered@
            },
            !keeps(old(self).force, existing is Some) ==> {
                &&& step matches Step::Written { name: n, source: src, requested } && n@ == name@
                    && src@ == source@ && requested == views_of_strings(old(self).requested@).contains(
                    name@,
                )
                &&& final(lock)@ == old(lock)@.insert(name@, hash_of(source@))
                &&& final(self).written == old(self).written + 1
                &&& final(self).kept == old(self).kept
                &&& views_of_strings(final(self).clobbered@) == if existing matches Some(e)
                    && state_in(old(lock)@, name@, e@) == State::Edited {
                    views_of_strings(old(self).clobbered@).push(name@)
                } else {
                    views_of_strings(old(self).clobbered@)
                }
            },
    {
        let state = match existing {
            Some(e) => Some(lock.state(name.as_str(), e)),
            None => None,
        };
        match state {
            Some(st) if !self.force => {
                self.kept = self.kept + 1;
                Step::Kept { name, reason: keep_reason_exec(st) }
            },
            _ => {
                let edited = match state {
                    Some(st) => st == State::Edited,
                    None => false,
                };
                if edited {
                    let ghost before = self.clobbered@;
                    self.clobbered.push(name.clone());
                    assert(views_of_strings(self.clobbered@) =~= views_of_strings(before).push(
                        name@,
                    ));
                }
                lock.record(name.as_str(), source.as_str());
                self.written = self.written + 1;
                let requested = holds(&self.requested, &name);
                Step::Written { name, source, requested }
            },
        }
    }
}

proof fn lemma_wf_parts(plan: &Install)
    requires
        plan.wf(),
    ensures
        plan.written + plan.kept == plan.next,
        plan.next <= plan.queue@.len(),
{
}

/// Adds each of `deps` to the back of `queue` that it does not hold yet. Past the first `fixed`
/// entries, the queue holds nothing twice, before and after.
#[verifier::rlimit(40)]
fn enqueue_exec(queue: &mut Vec<String>, deps: &Vec<String>, fixed: usize)
    requires
        forall|i: int, j: int|
            0 <= i < j < old(queue)@.len() && j >= fixed ==> #[trigger] old(queue)@[i]@
                != #[trigger] old(queue)@[j]@,
    ensures
        views_of_strings(final(queue)@) == enqueue(views_of_strings(old(queue)@), views_of_strings(deps@)),
        final(queue)@.len() >= old(queue)@.len(),
        views_of_strings(final(queue)@).take(old(queue)@.len() as int) == views_of_strings(old(queue)@),
        forall|d: Seq<char>| #[trigger] views_of_strings(deps@).contains(d) ==> views_of_strings(
            final(queue)@,
        ).contains(d),
        forall|i: int, j: int|
            0 <= i < j < final(queue)@.len() && j >= fixed ==> #[trigger] final(queue)@[i]@
                != #[trigger] final(queue)@[j]@,
{
    let ghost q0 = views_of_strings(queue@);
    let ghost ds = views_of_strings(deps@);
    let mut k: usize = 0;
    assert(ds.take(0) =~= Seq::<Seq<char>>::empty());
    assert(views_of_strings(queue@).take(q0.len() as int) =~= q0);
    while k < deps.len()
        invariant
            k <= deps@.len(),
            ds == views_of_strings(deps@),
            views_of_strings(queue@) == enqueue(q0, ds.take(k as int)),
            q0.len() <= queue@.len(),
            views_of_strings(queue@).take(q0.len() as int) == q0,
            forall|i: int, j: int|
                0 <= i < j < queue@.len() && j >= fixed ==> #[trigger] queue@[i]@
                    != #[trigger] queue@[j]@,
            forall|j: int| 0 <= j < k ==> views_of_strings(queue@).contains(#[trigger] ds[j]),
        decreases deps.len() - k,
    {
        assert(ds.take(k + 1).drop_last() =~= ds.take(k as int));
        assert(ds.take(k + 1).last() == ds[k as int]);
        let ghost qb = queue@;
        if !holds(queue, &deps[k]) {
            queue.push(deps[k].clone());
            assert(views_of_strings(queue@) =~= views_of_strings(qb).push(ds[k as int]));
            assert(views_of_strings(queue@).take(q0.len() as int) =~= views_of_strings(qb).take(
                q0.len() as int,
            ));
            assert forall|i: int, j: int|
                0 <= i < j < queue@.len() && j >= fixed implies #[trigger] queue@[i]@
                    != #[trigger] queue@[j]@ by {
                if j == qb.len() {
                    assert(views_of_strings(qb)[i] == qb[i]@);
                } else {
                    assert(queue@[i] == qb[i]);
                    assert(queue@[j] == qb[j]);
                }
            }
            assert forall|j: int| 0 <= j <= k implies views_of_strings(queue@).contains(
                #[trigger] ds[j],
            ) by {
                if j < k {
                    let i = choose|i: int|
                        0 <= i < views_of_strings(qb).len() && views_of_strings(qb)[i] == ds[j];
                    assert(views_of_strings(queue@)[i] == ds[j]);
                } else {
                    assert(views_of_strings(queue@)[qb.len() as int] == ds[j]);
                }
            }
        } else {
            assert(views_of_strings(queue@).contains(ds[k as int]));
        }
        k += 1;
    }
    assert(ds.take(ds.len() as int) =~= ds);
    assert forall|d: Seq<char>| #[trigger] ds.contains(d) implies views_of_strings(queue@).contains(d) by {
        let j = choose|j: int| 0 <= j < ds.len() && ds[j] == d;
        assert(views_of_strings(queue@).contains(ds[j]));
    }
}

/// A run is over when nothing is pending, and then every component it met, asked for or pulled
/// in, has been installed, in the order it was met.
pub proof fn law_finished_run_installed_every_component(plan: Install)
    requires
        plan.wf(),
        plan.next == plan.queue@.len(),
    ensures
        views_of_strings(plan.installed@) == views_of_strings(plan.queue@),
{
    assert(views_of_strings(plan.queue@).take(plan.next as int) =~= views_of_strings(plan.queue@));
}

/// Whether `v` holds a string equal to `s`.
fn holds(v: &Vec<String>, s: &String) -> (r: bool)
    ensures
        r == views_of_strings(v@).contains(s@),
{
    let mut k: usize = 0;
    while k < v.len()
        invariant
            k <= v@.len(),
            forall|j: int| 0 <= j < k ==> v@[j]@ != s@,
        decreases v.len() - k,
    {
        if v[k] == *s {
            assert(views_of_strings(v@)[k as int] == s@);
            return true;
        }
        k += 1;
    }
    assert forall|j: int| 0 <= j < views_of_strings(v@).len() implies views_of_strings(v@)[j] != s@ by {
        assert(views_of_strings(v@)[j] == v@[j]@);
    }
    false
}

/// A copy of `v`.
fn copy_strings(v: &Vec<String>) -> (r: Vec<String>)
    ensures
        views_of_strings(r@) == views_of_strings(v@),
{
    let mut out: Vec<String> = Vec::new();
    let mut k: usize = 0;
    while k < v.len()
        invariant
            k <= v@.len(),
            views_of_strings(out@) == views_of_strings(v@).take(k as int),
        decreases v.len() - k,
    {
        let ghost before = out@;
        out.push(v[k].clone());
        assert(views_of_strings(out@) =~= views_of_strings(before).push(v@[k as int]@));
        assert(views_of_strings(v@).take(k + 1) =~= views_of_strings(v@).take(k as int).push(v@[k as int]@));
        k += 1;
    }
    assert(views_of_strings(v@).take(v@.len() as int) =~= views_of_strings(v@));
    out
}


/// The features `nocomponents` is asked for after an `add`: those the project already asks for,
/// the primitives, the icons when an installed component uses them, and one per installed
/// component, sorted and each once.
pub open spec fn add_features_of(
    current: Seq<Seq<char>>,
    installed: Seq<Seq<char>>,
    uses_icons: bool,
) -> Seq<Seq<char>> {
    sorted_set(
        current + seq!["primitives"@] + (if uses_icons {
            seq!["icons"@]
        } else {
            seq![]
        }) + installed,
    )
}

pub fn add_features(current: &Vec<String>, installed: &Vec<String>, uses_icons: bool) -> (r: Vec<
    String,
>)
    ensures
        views_of_strings(r@) == add_features_of(
            views_of_strings(current@),
            views_of_strings(installed@),
            uses_icons,
        ),
        strictly_sorted(views_of_strings(r@)),
{
    let mut all = chars_of_strings(current);
    let ghost c = views(all@);
    all.push(chars_of("primitives"));
    let ghost with_primitives = views(all@);
    assert(with_primitives =~= c + seq!["primitives"@]);
    if uses_icons {
        all.push(chars_of("icons"));
        assert(views(all@) =~= c + seq!["primitives"@] + seq!["icons"@]);
    } else {
        assert(views(all@) =~= c + seq!["primitives"@] + Seq::<Seq<char>>::empty());
    }
    let ghost before = views(all@);
    let more = chars_of_strings(installed);
    crate::text::append_copies(&mut all, &more);
    assert(views(all@) == before + views_of_strings(installed@));
    let set = sorted_set_of(all);
    strings_of(&set)
}

/// What `add` says last when `--force` wrote over components the project had edited: the one
/// thing it does that running it again cannot undo. Nothing when it wrote over none.
pub open spec fn clobbered_notice_of(clobbered: Seq<Seq<char>>) -> Option<Seq<char>> {
    if clobbered.len() == 0 {
        None
    } else {
        Some(
            "\n--force overwrote "@ + (if clobbered.len() == 1 {
                "a component"@
            } else {
                "components"@
            }) + " you had edited: "@ + crate::text::join(clobbered, ", "@),
        )
    }
}

pub fn clobbered_notice(clobbered: &Vec<String>) -> (r: Option<String>)
    ensures
        r matches Some(t) ==> clobbered_notice_of(views_of_strings(clobbered@)) == Some(t@),
        r is None ==> clobbered_notice_of(views_of_strings(clobbered@)) is None,
{
    if clobbered.len() == 0 {
        return None;
    }
    let mut out = chars_of("\n--force overwrote ");
    if clobbered.len() == 1 {
        push_all(&mut out, &chars_of("a component"));
    } else {
        push_all(&mut out, &chars_of("components"));
    }
    push_all(&mut out, &chars_of(" you had edited: "));
    let names = chars_of_strings(clobbered);
    let joined = crate::text::join_exec(&names, &chars_of(", "));
    push_all(&mut out, &joined);
    Some(string_of(&out))
}

// ---------------------------------------------------------------------------------------------
// `remove`
// ---------------------------------------------------------------------------------------------

/// What `remove` does with one component.
pub enum Removal {
    /// There is no file for it.
    NotHere,
    /// Other installed components are built on it; removing it would leave the project not
    /// compiling.
    BuiltOn { dependents: Vec<String> },
    /// The project has edited it, which is work `add` never overwrites either.
    EditedHere,
    /// Its file goes, and the lock forgets it.
    Remove,
}

/// Decides what `remove` does with `name`. `exists` says whether its file is there, `on_disk`
/// holds the file's text where it could be read, and `files` is the install directory, each
/// file's name with its text. Without `--force`, a component others are built on stays, and so
/// does one the project has edited.
#[verifier::rlimit(40)]
pub fn removal(
    lock: &Lock,
    name: &str,
    exists: bool,
    files: &Vec<(String, Option<String>)>,
    rust_path: &str,
    on_disk: Option<&str>,
    force: bool,
) -> (r: Removal)
    ensures
        r is NotHere <==> !exists,
        r is BuiltOn <==> exists && !force && dependents_in(listing_view(files@), name@, rust_path@).len() > 0,
        r matches Removal::BuiltOn { dependents } ==> views_of_strings(dependents@) == sort_seq(
            dependents_in(listing_view(files@), name@, rust_path@),
        ),
        r is EditedHere <==> exists && !force && dependents_in(listing_view(files@), name@, rust_path@).len() == 0
            && (on_disk matches Some(t) && state_in(lock@, name@, t@) == State::Edited),
        r is Remove <==> exists && (force || (dependents_in(listing_view(files@), name@, rust_path@).len() == 0
            && !(on_disk matches Some(t) && state_in(lock@, name@, t@) == State::Edited))),
{
    if !exists {
        return Removal::NotHere;
    }
    let dependents = dependents_among(files, name, rust_path);
    if dependents.len() > 0 && !force {
        return Removal::BuiltOn { dependents };
    }
    let edited = match on_disk {
        Some(text) => lock.state(name, text) == State::Edited,
        None => false,
    };
    if edited && !force {
        return Removal::EditedHere;
    }
    Removal::Remove
}

// ---------------------------------------------------------------------------------------------
// `list`
// ---------------------------------------------------------------------------------------------

/// The components installed, as a directory listing says: each `.rs` file less its extension.
pub open spec fn installed_names(files: Seq<Seq<char>>) -> Seq<Seq<char>>
    decreases files.len(),
{
    if files.len() == 0 {
        seq![]
    } else {
        let before = installed_names(files.drop_last());
        match component_of_file(files.last()) {
            Some(n) => before.push(n),
            None => before,
        }
    }
}

/// One line of `list`: a `*` before a component that is installed.
pub open spec fn listing_line(name: Seq<char>, installed: Seq<Seq<char>>) -> Seq<char> {
    (if installed.contains(name) {
        "*"@
    } else {
        " "@
    }) + " "@ + name
}

/// The lines of `list`, one per component of the catalogue, in its order.
pub fn listing(names: &Vec<String>, files: &Vec<String>) -> (r: Vec<String>)
    ensures
        views_of_strings(r@) == Seq::new(
            names@.len(),
            |i: int| listing_line(names@[i]@, installed_names(views_of_strings(files@))),
        ),
{
    let fs = chars_of_strings(files);
    let installed = installed_names_exec(&fs);
    let ghost inst = installed_names(views_of_strings(files@));
    let mut out: Vec<String> = Vec::new();
    let mut k: usize = 0;
    while k < names.len()
        invariant
            k <= names@.len(),
            views(installed@) == inst,
            views_of_strings(out@) == Seq::new(k as nat, |i: int| listing_line(names@[i]@, inst)),
        decreases names.len() - k,
    {
        let name = chars_of(names[k].as_str());
        let mark = if holds_chars(&installed, &name) {
            chars_of("*")
        } else {
            chars_of(" ")
        };
        let mut line = mark;
        push_all(&mut line, &chars_of(" "));
        push_all(&mut line, &name);
        assert(line@ =~= listing_line(names@[k as int]@, inst));
        let ghost before = out@;
        out.push(string_of(&line));
        assert(views_of_strings(out@) =~= views_of_strings(before).push(line@));
        assert(views_of_strings(out@) =~= Seq::new((k + 1) as nat, |i: int| listing_line(names@[i]@, inst)));
        k += 1;
    }
    out
}

/// How many components are installed, as a directory listing says.
pub fn installed_count(files: &Vec<String>) -> (r: usize)
    ensures
        r == sorted_set(installed_names(views_of_strings(files@))).len(),
{
    let fs = chars_of_strings(files);
    let installed = installed_names_exec(&fs);
    let set = sorted_set_of(installed);
    set.len()
}

fn installed_names_exec(files: &Vec<Vec<char>>) -> (r: Vec<Vec<char>>)
    ensures
        views(r@) == installed_names(views(files@)),
{
    let rs = chars_of(".rs");
    let mut out: Vec<Vec<char>> = Vec::new();
    let mut k: usize = 0;
    while k < files.len()
        invariant
            k <= files@.len(),
            rs@ == ".rs"@,
            views(out@) == installed_names(views(files@).take(k as int)),
        decreases files.len() - k,
    {
        assert(views(files@).take(k + 1).drop_last() =~= views(files@).take(k as int));
        assert(views(files@).take(k + 1).last() == files@[k as int]@);
        if ends_with_exec(&files[k], &rs) {
            let stem = slice_of(&files[k], 0, files[k].len() - rs.len());
            let ghost before = out@;
            out.push(stem);
            assert(views(out@) =~= views(before).push(stem@));
        }
        k += 1;
    }
    assert(views(files@).take(files@.len() as int) =~= views(files@));
    out
}

/// Whether `v` holds `s`.
fn holds_chars(v: &Vec<Vec<char>>, s: &Vec<char>) -> (r: bool)
    ensures
        r == views(v@).contains(s@),
{
    let mut k: usize = 0;
    while k < v.len()
        invariant
            k <= v@.len(),
            forall|j: int| 0 <= j < k ==> v@[j]@ != s@,
        decreases v.len() - k,
    {
        if crate::text::same(&v[k], s) {
            assert(views(v@)[k as int] == s@);
            return true;
        }
        k += 1;
    }
    assert forall|j: int| 0 <= j < views(v@).len() implies views(v@)[j] != s@ by {
        assert(views(v@)[j] == v@[j]@);
    }
    false
}


} // verus!
