//! Where component sources come from: the addresses read from the repository, the release an
//! install is measured against, what an HTTP status means, and what a listing of
//! `src/components` offers.
//!
//! The repository is read at a **tag**, never a branch: an installed component names the
//! library's internals, so the source and the library it compiles against have to be the same
//! release. The tag comes from the project being installed into, not from this tool's version.
//! The requests themselves are the binary's.

use crate::order::{sort_seq, sort_strings};
use crate::text::{
    chars_of, chars_of_strings, ends_with, ends_with_exec, push_all, same, slice_of, string_of,
    strings_of, views, views_of_strings,
};
use vstd::prelude::*;

verus! {

/// The repository the sources are read from.
pub const REPO: &'static str = "notreallyuri/nocomponents";

/// The `User-Agent` every request carries.
pub const AGENT: &'static str = "nocomponents-cli";

/// Where crates.io says which `nocomponents` releases there are.
pub const CRATES_URL: &'static str = "https://crates.io/api/v1/crates/nocomponents";

/// The raw file at `path` in the repository, as of `tag`.
pub fn raw_url(tag: &str, path: &str) -> (r: String)
    ensures
        r@ == "https://raw.githubusercontent.com/"@ + REPO@ + "/"@ + tag@ + "/"@ + path@,
{
    let mut out = chars_of("https://raw.githubusercontent.com/");
    push_all(&mut out, &chars_of(REPO));
    push_all(&mut out, &chars_of("/"));
    push_all(&mut out, &chars_of(tag));
    push_all(&mut out, &chars_of("/"));
    push_all(&mut out, &chars_of(path));
    string_of(&out)
}

/// The listing of the directory `path` in the repository, as of `tag`.
pub fn contents_url(tag: &str, path: &str) -> (r: String)
    ensures
        r@ == "https://api.github.com/repos/"@ + REPO@ + "/contents/"@ + path@ + "?ref="@ + tag@,
{
    let mut out = chars_of("https://api.github.com/repos/");
    push_all(&mut out, &chars_of(REPO));
    push_all(&mut out, &chars_of("/contents/"));
    push_all(&mut out, &chars_of(path));
    push_all(&mut out, &chars_of("?ref="));
    push_all(&mut out, &chars_of(tag));
    string_of(&out)
}

/// Where a component's source lives in the repository or a checkout.
pub fn component_path(name: &str) -> (r: String)
    ensures
        r@ == "src/components/"@ + name@ + ".rs"@,
{
    let mut out = chars_of("src/components/");
    push_all(&mut out, &chars_of(name));
    push_all(&mut out, &chars_of(".rs"));
    string_of(&out)
}

/// Where a stylesheet lives in the repository or a checkout.
pub fn stylesheet_path(name: &str) -> (r: String)
    ensures
        r@ == "docs/styles/"@ + name@,
{
    let mut out = chars_of("docs/styles/");
    push_all(&mut out, &chars_of(name));
    string_of(&out)
}

/// The tag of a release.
pub fn release_tag(version: &str) -> (r: String)
    ensures
        r@ == "v"@ + version@,
{
    let mut out = chars_of("v");
    push_all(&mut out, &chars_of(version));
    string_of(&out)
}

/// How the release to install from is settled.
pub enum Resolution {
    /// The project compiles a checkout, which no release is; it is refused rather than guessed.
    RefusePath,
    /// The release the project's lock resolved.
    Tag(String),
    /// Nothing resolved yet: take the newest published release, as `cargo add` is about to.
    AskLatest,
}

/// Settles the release from what the project says: whether it takes `nocomponents` by path, and
/// the version its lock resolved, if any.
pub fn resolve(is_path_dependency: bool, locked: Option<String>) -> (r: Resolution)
    ensures
        is_path_dependency ==> r is RefusePath,
        !is_path_dependency && locked is Some ==> (r matches Resolution::Tag(t) && t@ == "v"@
            + locked->0@),
        !is_path_dependency && locked is None ==> r is AskLatest,
{
    if is_path_dependency {
        return Resolution::RefusePath;
    }
    match locked {
        Some(v) => Resolution::Tag(release_tag(v.as_str())),
        None => Resolution::AskLatest,
    }
}

/// What an HTTP status means for a read.
#[derive(Debug, Clone, Copy, PartialEq, Eq, Structural)]
pub enum StatusCheck {
    /// Read on.
    Success,
    /// 404: the release is not tagged, or the file is not in it.
    NotFound,
    /// Anything else outside `200..=299`.
    Failed,
}

/// Sorts an HTTP status code into what it means here.
pub fn check_status(code: u16) -> (r: StatusCheck)
    ensures
        r == (if code == 404 {
            StatusCheck::NotFound
        } else if 200 <= code <= 299 {
            StatusCheck::Success
        } else {
            StatusCheck::Failed
        }),
{
    if code == 404 {
        StatusCheck::NotFound
    } else if 200 <= code && code <= 299 {
        StatusCheck::Success
    } else {
        StatusCheck::Failed
    }
}

/// `name` with every trailing `.rs` taken off, as `str::trim_end_matches` does.
pub open spec fn trim_rs(name: Seq<char>) -> Seq<char>
    decreases name.len(),
{
    if name.len() >= 3 && ends_with(name, ".rs"@) {
        trim_rs(name.take(name.len() - 3))
    } else {
        name
    }
}

/// The components of a listing of `src/components`, in the listing's order: each `.rs` entry but
/// `mod.rs`, with its trailing `.rs` taken off.
pub open spec fn catalogue_entries(entries: Seq<Seq<char>>) -> Seq<Seq<char>>
    decreases entries.len(),
{
    if entries.len() == 0 {
        seq![]
    } else {
        let before = catalogue_entries(entries.drop_last());
        let e = entries.last();
        if ends_with(e, ".rs"@) && e != "mod.rs"@ {
            before.push(trim_rs(e))
        } else {
            before
        }
    }
}

fn trim_rs_exec(name: &Vec<char>) -> (r: Vec<char>)
    ensures
        r@ == trim_rs(name@),
{
    proof {
        reveal_strlit(".rs");
    }
    let rs = chars_of(".rs");
    let mut end = name.len();
    assert(name@.take(end as int) =~= name@);
    while end >= 3 && ends_with_exec(&slice_of(name, 0, end), &rs)
        invariant
            end <= name@.len(),
            rs@ == ".rs"@,
            trim_rs(name@.take(end as int)) == trim_rs(name@),
        decreases end,
    {
        assert(name@.take(end - 3) =~= name@.take(end as int).take(end - 3));
        end = end - 3;
    }
    let r = slice_of(name, 0, end);
    assert(r@ =~= name@.take(end as int));
    r
}

/// What a listing of `src/components` offers, sorted.
pub fn catalogue_names(entries: &Vec<String>) -> (r: Vec<String>)
    ensures
        views_of_strings(r@) == sort_seq(catalogue_entries(views_of_strings(entries@))),
{
    let es = chars_of_strings(entries);
    let rs = chars_of(".rs");
    let mod_rs = chars_of("mod.rs");
    let mut names: Vec<Vec<char>> = Vec::new();
    let mut k: usize = 0;
    while k < es.len()
        invariant
            k <= es@.len(),
            rs@ == ".rs"@,
            mod_rs@ == "mod.rs"@,
            views(names@) == catalogue_entries(views(es@).take(k as int)),
        decreases es.len() - k,
    {
        assert(views(es@).take(k + 1).drop_last() =~= views(es@).take(k as int));
        assert(views(es@).take(k + 1).last() == es@[k as int]@);
        if ends_with_exec(&es[k], &rs) && !same(&es[k], &mod_rs) {
            let ghost before = names@;
            let n = trim_rs_exec(&es[k]);
            names.push(n);
            assert(views(names@) =~= views(before).push(n@));
        }
        k += 1;
    }
    assert(views(es@).take(es@.len() as int) =~= views(es@));
    let sorted = sort_strings(names);
    strings_of(&sorted)
}

} // verus!
