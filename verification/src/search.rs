//! The documentation site's navigation and block index: the order the sidebar and the search
//! palette list a group in, which row is lit, where a component page links its blocks, what a
//! component is called in the navigation, and which blocks answer a search.

use crate::order::{lemma_lex_irreflexive, lemma_lex_total, lemma_lex_transitive, lex_le, lex_lt, lex_lt_exec};
use crate::text::{
    chars_of, contains, contains_exec, is_ws, lead_ws, lemma_lead_ws, lemma_trail_ws, push_all, same,
    string_of, trail_ws, trim, trim_end, trim_exec, trim_start,
};
use crate::site::{ascii_lower, ascii_upper, upper_text};
use vstd::prelude::*;

verus! {

/// One entry of the site's navigation.
pub struct NavItem {
    pub label: String,
    pub href: String,
}

/// What the index reads of a block: its title, its blurb, and the components it is built from,
/// as they are spelled in `/docs/<slug>`.
pub struct BlockInfo {
    pub title: String,
    pub description: String,
    pub uses: Vec<String>,
}

/// Every `char` of `s` is ASCII.
pub open spec fn is_ascii_text(s: Seq<char>) -> bool {
    forall|i: int| 0 <= i < s.len() ==> (s[i] as u32) < 128
}

/// `s` with its ASCII capitals made small.
pub open spec fn ascii_lower_text(s: Seq<char>) -> Seq<char> {
    s.map(|i: int, c: char| ascii_lower(c))
}

/// The lower-case form of `s`, a text with something beyond ASCII in it, as `str::to_lowercase`
/// makes it.
pub uninterp spec fn lowercase(s: Seq<char>) -> Seq<char>;

/// The lower-case form of `s` as `str::to_lowercase` makes it: for ASCII text, each capital made
/// small and the rest left.
pub open spec fn lower(s: Seq<char>) -> Seq<char> {
    if is_ascii_text(s) {
        ascii_lower_text(s)
    } else {
        lowercase(s)
    }
}

/// `str::to_lowercase`: the contract claims that an ASCII text comes back with its capitals made
/// small and nothing else changed, and that for any other text the result is fixed by the text,
/// named `lowercase`; the Unicode case tables behind that are not written out here.
#[verifier::external_body]
fn to_lowercase(s: &str) -> (r: String)
    ensures
        r@ == if is_ascii_text(s@) {
            s@.map(|i: int, c: char| ascii_lower(c))
        } else {
            lowercase(s@)
        },
{
    s.to_lowercase()
}

/// The label of the first navigation entry whose address is `/docs/<slug>`.
pub open spec fn label_of(nav: Seq<NavItem>, slug: Seq<char>) -> Option<Seq<char>>
    decreases nav.len(),
{
    if nav.len() == 0 {
        None
    } else if nav[0].href@ == "/docs/"@ + slug {
        Some(nav[0].label@)
    } else {
        label_of(nav.drop_first(), slug)
    }
}

/// A component's label, as the navigation spells it; `None` for one that has no page.
pub fn label_for(nav: &Vec<NavItem>, slug: &str) -> (r: Option<String>)
    ensures
        r matches Some(l) ==> label_of(nav@, slug@) == Some(l@),
        r is None ==> label_of(nav@, slug@) is None,
{
    let mut path = chars_of("/docs/");
    push_all(&mut path, &chars_of(slug));
    let mut k: usize = 0;
    assert(nav@.skip(0) =~= nav@);
    while k < nav.len()
        invariant
            k <= nav@.len(),
            path@ == "/docs/"@ + slug@,
            label_of(nav@.skip(k as int), slug@) == label_of(nav@, slug@),
        decreases nav.len() - k,
    {
        assert(nav@.skip(k as int).drop_first() =~= nav@.skip(k + 1));
        assert(nav@.skip(k as int)[0] == nav@[k as int]);
        if same(&chars_of(nav[k].href.as_str()), &path) {
            return Some(nav[k].label.clone());
        }
        k += 1;
    }
    None
}

/// Whether the component `component` answers to the lower-cased query `q`: its slug holds it,
/// or its label does, lower-cased.
pub open spec fn component_answers(nav: Seq<NavItem>, component: Seq<char>, q: Seq<char>) -> bool {
    contains(component, q) || (label_of(nav, component) matches Some(l) && contains(
        lower(l),
        q,
    ))
}

/// Whether a block answers to `query`: its title, its blurb, or any component in it, compared
/// lower-cased with the query trimmed and lower-cased. An empty query is answered by every
/// block. Over the components too, since "which blocks use a drawer" is the question a plain
/// text search could not answer.
pub open spec fn matches_of(block: BlockInfo, nav: Seq<NavItem>, query: Seq<char>) -> bool {
    let q = lower(trim(query));
    ||| q.len() == 0
    ||| contains(lower(block.title@), q)
    ||| contains(lower(block.description@), q)
    ||| exists|i: int|
        0 <= i < block.uses@.len() && component_answers(nav, #[trigger] block.uses@[i]@, q)
}

proof fn lemma_ws_upper(c: char)
    ensures
        is_ws(ascii_upper(c)) == is_ws(c),
        (c as u32) < 128 ==> (ascii_upper(c) as u32) < 128,
        ascii_lower(ascii_upper(c)) == ascii_lower(c),
{
}

proof fn lemma_lead_upper(s: Seq<char>, i: int)
    requires
        0 <= i <= s.len(),
    ensures
        lead_ws(upper_text(s), i) == lead_ws(s, i),
    decreases s.len() - i,
{
    if i < s.len() {
        lemma_ws_upper(s[i]);
        lemma_lead_upper(s, i + 1);
    }
}

proof fn lemma_trail_upper(s: Seq<char>, j: int)
    requires
        0 <= j <= s.len(),
    ensures
        trail_ws(upper_text(s), j) == trail_ws(s, j),
    decreases j,
{
    if j > 0 {
        lemma_ws_upper(s[j - 1]);
        lemma_trail_upper(s, j - 1);
    }
}

/// Trimming and upper-casing ASCII letters can be done in either order.
proof fn lemma_trim_upper(s: Seq<char>)
    ensures
        trim(upper_text(s)) == upper_text(trim(s)),
{
    let u = upper_text(s);
    lemma_lead_upper(s, 0);
    lemma_lead_ws(s, 0);
    let a = lead_ws(s, 0);
    let ts = trim_start(s);
    assert(trim_start(u) =~= upper_text(ts));
    lemma_trail_upper(ts, ts.len() as int);
    lemma_trail_ws(ts, ts.len() as int);
    assert(trim_end(upper_text(ts)) =~= upper_text(trim_end(ts)));
}

proof fn lemma_trim_ascii(s: Seq<char>)
    requires
        is_ascii_text(s),
    ensures
        is_ascii_text(trim(s)),
{
    lemma_lead_ws(s, 0);
    let ts = trim_start(s);
    lemma_trail_ws(ts, ts.len() as int);
    assert forall|i: int| 0 <= i < trim(s).len() implies (trim(s)[i] as u32) < 128 by {
        assert(trim(s)[i] == ts[i]);
        assert(ts[i] == s[lead_ws(s, 0) + i]);
    }
}

/// For an ASCII query, the case of its letters does not matter: the index shows the same blocks
/// for the query upper-cased.
pub proof fn law_search_ignores_case(block: BlockInfo, nav: Seq<NavItem>, query: Seq<char>)
    requires
        is_ascii_text(query),
    ensures
        matches_of(block, nav, upper_text(query)) == matches_of(block, nav, query),
{
    lemma_trim_upper(query);
    lemma_trim_ascii(query);
    let t = trim(query);
    let ut = upper_text(t);
    assert(is_ascii_text(ut)) by {
        assert forall|i: int| 0 <= i < ut.len() implies (ut[i] as u32) < 128 by {
            lemma_ws_upper(t[i]);
        }
    }
    assert(lower(ut) =~= lower(t)) by {
        assert forall|i: int| 0 <= i < ut.len() implies ascii_lower(ut[i]) == ascii_lower(t[i]) by {
            lemma_ws_upper(t[i]);
        }
    }
}

proof fn lemma_lead_after(c: char, t: Seq<char>, i: int)
    requires
        0 <= i <= t.len(),
    ensures
        lead_ws(seq![c] + t, i + 1) == lead_ws(t, i) + 1,
    decreases t.len() - i,
{
    let s = seq![c] + t;
    if i < t.len() {
        assert(s[i + 1] == t[i]);
        lemma_lead_after(c, t, i + 1);
    }
}

proof fn lemma_lead_before(t: Seq<char>, c: char, i: int)
    requires
        0 <= i <= t.len(),
        is_ws(c),
    ensures
        lead_ws(t, i) < t.len() ==> lead_ws(t.push(c), i) == lead_ws(t, i),
        lead_ws(t, i) == t.len() ==> lead_ws(t.push(c), i) == t.len() + 1,
    decreases t.len() - i,
{
    lemma_lead_ws(t, i);
    if i < t.len() {
        assert(t.push(c)[i] == t[i]);
        lemma_lead_before(t, c, i + 1);
    } else {
        assert(t.push(c)[i] == c);
        assert(lead_ws(t.push(c), i + 1) == i + 1);
    }
}

proof fn lemma_trail_before(t: Seq<char>, c: char, j: int)
    requires
        0 <= j <= t.len(),
    ensures
        trail_ws(t.push(c), j) == trail_ws(t, j),
    decreases j,
{
    if j > 0 {
        assert(t.push(c)[j - 1] == t[j - 1]);
        lemma_trail_before(t, c, j - 1);
    }
}

/// Spaces around a text change nothing of it once trimmed.
proof fn lemma_trim_padded(q: Seq<char>)
    ensures
        trim(seq![' '] + q + seq![' ']) == trim(q),
{
    let q2 = q.push(' ');
    let s2 = seq![' '] + q2;
    assert(seq![' '] + q + seq![' '] =~= s2);
    assert(is_ws(' '));
    assert(s2[0] == ' ');
    lemma_lead_after(' ', q2, 0);
    assert(lead_ws(s2, 0) == lead_ws(q2, 0) + 1);
    lemma_lead_before(q, ' ', 0);
    lemma_lead_ws(q, 0);
    let a = lead_ws(q, 0);
    if a < q.len() {
        let ts = trim_start(q);
        assert(trim_start(s2) =~= ts.push(' '));
        lemma_trail_before(ts, ' ', ts.len() as int);
        assert(ts.push(' ')[ts.len() as int] == ' ');
        assert(trail_ws(ts.push(' '), (ts.len() + 1) as int) == trail_ws(ts, ts.len() as int));
        lemma_trail_ws(ts, ts.len() as int);
        assert(trim_end(ts.push(' ')) =~= trim_end(ts));
    } else {
        assert(trim_start(s2) =~= Seq::<char>::empty());
        assert(trim_start(q) =~= Seq::<char>::empty());
    }
}

/// Spaces around a query change nothing: it is trimmed before it is compared.
pub proof fn law_search_ignores_padding(block: BlockInfo, nav: Seq<NavItem>, query: Seq<char>)
    ensures
        matches_of(block, nav, seq![' '] + query + seq![' ']) == matches_of(block, nav, query),
{
    lemma_trim_padded(query);
}

pub fn matches(block: &BlockInfo, nav: &Vec<NavItem>, query: &str) -> (r: bool)
    ensures
        r == matches_of(*block, nav@, query@),
{
    let trimmed = string_of(&trim_exec(&chars_of(query)));
    let q = chars_of(to_lowercase(trimmed.as_str()).as_str());
    if q.len() == 0 {
        return true;
    }
    if contains_exec(&chars_of(to_lowercase(block.title.as_str()).as_str()), &q) {
        return true;
    }
    if contains_exec(&chars_of(to_lowercase(block.description.as_str()).as_str()), &q) {
        return true;
    }
    let mut k: usize = 0;
    while k < block.uses.len()
        invariant
            k <= block.uses@.len(),
            q@ == lower(trim(query@)),
            forall|i: int| 0 <= i < k ==> !component_answers(nav@, #[trigger] block.uses@[i]@, q@),
        decreases block.uses.len() - k,
    {
        let component = chars_of(block.uses[k].as_str());
        let answers = contains_exec(&component, &q) || match label_for(nav, block.uses[k].as_str()) {
            Some(label) => contains_exec(&chars_of(to_lowercase(label.as_str()).as_str()), &q),
            None => false,
        };
        if answers {
            assert(component_answers(nav@, block.uses@[k as int]@, q@));
            return true;
        }
        k += 1;
    }
    false
}


/// The positions of the blocks among `blocks` that answer to `query`, in order.
pub open spec fn showing_of(blocks: Seq<BlockInfo>, nav: Seq<NavItem>, query: Seq<char>) -> Seq<int>
    decreases blocks.len(),
{
    if blocks.len() == 0 {
        seq![]
    } else {
        let before = showing_of(blocks.drop_last(), nav, query);
        if matches_of(blocks.last(), nav, query) {
            before.push(blocks.len() - 1)
        } else {
            before
        }
    }
}

/// Which blocks the index shows for `query`, by their position among `blocks`: those that
/// answer to it, in the order they come.
pub fn showing(blocks: &Vec<BlockInfo>, nav: &Vec<NavItem>, query: &str) -> (r: Vec<usize>)
    ensures
        r@.map(|i: int, v: usize| v as int) == showing_of(blocks@, nav@, query@),
{
    let mut out: Vec<usize> = Vec::new();
    let mut k: usize = 0;
    while k < blocks.len()
        invariant
            k <= blocks@.len(),
            out@.map(|i: int, v: usize| v as int) == showing_of(blocks@.take(k as int), nav@, query@),
        decreases blocks.len() - k,
    {
        assert(blocks@.take(k + 1).drop_last() =~= blocks@.take(k as int));
        assert(blocks@.take(k + 1).last() == blocks@[k as int]);
        let ghost before = out@;
        if matches(&blocks[k], nav, query) {
            out.push(k);
            assert(out@.map(|i: int, v: usize| v as int) =~= before.map(|i: int, v: usize| v as int).push(k as int));
        }
        k += 1;
    }
    assert(blocks@.take(blocks@.len() as int) =~= blocks@);
    out
}

// ---------------------------------------------------------------------------------------------
// The navigation
// ---------------------------------------------------------------------------------------------

/// A group of the site's navigation: its heading, and its entries in the order they are written.
pub struct NavGroup {
    pub label: String,
    pub items: Vec<NavItem>,
}

/// The lower-cased label of entry `i`, which is what the components are ordered by.
pub open spec fn key_of(items: Seq<NavItem>, i: int) -> Seq<char> {
    lower(items[i].label@)
}

/// `p` lists the positions `0..n`, each once.
pub open spec fn arrangement(p: Seq<int>, n: int) -> bool {
    &&& p.len() == n
    &&& forall|i: int| 0 <= i < n ==> 0 <= #[trigger] p[i] < n
    &&& forall|i: int, j: int| 0 <= i < j < n ==> p[i] != p[j]
}

/// `p` takes the entries of `items` in order of lower-cased label, and entries whose labels
/// lower-case alike in the order they are written.
pub open spec fn label_order(items: Seq<NavItem>, p: Seq<int>) -> bool {
    &&& forall|i: int, j: int|
        0 <= i < j < p.len() ==> lex_le(key_of(items, #[trigger] p[i]), key_of(items, #[trigger] p[j]))
    &&& forall|i: int, j: int|
        0 <= i < j < p.len() && key_of(items, #[trigger] p[i]) == key_of(items, #[trigger] p[j])
            ==> p[i] < p[j]
}

/// `r` is `items` sorted by lower-cased label, as a stable sort leaves them.
pub open spec fn sorted_by_label(r: Seq<NavItem>, items: Seq<NavItem>) -> bool {
    exists|p: Seq<int>|
        #![trigger arrangement(p, items.len() as int)]
        {
            &&& arrangement(p, items.len() as int)
            &&& label_order(items, p)
            &&& r.len() == items.len()
            &&& forall|i: int| 0 <= i < r.len() ==> #[trigger] r[i] == items[p[i]]
        }
}

fn copy_item(item: &NavItem) -> (r: NavItem)
    ensures
        r == *item,
{
    NavItem { label: item.label.clone(), href: item.href.clone() }
}

/// Where `k`, whose key is `key`, goes among `order`, which is in label order: after every entry
/// whose key is no greater, so that an entry never passes one written before it.
fn slot(keys: &Vec<Vec<char>>, order: &Vec<usize>, k: usize, Ghost(items): Ghost<Seq<NavItem>>) -> (r: usize)
    requires
        k < keys@.len() == items.len(),
        forall|i: int| 0 <= i < keys@.len() ==> #[trigger] keys@[i]@ == key_of(items, i),
        forall|i: int| 0 <= i < order@.len() ==> #[trigger] order@[i] < k,
        forall|i: int, j: int|
            0 <= i < j < order@.len() ==> lex_le(key_of(items, #[trigger] order@[i] as int), key_of(items, #[trigger] order@[j] as int)),
    ensures
        r <= order@.len(),
        forall|i: int| 0 <= i < r ==> lex_le(key_of(items, #[trigger] order@[i] as int), key_of(items, k as int)),
        forall|i: int| r <= i < order@.len() ==> lex_lt(key_of(items, k as int), key_of(items, #[trigger] order@[i] as int)),
{
    let mut pos: usize = 0;
    while pos < order.len() && !lex_lt_exec(&keys[k], &keys[order[pos]])
        invariant
            pos <= order@.len(),
            k < keys@.len() == items.len(),
            forall|i: int| 0 <= i < keys@.len() ==> #[trigger] keys@[i]@ == key_of(items, i),
            forall|i: int| 0 <= i < order@.len() ==> #[trigger] order@[i] < k,
            forall|i: int| 0 <= i < pos ==> lex_le(key_of(items, #[trigger] order@[i] as int), key_of(items, k as int)),
        decreases order@.len() - pos,
    {
        proof {
            let a = key_of(items, order@[pos as int] as int);
            let b = key_of(items, k as int);
            lemma_lex_total(a, b);
        }
        pos += 1;
    }
    proof {
        if pos < order@.len() {
            let b = key_of(items, k as int);
            let first = key_of(items, order@[pos as int] as int);
            assert(lex_lt(b, first));
            assert forall|i: int| pos <= i < order@.len() implies lex_lt(b, key_of(items, #[trigger] order@[i] as int)) by {
                if i > pos {
                    let c = key_of(items, order@[i] as int);
                    assert(lex_le(first, c));
                    if first != c {
                        lemma_lex_transitive(b, first, c);
                    }
                }
            }
        }
    }
    pos
}

/// The entries of `group` in the order the sidebar and the search palette list them: the
/// components sorted by lower-cased label, with entries that lower-case alike in the order they
/// are written; every other group as written.
pub fn menu_items(group: &NavGroup) -> (r: Vec<NavItem>)
    ensures
        group.label@ == "Components"@ ==> sorted_by_label(r@, group.items@),
        group.label@ != "Components"@ ==> r@ == group.items@,
{
    let items = &group.items;
    let ghost its = items@;
    if !same(&chars_of(group.label.as_str()), &chars_of("Components")) {
        let mut out: Vec<NavItem> = Vec::new();
        let mut k: usize = 0;
        while k < items.len()
            invariant
                k <= items@.len(),
                out@ == items@.take(k as int),
            decreases items.len() - k,
        {
            out.push(copy_item(&items[k]));
            assert(out@ =~= items@.take(k + 1));
            k += 1;
        }
        assert(items@.take(items@.len() as int) =~= items@);
        return out;
    }
    let mut keys: Vec<Vec<char>> = Vec::new();
    let mut k: usize = 0;
    while k < items.len()
        invariant
            k <= items@.len(),
            its == items@,
            keys@.len() == k,
            forall|i: int| 0 <= i < k ==> #[trigger] keys@[i]@ == key_of(its, i),
        decreases items.len() - k,
    {
        keys.push(chars_of(to_lowercase(items[k].label.as_str()).as_str()));
        k += 1;
    }
    let mut order: Vec<usize> = Vec::new();
    let mut k: usize = 0;
    while k < items.len()
        invariant
            k <= items@.len(),
            its == items@,
            keys@.len() == items@.len(),
            forall|i: int| 0 <= i < keys@.len() ==> #[trigger] keys@[i]@ == key_of(its, i),
            order@.len() == k,
            forall|i: int| 0 <= i < k ==> #[trigger] order@[i] < k,
            forall|i: int, j: int| 0 <= i < j < k ==> order@[i] != order@[j],
            forall|i: int, j: int|
                0 <= i < j < k ==> lex_le(key_of(its, #[trigger] order@[i] as int), key_of(its, #[trigger] order@[j] as int)),
            forall|i: int, j: int|
                0 <= i < j < k && key_of(its, #[trigger] order@[i] as int) == key_of(its, #[trigger] order@[j] as int)
                    ==> order@[i] < order@[j],
        decreases items.len() - k,
    {
        let pos = slot(&keys, &order, k, Ghost(its));
        let ghost before = order@;
        order.insert(pos, k);
        proof {
            let kk = key_of(its, k as int);
            assert(order@ == before.insert(pos as int, k));
            assert forall|i: int, j: int|
                0 <= i < j < k + 1 implies lex_le(key_of(its, #[trigger] order@[i] as int), key_of(its, #[trigger] order@[j] as int)) by {
                if j < pos {
                    assert(order@[i] == before[i] && order@[j] == before[j]);
                } else if j == pos {
                    assert(order@[i] == before[i]);
                } else if i < pos {
                    assert(order@[i] == before[i] && order@[j] == before[j - 1]);
                    let a = key_of(its, before[i] as int);
                    let c = key_of(its, before[j - 1] as int);
                    if a != kk {
                        lemma_lex_transitive(a, kk, c);
                    }
                } else if i == pos {
                    assert(order@[j] == before[j - 1]);
                } else {
                    assert(order@[i] == before[i - 1] && order@[j] == before[j - 1]);
                }
            }
            assert forall|i: int, j: int|
                0 <= i < j < k + 1 && key_of(its, #[trigger] order@[i] as int) == key_of(its, #[trigger] order@[j] as int)
                    implies order@[i] < order@[j] by {
                if j < pos {
                    assert(order@[i] == before[i] && order@[j] == before[j]);
                } else if j == pos {
                    assert(order@[i] == before[i]);
                } else if i < pos {
                    assert(order@[i] == before[i] && order@[j] == before[j - 1]);
                } else if i == pos {
                    assert(order@[j] == before[j - 1]);
                    lemma_lex_irreflexive(kk);
                } else {
                    assert(order@[i] == before[i - 1] && order@[j] == before[j - 1]);
                }
            }
            assert forall|i: int, j: int| 0 <= i < j < k + 1 implies order@[i] != order@[j] by {
                if j < pos {
                } else if j == pos {
                } else if i < pos {
                    assert(order@[i] == before[i] && order@[j] == before[j - 1]);
                } else if i == pos {
                    assert(order@[j] == before[j - 1]);
                } else {
                    assert(order@[i] == before[i - 1] && order@[j] == before[j - 1]);
                }
            }
            assert forall|i: int| 0 <= i < k + 1 implies #[trigger] order@[i] < k + 1 by {
                if i < pos {
                    assert(order@[i] == before[i]);
                } else if i > pos {
                    assert(order@[i] == before[i - 1]);
                }
            }
        }
        k += 1;
    }
    let mut out: Vec<NavItem> = Vec::new();
    let mut m: usize = 0;
    while m < order.len()
        invariant
            m <= order@.len(),
            its == items@,
            order@.len() == items@.len(),
            forall|i: int| 0 <= i < order@.len() ==> #[trigger] order@[i] < items@.len(),
            out@.len() == m,
            forall|i: int| 0 <= i < m ==> #[trigger] out@[i] == its[order@[i] as int],
        decreases order@.len() - m,
    {
        out.push(copy_item(&items[order[m]]));
        m += 1;
    }
    proof {
        let p = order@.map(|i: int, v: usize| v as int);
        assert(arrangement(p, its.len() as int));
        assert(label_order(its, p)) by {
            assert forall|i: int, j: int| 0 <= i < j < p.len() implies lex_le(key_of(its, #[trigger] p[i]), key_of(its, #[trigger] p[j])) by {
                assert(p[i] == order@[i] as int && p[j] == order@[j] as int);
            }
            assert forall|i: int, j: int|
                0 <= i < j < p.len() && key_of(its, #[trigger] p[i]) == key_of(its, #[trigger] p[j]) implies p[i] < p[j] by {
                assert(p[i] == order@[i] as int && p[j] == order@[j] as int);
            }
        }
        assert(forall|i: int| 0 <= i < out@.len() ==> #[trigger] out@[i] == its[p[i]]);
    }
    out
}

/// Whether the row for `target` is lit on the page at `path`: its own page, or the blocks page
/// that belongs to it.
pub fn is_current(target: &str, path: &str) -> (r: bool)
    ensures
        r == (path@ == target@ || path@ == target@ + "/blocks"@),
{
    let p = chars_of(path);
    let mut with_blocks = chars_of(target);
    push_all(&mut with_blocks, &chars_of("/blocks"));
    same(&p, &chars_of(target)) || same(&p, &with_blocks)
}

/// The first group headed `label`.
pub open spec fn group_named(nav: Seq<NavGroup>, label: Seq<char>) -> Option<NavGroup>
    decreases nav.len(),
{
    if nav.len() == 0 {
        None
    } else if nav[0].label@ == label {
        Some(nav[0])
    } else {
        group_named(nav.drop_first(), label)
    }
}

/// The first of `items` whose address, under `base`, is `path`.
pub open spec fn item_at(items: Seq<NavItem>, base: Seq<char>, path: Seq<char>) -> Option<NavItem>
    decreases items.len(),
{
    if items.len() == 0 {
        None
    } else if base + items[0].href@ == path {
        Some(items[0])
    } else {
        item_at(items.drop_first(), base, path)
    }
}

/// What follows the last `/` of `s`, or all of `s` when it has none.
pub open spec fn last_segment(s: Seq<char>) -> Seq<char>
    decreases s.len(),
{
    if s.len() == 0 {
        s
    } else if s.last() == '/' {
        seq![]
    } else {
        last_segment(s.drop_last()).push(s.last())
    }
}

/// Where the page at `path` links to its blocks, for a component page: the block index, under
/// `base`, filtered to the blocks that use that component.
pub open spec fn companion_of(nav: Seq<NavGroup>, base: Seq<char>, path: Seq<char>) -> Option<Seq<char>> {
    match group_named(nav, "Components"@) {
        Some(g) => match item_at(g.items@, base, path) {
            Some(item) => Some(base + "/blocks?uses="@ + last_segment(item.href@)),
            None => None,
        },
        None => None,
    }
}

fn last_segment_exec(s: &Vec<char>) -> (r: Vec<char>)
    ensures
        r@ == last_segment(s@),
{
    let mut i: usize = s.len();
    assert(s@.take(i as int) =~= s@);
    assert(s@.skip(i as int) =~= Seq::<char>::empty());
    while i > 0 && s[i - 1] != '/'
        invariant
            i <= s@.len(),
            last_segment(s@) == last_segment(s@.take(i as int)) + s@.skip(i as int),
        decreases i,
    {
        proof {
            let t = s@.take(i as int);
            assert(t.drop_last() =~= s@.take(i - 1));
            assert(t.last() == s@[i - 1]);
            assert(s@.skip(i - 1) =~= seq![s@[i - 1]] + s@.skip(i as int));
            assert(last_segment(t) =~= last_segment(s@.take(i - 1)).push(s@[i - 1]));
        }
        i -= 1;
    }
    proof {
        let t = s@.take(i as int);
        if i > 0 {
            assert(t.last() == s@[i - 1]);
        }
        assert(last_segment(t) =~= seq![]);
        assert(s@.take(s@.len() as int) =~= s@);
    }
    let mut out: Vec<char> = Vec::new();
    let mut k: usize = i;
    while k < s.len()
        invariant
            i <= k <= s@.len(),
            out@ == s@.subrange(i as int, k as int),
        decreases s.len() - k,
    {
        out.push(s[k]);
        assert(out@ =~= s@.subrange(i as int, k + 1));
        k += 1;
    }
    assert(s@.skip(i as int) =~= s@.subrange(i as int, s@.len() as int));
    out
}

/// Where the page at `path` links to its blocks, and what the link says: for a component page,
/// the block index under `base` filtered to the blocks that use it; for any other page, nothing.
pub fn companion(nav: &Vec<NavGroup>, base: &str, path: &str) -> (r: Option<(String, &'static str)>)
    ensures
        r matches Some((link, text)) ==> companion_of(nav@, base@, path@) == Some(link@) && text@ == "Blocks"@,
        r is None ==> companion_of(nav@, base@, path@) is None,
{
    let wanted = chars_of("Components");
    let p = chars_of(path);
    let b = chars_of(base);
    let mut g: usize = 0;
    assert(nav@.skip(0) =~= nav@);
    while g < nav.len()
        invariant
            g <= nav@.len(),
            wanted@ == "Components"@,
            p@ == path@,
            b@ == base@,
            group_named(nav@.skip(g as int), "Components"@) == group_named(nav@, "Components"@),
        decreases nav.len() - g,
    {
        assert(nav@.skip(g as int).drop_first() =~= nav@.skip(g + 1));
        assert(nav@.skip(g as int)[0] == nav@[g as int]);
        if same(&chars_of(nav[g].label.as_str()), &wanted) {
            let items = &nav[g].items;
            let mut k: usize = 0;
            assert(items@.skip(0) =~= items@);
            assert(group_named(nav@.skip(g as int), "Components"@) == Some(nav@[g as int]));
            while k < items.len()
                invariant
                    k <= items@.len(),
                    g < nav@.len(),
                    items@ == nav@[g as int].items@,
                    group_named(nav@, "Components"@) == Some(nav@[g as int]),
                    p@ == path@,
                    b@ == base@,
                    item_at(items@.skip(k as int), base@, path@) == item_at(items@, base@, path@),
                decreases items.len() - k,
            {
                assert(items@.skip(k as int).drop_first() =~= items@.skip(k + 1));
                assert(items@.skip(k as int)[0] == items@[k as int]);
                let mut full = chars_of(base);
                push_all(&mut full, &chars_of(items[k].href.as_str()));
                if same(&full, &p) {
                    let mut link = chars_of(base);
                    push_all(&mut link, &chars_of("/blocks?uses="));
                    push_all(&mut link, &last_segment_exec(&chars_of(items[k].href.as_str())));
                    proof {
                        assert(item_at(items@.skip(k as int), base@, path@) == Some(items@[k as int]));
                        assert(link@ =~= base@ + "/blocks?uses="@ + last_segment(items@[k as int].href@));
                    }
                    return Some((string_of(&link), "Blocks"));
                }
                k += 1;
            }
            return None;
        }
        g += 1;
    }
    None
}

} // verus!
