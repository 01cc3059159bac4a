//! The canvas board block of the documentation site, as far as it decides anything with whole
//! numbers: which nodes are selected after a press or a band, what deleting and duplicating the
//! selection do to the ids, and the depth "to front" writes.
//!
//! Where a node is and what a band touches are geometry in floating point, worked out by the
//! page; it hands the answers in, one `bool` per node.

use crate::board::{decimal, decimal_exec};
use crate::demos::{kind_name, Kind};
use crate::text::{chars_of, push_all, string_of};
use vstd::prelude::*;

verus! {

/// Where `id` first stands in `s`.
pub open spec fn first_at(s: Seq<usize>, id: usize) -> Option<int>
    decreases s.len(),
{
    if s.len() == 0 {
        None
    } else {
        match first_at(s.drop_last(), id) {
            Some(i) => Some(i),
            None => if s.last() == id {
                Some(s.len() - 1)
            } else {
                None
            },
        }
    }
}

proof fn lemma_first_at(s: Seq<usize>, id: usize)
    ensures
        first_at(s, id) matches Some(i) ==> 0 <= i < s.len() && s[i] == id && forall|j: int|
            0 <= j < i ==> s[j] != id,
        first_at(s, id) is None <==> !s.contains(id),
    decreases s.len(),
{
    if s.len() > 0 {
        lemma_first_at(s.drop_last(), id);
        assert forall|j: int| 0 <= j < s.len() - 1 implies s[j] == s.drop_last()[j] by {}
        if s.contains(id) && first_at(s, id) is None {
            let j = choose|j: int| 0 <= j < s.len() && s[j] == id;
            if j < s.len() - 1 {
                assert(s.drop_last().contains(id));
            }
        }
    }
}

fn find(s: &Vec<usize>, id: usize) -> (r: Option<usize>)
    ensures
        r matches Some(i) ==> first_at(s@, id) == Some(i as int) && i < s@.len(),
        r is None ==> first_at(s@, id) is None,
        r is None <==> !s@.contains(id),
{
    proof {
        lemma_first_at(s@, id);
    }
    let mut k: usize = 0;
    while k < s.len()
        invariant
            k <= s@.len(),
            forall|j: int| 0 <= j < k ==> s@[j] != id,
        decreases s.len() - k,
    {
        if s[k] == id {
            proof {
                lemma_first_at(s@, id);
                if first_at(s@, id) != Some(k as int) {
                    match first_at(s@, id) {
                        Some(i) => {
                            assert(i < k || i > k);
                        },
                        None => {
                            assert(s@.contains(id));
                        },
                    }
                }
            }
            return Some(k);
        }
        k += 1;
    }
    proof {
        lemma_first_at(s@, id);
        if first_at(s@, id) is Some {
            let i = first_at(s@, id)->0;
            assert(s@[i] == id);
        }
    }
    None
}

fn holds_id(s: &Vec<usize>, id: usize) -> (r: bool)
    ensures
        r == s@.contains(id),
{
    find(s, id).is_some()
}

// ---------------------------------------------------------------------------------------------
// Pressing a node
// ---------------------------------------------------------------------------------------------

/// The selection after a press on the node `id`: shift adds it or takes it out; a plain press
/// on something already selected leaves the set alone, so that a drag moves all of it; a plain
/// press on anything else selects it alone.
pub open spec fn pressed(selected: Seq<usize>, id: usize, shift: bool) -> Seq<usize> {
    if shift {
        match first_at(selected, id) {
            Some(i) => selected.remove(i),
            None => selected.push(id),
        }
    } else if selected.contains(id) {
        selected
    } else {
        seq![id]
    }
}

/// The selection after a press on the node `id`, shift held or not.
pub fn press(selected: &Vec<usize>, id: usize, shift: bool) -> (r: Vec<usize>)
    ensures
        r@ == pressed(selected@, id, shift),
{
    let mut out = selected.clone();
    assert(out@ == selected@);
    if shift {
        match find(selected, id) {
            Some(i) => {
                out.remove(i);
            },
            None => {
                out.push(id);
            },
        }
        out
    } else if holds_id(selected, id) {
        out
    } else {
        let mut one: Vec<usize> = Vec::new();
        one.push(id);
        assert(one@ =~= seq![id]);
        one
    }
}

/// Nothing is in `s` twice.
pub open spec fn no_repeats(s: Seq<usize>) -> bool {
    forall|i: int, j: int| 0 <= i < j < s.len() ==> s[i] != s[j]
}

/// Selection is a set: a press keeps a selection without repeats free of them, and a shift-press
/// on a selected node leaves it unselected.
pub proof fn law_press_keeps_a_set(selected: Seq<usize>, id: usize, shift: bool)
    requires
        no_repeats(selected),
    ensures
        no_repeats(pressed(selected, id, shift)),
        shift && selected.contains(id) ==> !pressed(selected, id, shift).contains(id),
        shift && !selected.contains(id) ==> pressed(selected, id, shift).contains(id),
        !shift ==> pressed(selected, id, shift).contains(id),
{
    lemma_first_at(selected, id);
    let r = pressed(selected, id, shift);
    if shift {
        match first_at(selected, id) {
            Some(k) => {
                assert forall|i: int, j: int| 0 <= i < j < r.len() implies r[i] != r[j] by {
                    let a = if i < k { i } else { i + 1 };
                    let b = if j < k { j } else { j + 1 };
                    assert(r[i] == selected[a] && r[j] == selected[b]);
                }
                if r.contains(id) {
                    let j = choose|j: int| 0 <= j < r.len() && r[j] == id;
                    let b = if j < k { j } else { j + 1 };
                    assert(r[j] == selected[b]);
                }
            },
            None => {
                assert forall|i: int, j: int| 0 <= i < j < r.len() implies r[i] != r[j] by {
                    if j == selected.len() {
                        assert(r[i] == selected[i]);
                    }
                }
                assert(r[selected.len() as int] == id);
            },
        }
    } else if selected.contains(id) {
    } else {
        assert(r[0] == id);
    }
}

// ---------------------------------------------------------------------------------------------
// A band over the board
// ---------------------------------------------------------------------------------------------

/// What a band starts from: the selection when shift is held, so that it extends it, and
/// nothing otherwise, so that it replaces it.
pub fn band_base(selected: &Vec<usize>, shift: bool) -> (r: Vec<usize>)
    ensures
        r@ == if shift { selected@ } else { seq![] },
{
    if shift {
        let out = selected.clone();
        out
    } else {
        Vec::new()
    }
}

/// `base` followed by each node the band touches, in the order of the nodes, unless it is
/// already there.
pub open spec fn banded(base: Seq<usize>, ids: Seq<usize>, touched: Seq<bool>) -> Seq<usize>
    decreases ids.len(),
{
    if ids.len() == 0 {
        base
    } else {
        let before = banded(base, ids.drop_last(), touched.drop_last());
        if touched.last() && !before.contains(ids.last()) {
            before.push(ids.last())
        } else {
            before
        }
    }
}

/// The selection a band leaves, given what it started from and, for each node `ids[i]`, whether
/// the band touches it.
pub fn band(base: &Vec<usize>, ids: &Vec<usize>, touched: &Vec<bool>) -> (r: Vec<usize>)
    requires
        ids@.len() == touched@.len(),
    ensures
        r@ == banded(base@, ids@, touched@),
{
    let mut out = base.clone();
    let mut k: usize = 0;
    assert(out@ == banded(base@, ids@.take(0), touched@.take(0)));
    while k < ids.len()
        invariant
            k <= ids@.len() == touched@.len(),
            out@ == banded(base@, ids@.take(k as int), touched@.take(k as int)),
        decreases ids.len() - k,
    {
        assert(ids@.take(k + 1).drop_last() =~= ids@.take(k as int));
        assert(touched@.take(k + 1).drop_last() =~= touched@.take(k as int));
        assert(ids@.take(k + 1).last() == ids@[k as int]);
        assert(touched@.take(k + 1).last() == touched@[k as int]);
        if touched[k] && !holds_id(&out, ids[k]) {
            out.push(ids[k]);
        }
        k += 1;
    }
    assert(ids@.take(ids@.len() as int) =~= ids@);
    assert(touched@.take(touched@.len() as int) =~= touched@);
    out
}

/// A band never puts a node into the selection twice.
pub proof fn law_band_keeps_a_set(base: Seq<usize>, ids: Seq<usize>, touched: Seq<bool>)
    requires
        no_repeats(base),
        ids.len() == touched.len(),
    ensures
        no_repeats(banded(base, ids, touched)),
        forall|i: int| 0 <= i < ids.len() && touched[i] ==> banded(base, ids, touched).contains(#[trigger] ids[i]),
    decreases ids.len(),
{
    if ids.len() > 0 {
        let pi = ids.drop_last();
        let pt = touched.drop_last();
        law_band_keeps_a_set(base, pi, pt);
        let before = banded(base, pi, pt);
        let r = banded(base, ids, touched);
        assert forall|i: int| 0 <= i < ids.len() && touched[i] implies r.contains(#[trigger] ids[i]) by {
            if i < ids.len() - 1 {
                assert(pi[i] == ids[i] && pt[i] == touched[i]);
                let j = choose|j: int| 0 <= j < before.len() && before[j] == ids[i];
                if r != before {
                    assert(r[j] == before[j]);
                }
            } else if before.contains(ids[i]) {
                let j = choose|j: int| 0 <= j < before.len() && before[j] == ids[i];
                if r != before {
                    assert(r[j] == before[j]);
                }
            } else {
                assert(r[before.len() as int] == ids[i]);
            }
        }
        assert forall|i: int, j: int| 0 <= i < j < r.len() implies r[i] != r[j] by {
            if r != before && j == before.len() {
                assert(r[i] == before[i]);
            }
        }
    }
}

// ---------------------------------------------------------------------------------------------
// What the toolbar does to the selection
// ---------------------------------------------------------------------------------------------

/// The ids of the nodes that are not selected, in order.
pub open spec fn unselected(ids: Seq<usize>, selected: Seq<usize>) -> Seq<usize>
    decreases ids.len(),
{
    if ids.len() == 0 {
        seq![]
    } else if selected.contains(ids.last()) {
        unselected(ids.drop_last(), selected)
    } else {
        unselected(ids.drop_last(), selected).push(ids.last())
    }
}

/// The ids of the selected nodes, in the order of the nodes.
pub open spec fn picked(ids: Seq<usize>, selected: Seq<usize>) -> Seq<usize>
    decreases ids.len(),
{
    if ids.len() == 0 {
        seq![]
    } else if selected.contains(ids.last()) {
        picked(ids.drop_last(), selected).push(ids.last())
    } else {
        picked(ids.drop_last(), selected)
    }
}

proof fn lemma_picked_len(ids: Seq<usize>, selected: Seq<usize>)
    ensures
        picked(ids, selected).len() <= ids.len(),
    decreases ids.len(),
{
    if ids.len() > 0 {
        lemma_picked_len(ids.drop_last(), selected);
    }
}

/// Deleting takes every selected node off the board, and leaves nothing selected.
pub fn delete_selected(ids: &mut Vec<usize>, selected: &mut Vec<usize>)
    ensures
        final(ids)@ == unselected(old(ids)@, old(selected)@),
        final(selected)@ == Seq::<usize>::empty(),
{
    let mut out: Vec<usize> = Vec::new();
    let mut k: usize = 0;
    while k < ids.len()
        invariant
            k <= ids@.len(),
            out@ == unselected(ids@.take(k as int), selected@),
        decreases ids.len() - k,
    {
        assert(ids@.take(k + 1).drop_last() =~= ids@.take(k as int));
        assert(ids@.take(k + 1).last() == ids@[k as int]);
        if !holds_id(selected, ids[k]) {
            out.push(ids[k]);
        }
        k += 1;
    }
    assert(ids@.take(ids@.len() as int) =~= ids@);
    *ids = out;
    *selected = Vec::new();
}

/// Duplicating copies each selected node, in the order of the nodes, under fresh ids counted up
/// from `next`: it hands back those ids, which become the selection, and the next id after them.
pub fn duplicate_ids(ids: &Vec<usize>, selected: &Vec<usize>, next: usize) -> (r: (Vec<usize>, usize))
    requires
        next + ids@.len() <= usize::MAX,
    ensures
        r.0@.len() == picked(ids@, selected@).len(),
        forall|i: int| 0 <= i < r.0@.len() ==> #[trigger] r.0@[i] == next + i,
        r.1 == next + picked(ids@, selected@).len(),
{
    let mut count: usize = 0;
    let mut k: usize = 0;
    while k < ids.len()
        invariant
            k <= ids@.len(),
            count == picked(ids@.take(k as int), selected@).len(),
            count <= k,
        decreases ids.len() - k,
    {
        assert(ids@.take(k + 1).drop_last() =~= ids@.take(k as int));
        assert(ids@.take(k + 1).last() == ids@[k as int]);
        if holds_id(selected, ids[k]) {
            count += 1;
        }
        k += 1;
    }
    assert(ids@.take(ids@.len() as int) =~= ids@);
    let mut fresh: Vec<usize> = Vec::new();
    let mut i: usize = 0;
    while i < count
        invariant
            i <= count,
            count <= ids@.len(),
            next + ids@.len() <= usize::MAX,
            fresh@.len() == i,
            forall|j: int| 0 <= j < i ==> #[trigger] fresh@[j] == next + j,
        decreases count - i,
    {
        fresh.push(next + i);
        i += 1;
    }
    (fresh, next + count)
}

// ---------------------------------------------------------------------------------------------
// To front
// ---------------------------------------------------------------------------------------------

/// The highest depth on the board, or 0 for an empty board.
pub open spec fn top_of(z: Seq<i32>) -> int
    decreases z.len(),
{
    if z.len() == 0 {
        0
    } else if z.len() == 1 {
        z[0] as int
    } else if z.last() > top_of(z.drop_last()) {
        z.last() as int
    } else {
        top_of(z.drop_last())
    }
}

proof fn lemma_top_of(z: Seq<i32>)
    ensures
        i32::MIN <= top_of(z) <= i32::MAX,
    decreases z.len(),
{
    if z.len() > 1 {
        lemma_top_of(z.drop_last());
    }
}

/// The depth "to front" gives node `i`: each selected node, in the order of the nodes, one above
/// the last, starting from the top of the board and stopping at the largest depth there is; the
/// others keep theirs.
pub open spec fn raised(z: Seq<i32>, ids: Seq<usize>, selected: Seq<usize>, i: int) -> int {
    if selected.contains(ids[i]) {
        let d = top_of(z) + picked(ids.take(i + 1), selected).len();
        if d < i32::MAX { d } else { i32::MAX as int }
    } else {
        z[i] as int
    }
}

/// "To front": writes a depth above everything to each selected node.
pub fn raise(z: &mut Vec<i32>, ids: &Vec<usize>, selected: &Vec<usize>)
    requires
        old(z)@.len() == ids@.len(),
    ensures
        final(z)@.len() == old(z)@.len(),
        forall|i: int| 0 <= i < old(z)@.len() ==> #[trigger] final(z)@[i] as int == raised(old(z)@, ids@, selected@, i),
{
    let ghost z0 = z@;
    if z.len() == 0 {
        return;
    }
    let mut top: i32 = z[0];
    let mut k: usize = 1;
    assert(z0.take(1).len() == 1);
    while k < z.len()
        invariant
            1 <= k <= z@.len(),
            z@ == z0,
            top as int == top_of(z0.take(k as int)),
        decreases z.len() - k,
    {
        assert(z0.take(k + 1).drop_last() =~= z0.take(k as int));
        assert(z0.take(k + 1).last() == z0[k as int]);
        if z[k] > top {
            top = z[k];
        }
        k += 1;
    }
    assert(z0.take(z0.len() as int) =~= z0);
    let ghost top0 = top as int;
    let mut k: usize = 0;
    while k < z.len()
        invariant
            k <= z@.len() == z0.len() == ids@.len(),
            top0 == top_of(z0),
            top as int == if top0 + picked(ids@.take(k as int), selected@).len() < i32::MAX {
                top0 + picked(ids@.take(k as int), selected@).len()
            } else {
                i32::MAX as int
            },
            forall|i: int| 0 <= i < k ==> #[trigger] z@[i] as int == raised(z0, ids@, selected@, i),
            forall|i: int| k <= i < z@.len() ==> #[trigger] z@[i] == z0[i],
        decreases z.len() - k,
    {
        assert(ids@.take(k + 1).drop_last() =~= ids@.take(k as int));
        assert(ids@.take(k + 1).last() == ids@[k as int]);
        if holds_id(selected, ids[k]) {
            if top < i32::MAX {
                top = top + 1;
            }
            z.set(k, top);
        }
        k += 1;
    }
}

// ---------------------------------------------------------------------------------------------
// Placing a node, and what the board says of the selection
// ---------------------------------------------------------------------------------------------

/// The name a placed node gets: what the palette calls its kind, and its id.
pub fn placed_label(kind: Kind, id: usize) -> (r: String)
    ensures
        r@ == kind_name(kind) + " "@ + decimal(id as nat),
{
    let mut out = chars_of(kind.label());
    push_all(&mut out, &chars_of(" "));
    push_all(&mut out, &decimal_exec(id));
    string_of(&out)
}

/// A node dropped from the palette: it takes the next id, the count moves on, and the new node is
/// the selection. Hands back the id it took.
pub fn place(ids: &mut Vec<usize>, next: &mut usize, selected: &mut Vec<usize>) -> (r: usize)
    requires
        *old(next) < usize::MAX,
    ensures
        r == *old(next),
        final(ids)@ == old(ids)@.push(r),
        *final(next) == *old(next) + 1,
        final(selected)@ == seq![r],
{
    let id = *next;
    ids.push(id);
    *next = id + 1;
    let mut one: Vec<usize> = Vec::new();
    one.push(id);
    *selected = one;
    assert(selected@ =~= seq![id]);
    id
}

/// Whether the frame with its grips is drawn round the selection: only for two nodes or more,
/// since a single node has grips of its own.
pub fn frame_drawn(selected: usize) -> (r: bool)
    ensures
        r == (selected >= 2),
{
    selected >= 2
}

/// The inspector's title and kind line for the selected nodes, given their labels and kinds in
/// order: a single node's own label and kind, or how many are selected and "Selection"; nothing
/// when none is.
pub fn inspector_heading(labels: &Vec<String>, kinds: &Vec<Kind>) -> (r: Option<(String, String)>)
    requires
        labels@.len() == kinds@.len(),
    ensures
        labels@.len() == 0 ==> r is None,
        labels@.len() == 1 ==> (r matches Some((t, k)) && t@ == labels@[0]@ && k@ == kind_name(kinds@[0])),
        labels@.len() >= 2 ==> (r matches Some((t, k)) && t@ == decimal(labels@.len() as nat) + " selected"@
            && k@ == "Selection"@),
{
    if labels.len() == 0 {
        None
    } else if labels.len() == 1 {
        Some((labels[0].clone(), kinds[0].label().to_string()))
    } else {
        let mut t = decimal_exec(labels.len());
        push_all(&mut t, &chars_of(" selected"));
        Some((string_of(&t), "Selection".to_string()))
    }
}

/// What the board's caption says of a selection of `count` notes.
pub fn selection_caption(count: usize) -> (r: String)
    ensures
        r@ == if count == 0 {
            "Nothing selected."@
        } else if count == 1 {
            "One note selected."@
        } else {
            decimal(count as nat) + " notes selected."@
        },
{
    if count == 0 {
        "Nothing selected.".to_string()
    } else if count == 1 {
        "One note selected.".to_string()
    } else {
        let mut t = decimal_exec(count);
        push_all(&mut t, &chars_of(" notes selected."));
        string_of(&t)
    }
}

} // verus!
