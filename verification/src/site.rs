//! Two small rules of the documentation site: the id a heading gets from its text, and which
//! palette rows the theme switcher offers and what picking one sets.

use crate::text::{chars_of, lemma_trail_char, slice_of, string_of, trail_char};
use vstd::prelude::*;

verus! {

// ---------------------------------------------------------------------------------------------
// Heading ids
// ---------------------------------------------------------------------------------------------

pub open spec fn is_ascii_alnum(c: char) -> bool {
    ('0' <= c && c <= '9') || ('a' <= c && c <= 'z') || ('A' <= c && c <= 'Z')
}

pub open spec fn ascii_lower(c: char) -> char {
    if 'A' <= c && c <= 'Z' {
        ((c as u32) + 32) as char
    } else {
        c
    }
}

/// The id built from `text` so far: each ASCII letter or digit lower-cased, and each run of
/// anything else after the first of them one `-`.
pub open spec fn slug_state(text: Seq<char>) -> Seq<char>
    decreases text.len(),
{
    if text.len() == 0 {
        seq![]
    } else {
        let out = slug_state(text.drop_last());
        let c = text.last();
        if is_ascii_alnum(c) {
            out.push(ascii_lower(c))
        } else if out.len() > 0 && out.last() != '-' {
            out.push('-')
        } else {
            out
        }
    }
}

/// The id a heading is given, derived from its own text so the rail and the heading agree on it
/// without either being told what the other used: `slug_state` with the trailing `-` taken off.
pub open spec fn slug_of(text: Seq<char>) -> Seq<char> {
    let out = slug_state(text);
    out.take(trail_char(out, '-', out.len() as int))
}

fn lower_exec(c: char) -> (r: char)
    ensures
        r == ascii_lower(c),
{
    if 'A' <= c && c <= 'Z' {
        let b = (c as u8) + 32;
        b as char
    } else {
        c
    }
}

pub fn slug(text: &str) -> (r: String)
    ensures
        r@ == slug_of(text@),
{
    let cs = chars_of(text);
    let mut out: Vec<char> = Vec::new();
    let mut i: usize = 0;
    while i < cs.len()
        invariant
            i <= cs@.len(),
            out@ == slug_state(cs@.take(i as int)),
        decreases cs.len() - i,
    {
        assert(cs@.take(i + 1).drop_last() =~= cs@.take(i as int));
        let c = cs[i];
        if ('0' <= c && c <= '9') || ('a' <= c && c <= 'z') || ('A' <= c && c <= 'Z') {
            out.push(lower_exec(c));
        } else if out.len() > 0 && out[out.len() - 1] != '-' {
            out.push('-');
        }
        i += 1;
    }
    assert(cs@.take(cs@.len() as int) =~= cs@);
    let mut j = out.len();
    while j > 0 && out[j - 1] == '-'
        invariant
            j <= out@.len(),
            trail_char(out@, '-', j as int) == trail_char(out@, '-', out@.len() as int),
        decreases j,
    {
        j -= 1;
    }
    proof {
        lemma_trail_char(out@, '-', out@.len() as int);
    }
    let kept = slice_of(&out, 0, j);
    assert(kept@ =~= out@.take(j as int));
    string_of(&kept)
}

/// `s` reads as an id: lower-case ASCII letters, digits and `-`, no `-` first, none twice running.
pub open spec fn id_shaped(s: Seq<char>) -> bool {
    &&& forall|i: int| 0 <= i < s.len() ==> is_id_char(#[trigger] s[i])
    &&& s.len() > 0 ==> s[0] != '-'
    &&& forall|i: int| 0 <= i < s.len() - 1 ==> !(#[trigger] s[i] == '-' && s[i + 1] == '-')
}

pub open spec fn is_id_char(c: char) -> bool {
    ('0' <= c && c <= '9') || ('a' <= c && c <= 'z') || c == '-'
}

pub open spec fn ascii_upper(c: char) -> char {
    if 'a' <= c && c <= 'z' {
        ((c as u32) - 32) as char
    } else {
        c
    }
}

/// `text` with its ASCII letters upper-cased, as `str::to_ascii_uppercase` makes it.
pub open spec fn upper_text(text: Seq<char>) -> Seq<char> {
    text.map(|i: int, c: char| ascii_upper(c))
}

proof fn lemma_slug_state_shaped(text: Seq<char>)
    ensures
        id_shaped(slug_state(text)),
    decreases text.len(),
{
    if text.len() > 0 {
        lemma_slug_state_shaped(text.drop_last());
        let out = slug_state(text.drop_last());
        let c = text.last();
        let r = slug_state(text);
        if is_ascii_alnum(c) {
            assert(is_id_char(ascii_lower(c)));
            assert(ascii_lower(c) != '-');
            assert forall|i: int| 0 <= i < r.len() implies is_id_char(#[trigger] r[i]) by {
                if i < out.len() {
                    assert(r[i] == out[i]);
                }
            }
            assert forall|i: int| 0 <= i < r.len() - 1 implies !(#[trigger] r[i] == '-' && r[i + 1] == '-') by {
                if i < out.len() - 1 {
                    assert(r[i] == out[i] && r[i + 1] == out[i + 1]);
                }
            }
        } else if out.len() > 0 && out.last() != '-' {
            assert forall|i: int| 0 <= i < r.len() implies is_id_char(#[trigger] r[i]) by {
                if i < out.len() {
                    assert(r[i] == out[i]);
                }
            }
            assert forall|i: int| 0 <= i < r.len() - 1 implies !(#[trigger] r[i] == '-' && r[i + 1] == '-') by {
                if i < out.len() - 1 {
                    assert(r[i] == out[i] && r[i + 1] == out[i + 1]);
                } else {
                    assert(r[i] == out.last());
                }
            }
        }
    }
}

proof fn lemma_trail_stops(s: Seq<char>, c: char, j: int)
    requires
        0 <= j <= s.len(),
    ensures
        trail_char(s, c, j) == 0 || s[trail_char(s, c, j) - 1] != c,
    decreases j,
{
    if j > 0 && s[j - 1] == c {
        lemma_trail_stops(s, c, j - 1);
    }
}

proof fn lemma_slug_of_shaped(text: Seq<char>)
    ensures
        id_shaped(slug_of(text)),
        slug_of(text).len() > 0 ==> slug_of(text).last() != '-',
{
    let out = slug_state(text);
    lemma_slug_state_shaped(text);
    lemma_trail_char(out, '-', out.len() as int);
    lemma_trail_stops(out, '-', out.len() as int);
    let j = trail_char(out, '-', out.len() as int);
    let r = out.take(j);
    assert forall|i: int| 0 <= i < r.len() implies is_id_char(#[trigger] r[i]) by {
        assert(r[i] == out[i]);
    }
    assert forall|i: int| 0 <= i < r.len() - 1 implies !(#[trigger] r[i] == '-' && r[i + 1] == '-') by {
        assert(r[i] == out[i] && r[i + 1] == out[i + 1]);
    }
    if r.len() > 0 {
        assert(r[0] == out[0]);
        assert(r.last() == out[j - 1]);
    }
}

proof fn lemma_slug_state_fixed(s: Seq<char>)
    requires
        id_shaped(s),
    ensures
        slug_state(s) == s,
    decreases s.len(),
{
    if s.len() > 0 {
        let t = s.drop_last();
        assert(id_shaped(t)) by {
            assert forall|i: int| 0 <= i < t.len() implies is_id_char(#[trigger] t[i]) by {
                assert(t[i] == s[i]);
            }
            assert forall|i: int| 0 <= i < t.len() - 1 implies !(#[trigger] t[i] == '-' && t[i + 1] == '-') by {
                assert(t[i] == s[i] && t[i + 1] == s[i + 1]);
            }
            if t.len() > 0 {
                assert(t[0] == s[0]);
            }
        }
        lemma_slug_state_fixed(t);
        let c = s.last();
        assert(is_id_char(s[s.len() - 1]));
        if c == '-' {
            assert(s.len() > 1);
            assert(!(s[s.len() - 2] == '-' && s[s.len() - 1] == '-'));
            assert(t.last() == s[s.len() - 2]);
        }
        assert(s =~= t.push(c));
    }
}

proof fn lemma_slug_state_upper(text: Seq<char>)
    ensures
        slug_state(upper_text(text)) == slug_state(text),
    decreases text.len(),
{
    if text.len() > 0 {
        assert(upper_text(text).drop_last() =~= upper_text(text.drop_last()));
        lemma_slug_state_upper(text.drop_last());
        let c = text.last();
        assert(upper_text(text).last() == ascii_upper(c));
        if 'a' <= c && c <= 'z' {
            let u = ascii_upper(c);
            assert(ascii_lower(u) == c);
        }
    }
}

/// A heading id holds only lower-case ASCII letters, digits and `-`; it neither starts nor ends
/// with `-` nor holds two running; slugging it again changes nothing; and the case of the text
/// does not matter.
pub proof fn law_slug_is_an_id(text: Seq<char>)
    ensures
        id_shaped(slug_of(text)),
        slug_of(text).len() > 0 ==> slug_of(text).last() != '-',
        slug_of(slug_of(text)) == slug_of(text),
        slug_of(upper_text(text)) == slug_of(text),
{
    lemma_slug_of_shaped(text);
    let s = slug_of(text);
    lemma_slug_state_fixed(s);
    lemma_trail_char(s, '-', s.len() as int);
    if s.len() > 0 {
        assert(trail_char(s, '-', s.len() as int) == s.len());
    }
    assert(s.take(s.len() as int) =~= s);
    lemma_slug_state_upper(text);
}

// ---------------------------------------------------------------------------------------------
// Palettes
// ---------------------------------------------------------------------------------------------

/// One row of the theme switcher's palette column: what `data-theme` is set to when it is
/// picked (the empty name is the base palette), what it is called, and the other names the row
/// also stands for.
pub struct Palette {
    pub name: &'static str,
    pub label: &'static str,
    pub aliases: Vec<&'static str>,
}

impl Palette {
    /// Whether the palette in force, `color`, is this row.
    pub open spec fn holds_spec(&self, color: Seq<char>) -> bool {
        color == self.name@ || exists|k: int| 0 <= k < self.aliases@.len() && self.aliases@[k]@ == color
    }

    pub fn holds(&self, color: &str) -> (r: bool)
        ensures
            r == self.holds_spec(color@),
    {
        let c = chars_of(color);
        if crate::text::same(&c, &chars_of(self.name)) {
            return true;
        }
        let mut k: usize = 0;
        while k < self.aliases.len()
            invariant
                k <= self.aliases@.len(),
                c@ == color@,
                forall|j: int| 0 <= j < k ==> self.aliases@[j]@ != color@,
            decreases self.aliases.len() - k,
        {
            if crate::text::same(&c, &chars_of(self.aliases[k])) {
                return true;
            }
            k += 1;
        }
        false
    }

    /// What picking this row sets `data-theme` to, with `color` in force: nothing when the row
    /// already stands for it, so picking "Latte" while Frappé is set keeps Frappé; otherwise the
    /// row's name.
    pub fn choice(&self, color: &str) -> (r: Option<&'static str>)
        ensures
            self.holds_spec(color@) ==> r is None,
            !self.holds_spec(color@) ==> r == Some(self.name),
    {
        if self.holds(color) {
            None
        } else {
            Some(self.name)
        }
    }
}

fn row(name: &'static str, label: &'static str) -> (r: Palette)
    ensures
        r.name == name,
        r.label == label,
        r.aliases@.len() == 0,
{
    Palette { name, label, aliases: Vec::new() }
}

/// The names of a run of rows.
pub open spec fn names_of(rows: Seq<Palette>) -> Seq<&'static str> {
    Seq::new(rows.len(), |i: int| rows[i].name)
}

/// The labels of a run of rows.
pub open spec fn labels_of(rows: Seq<Palette>) -> Seq<&'static str> {
    Seq::new(rows.len(), |i: int| rows[i].label)
}

/// The rows to offer under a mode. In light mode the three Catppuccin flavours all look like
/// Latte, so they are one row standing for the three; in dark mode they are three rows.
pub fn palettes(dark: bool) -> (r: Vec<Palette>)
    ensures
        dark ==> names_of(r@) == seq!["", "grove", "ember", "ctp-frappe", "ctp-macchiato", "ctp-mocha"],
        dark ==> labels_of(r@) == seq!["Default", "Grove", "Ember", "Frappé", "Macchiato", "Mocha"],
        !dark ==> names_of(r@) == seq!["", "grove", "ember", "ctp-mocha"],
        !dark ==> labels_of(r@) == seq!["Default", "Grove", "Ember", "Latte"],
        !dark ==> r@[3].aliases@ == seq!["ctp-frappe", "ctp-macchiato"],
        forall|i: int| 0 <= i < r@.len() && !(!dark && i == 3) ==> r@[i].aliases@.len() == 0,
{
    let mut out: Vec<Palette> = Vec::new();
    out.push(row("", "Default"));
    out.push(row("grove", "Grove"));
    out.push(row("ember", "Ember"));
    if dark {
        out.push(row("ctp-frappe", "Frappé"));
        out.push(row("ctp-macchiato", "Macchiato"));
        out.push(row("ctp-mocha", "Mocha"));
        assert(names_of(out@) =~= seq!["", "grove", "ember", "ctp-frappe", "ctp-macchiato", "ctp-mocha"]);
        assert(labels_of(out@) =~= seq!["Default", "Grove", "Ember", "Frappé", "Macchiato", "Mocha"]);
    } else {
        let mut aliases: Vec<&'static str> = Vec::new();
        aliases.push("ctp-frappe");
        aliases.push("ctp-macchiato");
        out.push(Palette { name: "ctp-mocha", label: "Latte", aliases });
        assert(names_of(out@) =~= seq!["", "grove", "ember", "ctp-mocha"]);
        assert(labels_of(out@) =~= seq!["Default", "Grove", "Ember", "Latte"]);
        assert(out@[3].aliases@ =~= seq!["ctp-frappe", "ctp-macchiato"]);
    }
    out
}

/// Picking a row a second time sets nothing: after the first pick the row stands for the palette
/// in force.
pub proof fn law_picking_twice_sets_nothing(p: Palette, color: Seq<char>)
    ensures
        p.holds_spec(if p.holds_spec(color) {
            color
        } else {
            p.name@
        }),
{
}

// ---------------------------------------------------------------------------------------------
// The "On this page" rail
// ---------------------------------------------------------------------------------------------

/// Below this many headings the rail is noise: a reader can see the whole page without it.
pub const MIN_HEADINGS: usize = 3;

/// One entry of the rail.
pub struct Heading {
    pub id: String,
    pub label: String,
    /// An API entry rather than a section of its own, and indented to say so.
    pub nested: bool,
}

/// What a marked heading of the page says about itself: its id, its text, and the value of its
/// `data-toc` attribute, if it has one.
pub struct Marked {
    pub id: String,
    pub text: String,
    pub toc: Option<String>,
}

/// The entries the rail keeps of `found`: those with an id and a text, the text trimmed.
pub open spec fn rail_entries(found: Seq<Marked>) -> Seq<(Seq<char>, Seq<char>, bool)>
    decreases found.len(),
{
    if found.len() == 0 {
        seq![]
    } else {
        let before = rail_entries(found.drop_last());
        let h = found.last();
        let label = crate::text::trim(h.text@);
        if h.id@.len() == 0 || label.len() == 0 {
            before
        } else {
            before.push((h.id@, label, h.toc matches Some(t) && t@ == "item"@))
        }
    }
}

pub open spec fn headings_view(v: Seq<Heading>) -> Seq<(Seq<char>, Seq<char>, bool)> {
    Seq::new(v.len(), |i: int| (v[i].id@, v[i].label@, v[i].nested))
}

/// The rail for the marked headings `found`: `None` when there are too few to be worth one, in
/// which case the rail keeps what it shows.
pub fn rail(found: &Vec<Marked>) -> (r: Option<Vec<Heading>>)
    ensures
        rail_entries(found@).len() < MIN_HEADINGS ==> r is None,
        rail_entries(found@).len() >= MIN_HEADINGS ==> (r matches Some(v) && headings_view(v@)
            == rail_entries(found@)),
{
    let mut out: Vec<Heading> = Vec::new();
    let mut k: usize = 0;
    let item = chars_of("item");
    while k < found.len()
        invariant
            k <= found@.len(),
            item@ == "item"@,
            headings_view(out@) == rail_entries(found@.take(k as int)),
        decreases found.len() - k,
    {
        assert(found@.take(k + 1).drop_last() =~= found@.take(k as int));
        assert(found@.take(k + 1).last() == found@[k as int]);
        let h = &found[k];
        let label = crate::text::trim_exec(&chars_of(h.text.as_str()));
        let id_chars = chars_of(h.id.as_str());
        if id_chars.len() > 0 && label.len() > 0 {
            let nested = match &h.toc {
                Some(t) => crate::text::same(&chars_of(t.as_str()), &item),
                None => false,
            };
            let ghost before = headings_view(out@);
            let id = h.id.clone();
            out.push(Heading { id, label: string_of(&label), nested });
            assert(headings_view(out@) =~= before.push((h.id@, label@, nested)));
        }
        k += 1;
    }
    assert(found@.take(found@.len() as int) =~= found@);
    if out.len() < MIN_HEADINGS {
        None
    } else {
        Some(out)
    }
}

/// The heading the rail marks as current: the last of them whose top has crossed the line under
/// the header (`crossed` says which have), the first when none has, and the last when the page is
/// scrolled to its end, since a short last section never reaches the line.
pub open spec fn current_of(ids: Seq<Seq<char>>, crossed: Seq<bool>, at_bottom: bool) -> Option<
    Seq<char>,
>
    decreases ids.len(),
{
    if ids.len() == 0 {
        None
    } else if at_bottom {
        Some(ids.last())
    } else if ids.len() == 1 {
        Some(ids[0])
    } else if ids.len() - 1 < crossed.len() && crossed[ids.len() - 1] {
        Some(ids.last())
    } else {
        current_of(ids.drop_last(), crossed, false)
    }
}

pub fn current_heading(ids: &Vec<String>, crossed: &Vec<bool>, at_bottom: bool) -> (r: Option<
    String,
>)
    ensures
        r matches Some(s) ==> current_of(crate::text::views_of_strings(ids@), crossed@, at_bottom)
            == Some(s@),
        r is None ==> current_of(crate::text::views_of_strings(ids@), crossed@, at_bottom) is None,
{
    let ghost v = crate::text::views_of_strings(ids@);
    if ids.len() == 0 {
        return None;
    }
    if at_bottom {
        return Some(ids[ids.len() - 1].clone());
    }
    let mut k = ids.len();
    assert(v.take(k as int) =~= v);
    while k > 1
        invariant
            1 <= k <= ids@.len(),
            v == crate::text::views_of_strings(ids@),
            current_of(v.take(k as int), crossed@, false) == current_of(v, crossed@, at_bottom),
        decreases k,
    {
        assert(v.take(k as int).last() == v[k - 1]);
        if k - 1 < crossed.len() && crossed[k - 1] {
            return Some(ids[k - 1].clone());
        }
        assert(v.take(k as int).drop_last() =~= v.take(k - 1));
        k -= 1;
    }
    assert(v.take(1)[0] == v[0]);
    Some(ids[0].clone())
}

} // verus!
