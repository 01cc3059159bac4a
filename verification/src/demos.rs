//! The documentation site's blocks, as far as they decide anything: the sample data they show,
//! the lookups that pick an entry out of it (a name that is not there falls back to a fixed
//! entry rather than to nothing, since each is what a page is currently showing), the invoice
//! table's sort and paging, the deployments table's row menu, the bug report's checks, the
//! people picker's choice, and the list whose undo puts a deleted row back.

use crate::board::{decimal, decimal_exec};
use crate::order::{lemma_lex_asymmetric, lemma_lex_total, lemma_lex_transitive, lex_le, lex_lt, lex_lt_exec};
use crate::text::{
    chars_of, contains, contains_exec, push_all, same, string_of, trim, trim_exec, views_of_strings,
};
use vstd::prelude::*;

verus! {

/// Where the first of `slugs` equal to `slug` is.
pub open spec fn first_slug(slugs: Seq<&'static str>, slug: Seq<char>) -> Option<int>
    decreases slugs.len(),
{
    if slugs.len() == 0 {
        None
    } else {
        match first_slug(slugs.drop_last(), slug) {
            Some(i) => Some(i),
            None => if slugs.last()@ == slug {
                Some(slugs.len() - 1)
            } else {
                None
            },
        }
    }
}

proof fn lemma_first_slug(slugs: Seq<&'static str>, slug: Seq<char>)
    ensures
        first_slug(slugs, slug) matches Some(i) ==> 0 <= i < slugs.len(),
    decreases slugs.len(),
{
    if slugs.len() > 0 {
        lemma_first_slug(slugs.drop_last(), slug);
    }
}

/// The position of the first of `slugs` equal to `slug`, or `fallback`.
fn pick(slugs: &Vec<&'static str>, slug: &str, fallback: usize) -> (r: usize)
    requires
        fallback < slugs@.len(),
    ensures
        r == match first_slug(slugs@, slug@) {
            Some(i) => i,
            None => fallback as int,
        },
        r < slugs@.len(),
{
    let s = chars_of(slug);
    let mut k: usize = 0;
    while k < slugs.len()
        invariant
            k <= slugs@.len(),
            s@ == slug@,
            first_slug(slugs@.take(k as int), slug@) is None,
        decreases slugs.len() - k,
    {
        assert(slugs@.take(k + 1).drop_last() =~= slugs@.take(k as int));
        if same(&chars_of(slugs[k]), &s) {
            proof {
                lemma_first_slug_prefix(slugs@, slug@, k + 1);
            }
            return k;
        }
        k += 1;
    }
    assert(slugs@.take(slugs@.len() as int) =~= slugs@);
    fallback
}

proof fn lemma_first_slug_prefix(slugs: Seq<&'static str>, slug: Seq<char>, k: int)
    requires
        0 <= k <= slugs.len(),
        first_slug(slugs.take(k), slug) is Some,
    ensures
        first_slug(slugs, slug) == first_slug(slugs.take(k), slug),
    decreases slugs.len() - k,
{
    if k < slugs.len() {
        assert(slugs.take(k + 1).drop_last() =~= slugs.take(k));
        lemma_first_slug_prefix(slugs, slug, k + 1);
    } else {
        assert(slugs.take(k) =~= slugs);
    }
}

// ---------------------------------------------------------------------------------------------
// The visitors chart
// ---------------------------------------------------------------------------------------------

/// How much of the visits the chart shows, and how many days go into one column.
#[derive(Debug, Clone, Copy)]
pub struct Range {
    pub slug: &'static str,
    pub label: &'static str,
    pub days: usize,
    pub bucket: usize,
    pub caption: &'static str,
}

pub open spec fn ranges_spec() -> Seq<Range> {
    seq![
        Range { slug: "7d", label: "7 days", days: 7, bucket: 1, caption: "One column a day" },
        Range { slug: "6w", label: "6 weeks", days: 42, bucket: 7, caption: "One column a week" },
        Range { slug: "12w", label: "12 weeks", days: 84, bucket: 7, caption: "One column a week" },
    ]
}

/// The ranges the chart offers, shortest first.
pub fn ranges() -> (r: Vec<Range>)
    ensures
        r@ == ranges_spec(),
{
    let r = vec![
        Range { slug: "7d", label: "7 days", days: 7, bucket: 1, caption: "One column a day" },
        Range { slug: "6w", label: "6 weeks", days: 42, bucket: 7, caption: "One column a week" },
        Range { slug: "12w", label: "12 weeks", days: 84, bucket: 7, caption: "One column a week" },
    ];
    assert(r@ =~= ranges_spec());
    r
}

/// The range called `slug`; the twelve weeks the chart starts on for any other name.
pub fn range_for(slug: &str) -> (r: Range)
    ensures
        r == ranges_spec()[match first_slug(
            Seq::new(3, |i: int| ranges_spec()[i].slug),
            slug@,
        ) {
            Some(i) => i,
            None => 2,
        }],
{
    let all = ranges();
    let slugs = vec![all[0].slug, all[1].slug, all[2].slug];
    assert(slugs@ =~= Seq::new(3, |i: int| ranges_spec()[i].slug));
    let k = pick(&slugs, slug, 2);
    all[k]
}

// ---------------------------------------------------------------------------------------------
// The people picker
// ---------------------------------------------------------------------------------------------

/// Someone the picker can offer.
#[derive(Debug, Clone, Copy)]
pub struct Person {
    pub id: &'static str,
    pub name: &'static str,
    pub team: &'static str,
    pub initials: &'static str,
}

pub open spec fn people_spec() -> Seq<Person> {
    seq![
        Person { id: "ana", name: "Ana Ferreira", team: "Platform", initials: "AF" },
        Person { id: "bo", name: "Bo Lindqvist", team: "Design", initials: "BL" },
        Person { id: "chidi", name: "Chidi Okonkwo", team: "Platform", initials: "CO" },
        Person { id: "dana", name: "Dana Whitfield", team: "Docs", initials: "DW" },
        Person { id: "emre", name: "Emre Yilmaz", team: "Design", initials: "EY" },
        Person { id: "farah", name: "Farah Haddad", team: "Security", initials: "FH" },
    ]
}

/// Everyone the picker offers.
pub fn people() -> (r: Vec<Person>)
    ensures
        r@ == people_spec(),
{
    let r = vec![
        Person { id: "ana", name: "Ana Ferreira", team: "Platform", initials: "AF" },
        Person { id: "bo", name: "Bo Lindqvist", team: "Design", initials: "BL" },
        Person { id: "chidi", name: "Chidi Okonkwo", team: "Platform", initials: "CO" },
        Person { id: "dana", name: "Dana Whitfield", team: "Docs", initials: "DW" },
        Person { id: "emre", name: "Emre Yilmaz", team: "Design", initials: "EY" },
        Person { id: "farah", name: "Farah Haddad", team: "Security", initials: "FH" },
    ];
    assert(r@ =~= people_spec());
    r
}

/// The person with the id `id`; the first of them for an id that is nobody's.
pub fn person(id: &str) -> (r: Person)
    ensures
        r == people_spec()[match first_slug(
            Seq::new(6, |i: int| people_spec()[i].id),
            id@,
        ) {
            Some(i) => i,
            None => 0,
        }],
{
    let all = people();
    let ids = vec![all[0].id, all[1].id, all[2].id, all[3].id, all[4].id, all[5].id];
    assert(ids@ =~= Seq::new(6, |i: int| people_spec()[i].id));
    let k = pick(&ids, id, 0);
    all[k]
}

/// Where `id` first stands among the chosen ids.
pub open spec fn chosen_at(chosen: Seq<Seq<char>>, id: Seq<char>) -> Option<int>
    decreases chosen.len(),
{
    if chosen.len() == 0 {
        None
    } else {
        match chosen_at(chosen.drop_last(), id) {
            Some(i) => Some(i),
            None => if chosen.last() == id {
                Some(chosen.len() - 1)
            } else {
                None
            },
        }
    }
}

proof fn lemma_chosen_at(chosen: Seq<Seq<char>>, id: Seq<char>)
    ensures
        chosen_at(chosen, id) matches Some(i) ==> 0 <= i < chosen.len() && chosen[i] == id
            && forall|j: int| 0 <= j < i ==> chosen[j] != id,
        chosen_at(chosen, id) is None <==> !chosen.contains(id),
    decreases chosen.len(),
{
    if chosen.len() > 0 {
        lemma_chosen_at(chosen.drop_last(), id);
        assert forall|j: int| 0 <= j < chosen.len() - 1 implies chosen[j] == chosen.drop_last()[j] by {}
        if chosen.contains(id) && chosen_at(chosen, id) is None {
            let j = choose|j: int| 0 <= j < chosen.len() && chosen[j] == id;
            if j < chosen.len() - 1 {
                assert(chosen.drop_last().contains(id));
            }
        }
    }
}

/// The chosen ids after the row `id` is picked: taken out where it was, or added at the end.
pub open spec fn toggled(chosen: Seq<Seq<char>>, id: Seq<char>) -> Seq<Seq<char>> {
    match chosen_at(chosen, id) {
        Some(i) => chosen.remove(i),
        None => chosen.push(id),
    }
}

/// Whether the person `id` is among the chosen.
pub fn holds(chosen: &Vec<String>, id: &str) -> (r: bool)
    ensures
        r == views_of_strings(chosen@).contains(id@),
{
    proof {
        lemma_chosen_at(views_of_strings(chosen@), id@);
    }
    position(chosen, id).is_some()
}

fn position(chosen: &Vec<String>, id: &str) -> (r: Option<usize>)
    ensures
        r matches Some(i) ==> chosen_at(views_of_strings(chosen@), id@) == Some(i as int),
        r is None ==> chosen_at(views_of_strings(chosen@), id@) is None,
{
    let wanted = chars_of(id);
    let ghost v = views_of_strings(chosen@);
    let mut k: usize = 0;
    while k < chosen.len()
        invariant
            k <= chosen@.len(),
            v == views_of_strings(chosen@),
            wanted@ == id@,
            forall|j: int| 0 <= j < k ==> v[j] != id@,
        decreases chosen.len() - k,
    {
        assert(v[k as int] == chosen@[k as int]@);
        if same(&chars_of(chosen[k].as_str()), &wanted) {
            proof {
                assert(v[k as int] == chosen@[k as int]@);
                assert(v[k as int] == id@);
                lemma_chosen_at(v, id@);
                if chosen_at(v, id@) != Some(k as int) {
                    match chosen_at(v, id@) {
                        Some(i) => {
                            assert(i < k || i > k);
                        },
                        None => {
                            assert(v[k as int] == id@);
                            assert(v.contains(id@));
                        },
                    }
                }
            }
            return Some(k);
        }
        k += 1;
    }
    proof {
        lemma_chosen_at(v, id@);
        if chosen_at(v, id@) is Some {
            let i = chosen_at(v, id@)->0;
            assert(v[i] == id@);
        }
    }
    None
}

/// Picks the row `id` in the picker: someone chosen is let go, anyone else is added.
pub fn toggle(chosen: &mut Vec<String>, id: &str)
    ensures
        views_of_strings(final(chosen)@) == toggled(views_of_strings(old(chosen)@), id@),
{
    let ghost before = views_of_strings(chosen@);
    match position(chosen, id) {
        Some(i) => {
            proof {
                lemma_chosen_at(before, id@);
            }
            chosen.remove(i);
            assert(views_of_strings(chosen@) =~= before.remove(i as int));
        },
        None => {
            chosen.push(id.to_string());
            assert(views_of_strings(chosen@) =~= before.push(id@));
        },
    }
}

/// Picking someone who was not chosen and then picking them again leaves the choice as it was.
pub proof fn law_picking_someone_twice_restores(chosen: Seq<Seq<char>>, id: Seq<char>)
    requires
        !chosen.contains(id),
    ensures
        toggled(toggled(chosen, id), id) == chosen,
{
    lemma_chosen_at(chosen, id);
    let once = chosen.push(id);
    lemma_chosen_at(once, id);
    assert(once[chosen.len() as int] == id);
    let i = chosen_at(once, id)->0;
    if i < chosen.len() {
        assert(chosen[i] == id);
        assert(chosen.contains(id));
    }
    assert(once.remove(chosen.len() as int) =~= chosen);
}

/// Nobody is chosen twice: picking keeps a choice without repeats free of them.
pub proof fn law_nobody_is_chosen_twice(chosen: Seq<Seq<char>>, id: Seq<char>)
    requires
        forall|i: int, j: int| 0 <= i < j < chosen.len() ==> chosen[i] != chosen[j],
    ensures
        forall|i: int, j: int|
            0 <= i < j < toggled(chosen, id).len() ==> toggled(chosen, id)[i] != toggled(chosen, id)[j],
{
    lemma_chosen_at(chosen, id);
    let t = toggled(chosen, id);
    match chosen_at(chosen, id) {
        Some(k) => {
            assert forall|i: int, j: int| 0 <= i < j < t.len() implies t[i] != t[j] by {
                let a = if i < k { i } else { i + 1 };
                let b = if j < k { j } else { j + 1 };
                assert(t[i] == chosen[a] && t[j] == chosen[b]);
            }
        },
        None => {
            assert forall|i: int, j: int| 0 <= i < j < t.len() implies t[i] != t[j] by {
                if j == chosen.len() {
                    assert(t[i] == chosen[i]);
                    assert(t[j] == id);
                }
            }
        },
    }
}

// ---------------------------------------------------------------------------------------------
// The application shell
// ---------------------------------------------------------------------------------------------

/// One page of the sample application: what the menu calls it, the group it sits in, and the
/// count its menu entry shows, if any.
#[derive(Debug, Clone, Copy)]
pub struct Page {
    pub slug: &'static str,
    pub label: &'static str,
    pub section: &'static str,
    pub badge: Option<&'static str>,
}

pub open spec fn pages_spec() -> Seq<Page> {
    seq![
        Page { slug: "overview", label: "Overview", section: "Workspace", badge: None },
        Page { slug: "documents", label: "Documents", section: "Workspace", badge: Some("12") },
        Page { slug: "schedule", label: "Schedule", section: "Workspace", badge: None },
        Page { slug: "members", label: "Members", section: "Account", badge: Some("4") },
        Page { slug: "billing", label: "Billing", section: "Account", badge: None },
    ]
}

/// Every page of the sample application, in menu order.
pub fn pages() -> (r: Vec<Page>)
    ensures
        r@ == pages_spec(),
{
    let r = vec![
        Page { slug: "overview", label: "Overview", section: "Workspace", badge: None },
        Page { slug: "documents", label: "Documents", section: "Workspace", badge: Some("12") },
        Page { slug: "schedule", label: "Schedule", section: "Workspace", badge: None },
        Page { slug: "members", label: "Members", section: "Account", badge: Some("4") },
        Page { slug: "billing", label: "Billing", section: "Account", badge: None },
    ];
    assert(r@ =~= pages_spec());
    r
}

/// The page called `slug`; the overview for any other name.
pub fn page(slug: &str) -> (r: Page)
    ensures
        r == pages_spec()[match first_slug(
            Seq::new(5, |i: int| pages_spec()[i].slug),
            slug@,
        ) {
            Some(i) => i,
            None => 0,
        }],
{
    let all = pages();
    let slugs = vec![all[0].slug, all[1].slug, all[2].slug, all[3].slug, all[4].slug];
    assert(slugs@ =~= Seq::new(5, |i: int| pages_spec()[i].slug));
    let k = pick(&slugs, slug, 0);
    all[k]
}

// ---------------------------------------------------------------------------------------------
// The settings dialog
// ---------------------------------------------------------------------------------------------

/// One switch of the settings dialog; `on` is where it starts, not where it stays.
#[derive(Debug, Clone, Copy)]
pub struct Setting {
    pub label: &'static str,
    pub description: &'static str,
    pub on: bool,
}

/// One pane of the settings dialog: what its row in the panel says, the group it sits in, and
/// its switches.
pub struct Section {
    pub slug: &'static str,
    pub label: &'static str,
    pub group: &'static str,
    pub blurb: &'static str,
    pub settings: Vec<Setting>,
}

/// The groups, in the order they come in.
pub fn groups() -> (r: Vec<&'static str>)
    ensures
        r@ == seq!["Settings", "Workspace"],
{
    let r = vec!["Settings", "Workspace"];
    assert(r@ =~= seq!["Settings", "Workspace"]);
    r
}

fn setting(label: &'static str, description: &'static str, on: bool) -> (r: Setting)
    ensures
        r == (Setting { label, description, on }),
{
    Setting { label, description, on }
}

/// The panes' slugs, in order.
pub open spec fn section_slugs() -> Seq<&'static str> {
    seq!["general", "appearance", "notifications", "members", "billing"]
}

/// What the panel calls each pane, in order.
pub open spec fn section_labels() -> Seq<&'static str> {
    seq!["General", "Appearance", "Notifications", "Members", "Billing"]
}

/// The group each pane sits in, in order.
pub open spec fn section_groups() -> Seq<&'static str> {
    seq!["Settings", "Settings", "Settings", "Workspace", "Workspace"]
}

/// How many switches each pane holds, in order.
pub open spec fn section_sizes() -> Seq<int> {
    seq![2, 2, 3, 2, 2]
}

/// Every pane of the settings dialog, in panel order.
pub fn sections() -> (r: Vec<Section>)
    ensures
        r@.len() == 5,
        forall|i: int|
            0 <= i < 5 ==> {
                &&& #[trigger] r@[i].slug == section_slugs()[i]
                &&& r@[i].label == section_labels()[i]
                &&& r@[i].group == section_groups()[i]
                &&& r@[i].settings@.len() == section_sizes()[i]
            },
        r@[0].settings@ == seq![
            Setting { label: "Autosave", description: "Write every change as it is made.", on: true },
            Setting { label: "Confirm before leaving", description: "Ask when a page still has unsaved work.", on: false },
        ],
{
    let mut r: Vec<Section> = Vec::new();
    r.push(Section {
        slug: "general",
        label: "General",
        group: "Settings",
        blurb: "How the workspace behaves, for everyone in it.",
        settings: vec![
            setting("Autosave", "Write every change as it is made.", true),
            setting("Confirm before leaving", "Ask when a page still has unsaved work.", false),
        ],
    });
    r.push(Section {
        slug: "appearance",
        label: "Appearance",
        group: "Settings",
        blurb: "Only for you, and only on this device.",
        settings: vec![
            setting("Reduce motion", "Cut the panel and dialog animations.", false),
            setting("Compact rows", "Tighter line height in every list.", true),
        ],
    });
    r.push(Section {
        slug: "notifications",
        label: "Notifications",
        group: "Settings",
        blurb: "What is worth an email, and what is not.",
        settings: vec![
            setting("Mentions", "Someone names you in a comment.", true),
            setting("Weekly digest", "One summary, on Monday morning.", true),
            setting("Everything else", "Every change anyone makes.", false),
        ],
    });
    r.push(Section {
        slug: "members",
        label: "Members",
        group: "Workspace",
        blurb: "Who gets in, and who decides.",
        settings: vec![
            setting("Anyone can invite", "Members may add members.", false),
            setting("Approve requests", "An admin signs off on each join.", true),
        ],
    });
    r.push(Section {
        slug: "billing",
        label: "Billing",
        group: "Workspace",
        blurb: "The plan, and where the receipts go.",
        settings: vec![
            setting("Annual billing", "One invoice a year, two months off.", false),
            setting("Email receipts", "Send a copy to the workspace owner.", true),
        ],
    });
    assert(r@[0].settings@ =~= seq![
        Setting { label: "Autosave", description: "Write every change as it is made.", on: true },
        Setting { label: "Confirm before leaving", description: "Ask when a page still has unsaved work.", on: false },
    ]);
    r
}

/// The pane called `slug`; the first pane for any other name.
pub fn section(slug: &str) -> (r: Section)
    ensures
        ({
            let k = match first_slug(section_slugs(), slug@) {
                Some(i) => i,
                None => 0,
            };
            &&& r.slug == section_slugs()[k]
            &&& r.label == section_labels()[k]
            &&& r.group == section_groups()[k]
            &&& r.settings@.len() == section_sizes()[k]
        }),
{
    let mut all = sections();
    let slugs = vec![all[0].slug, all[1].slug, all[2].slug, all[3].slug, all[4].slug];
    assert(slugs@ =~= section_slugs());
    let k = pick(&slugs, slug, 0);
    all.remove(k)
}

// ---------------------------------------------------------------------------------------------
// The paged table
// ---------------------------------------------------------------------------------------------

/// How many rows a page of the invoice table holds.
pub const PAGE_SIZE: usize = 5;

/// One invoice of the table. Every amount has two decimals, so it is held in cents.
#[derive(Debug, Clone, Copy)]
pub struct Invoice {
    pub id: &'static str,
    pub customer: &'static str,
    pub status: &'static str,
    pub amount_cents: u64,
}

pub open spec fn invoices_spec() -> Seq<Invoice> {
    seq![
        Invoice { id: "INV-1001", customer: "Acme Corp", status: "Paid", amount_cents: 125000 },
        Invoice { id: "INV-1002", customer: "Globex", status: "Pending", amount_cents: 48050 },
        Invoice { id: "INV-1003", customer: "Initech", status: "Paid", amount_cents: 320000 },
        Invoice { id: "INV-1004", customer: "Umbrella", status: "Overdue", amount_cents: 15075 },
        Invoice { id: "INV-1005", customer: "Hooli", status: "Paid", amount_cents: 92000 },
        Invoice { id: "INV-1006", customer: "Soylent", status: "Pending", amount_cents: 275025 },
        Invoice { id: "INV-1007", customer: "Stark Industries", status: "Paid", amount_cents: 610000 },
        Invoice { id: "INV-1008", customer: "Wayne Enterprises", status: "Overdue", amount_cents: 7500 },
        Invoice { id: "INV-1009", customer: "Cyberdyne", status: "Paid", amount_cents: 187540 },
        Invoice { id: "INV-1010", customer: "Tyrell Corp", status: "Pending", amount_cents: 41000 },
        Invoice { id: "INV-1011", customer: "Aperture Science", status: "Paid", amount_cents: 224060 },
        Invoice { id: "INV-1012", customer: "Black Mesa", status: "Overdue", amount_cents: 99500 },
        Invoice { id: "INV-1013", customer: "Weyland-Yutani", status: "Paid", amount_cents: 530000 },
    ]
}

/// The invoices the table holds, in the order they are written.
pub fn invoices() -> (r: Vec<Invoice>)
    ensures
        r@ == invoices_spec(),
{
    let r = vec![
        Invoice { id: "INV-1001", customer: "Acme Corp", status: "Paid", amount_cents: 125000 },
        Invoice { id: "INV-1002", customer: "Globex", status: "Pending", amount_cents: 48050 },
        Invoice { id: "INV-1003", customer: "Initech", status: "Paid", amount_cents: 320000 },
        Invoice { id: "INV-1004", customer: "Umbrella", status: "Overdue", amount_cents: 15075 },
        Invoice { id: "INV-1005", customer: "Hooli", status: "Paid", amount_cents: 92000 },
        Invoice { id: "INV-1006", customer: "Soylent", status: "Pending", amount_cents: 275025 },
        Invoice { id: "INV-1007", customer: "Stark Industries", status: "Paid", amount_cents: 610000 },
        Invoice { id: "INV-1008", customer: "Wayne Enterprises", status: "Overdue", amount_cents: 7500 },
        Invoice { id: "INV-1009", customer: "Cyberdyne", status: "Paid", amount_cents: 187540 },
        Invoice { id: "INV-1010", customer: "Tyrell Corp", status: "Pending", amount_cents: 41000 },
        Invoice { id: "INV-1011", customer: "Aperture Science", status: "Paid", amount_cents: 224060 },
        Invoice { id: "INV-1012", customer: "Black Mesa", status: "Overdue", amount_cents: 99500 },
        Invoice { id: "INV-1013", customer: "Weyland-Yutani", status: "Paid", amount_cents: 530000 },
    ];
    assert(r@ =~= invoices_spec());
    r
}

/// The columns the table sorts by.
#[derive(Debug, Clone, Copy, PartialEq, Eq, Structural)]
pub enum SortColumn {
    Invoice,
    Customer,
    Amount,
}

/// `a` is at most `b` in `col`: ids and customers by `char`, amounts by size.
pub open spec fn key_le(a: Invoice, b: Invoice, col: SortColumn) -> bool {
    match col {
        SortColumn::Invoice => lex_le(a.id@, b.id@),
        SortColumn::Customer => lex_le(a.customer@, b.customer@),
        SortColumn::Amount => a.amount_cents <= b.amount_cents,
    }
}

/// `a` and `b` hold the same value in `col`.
pub open spec fn same_key(a: Invoice, b: Invoice, col: SortColumn) -> bool {
    match col {
        SortColumn::Invoice => a.id@ == b.id@,
        SortColumn::Customer => a.customer@ == b.customer@,
        SortColumn::Amount => a.amount_cents == b.amount_cents,
    }
}

/// `a` may stand before `b` in a sort by `col`, descending when `desc`.
pub open spec fn goes_before(a: Invoice, b: Invoice, col: SortColumn, desc: bool) -> bool {
    if desc {
        key_le(b, a, col)
    } else {
        key_le(a, b, col)
    }
}

/// Every row may stand before the next.
pub open spec fn ordered(s: Seq<Invoice>, col: SortColumn, desc: bool) -> bool {
    forall|i: int| 0 <= i < s.len() - 1 ==> goes_before(#[trigger] s[i], s[i + 1], col, desc)
}

/// `x` put into `s` after every row it may follow, counting from the end: a sort that keeps rows
/// with equal keys in the order they came.
pub open spec fn insert_sorted(s: Seq<Invoice>, x: Invoice, col: SortColumn, desc: bool) -> Seq<Invoice>
    decreases s.len(),
{
    if s.len() == 0 {
        seq![x]
    } else if goes_before(s.last(), x, col, desc) {
        s.push(x)
    } else {
        insert_sorted(s.drop_last(), x, col, desc).push(s.last())
    }
}

/// `rows` sorted by `col`, descending when `desc`, rows with equal keys in their order.
pub open spec fn sorted_by(rows: Seq<Invoice>, col: SortColumn, desc: bool) -> Seq<Invoice>
    decreases rows.len(),
{
    if rows.len() == 0 {
        seq![]
    } else {
        insert_sorted(sorted_by(rows.drop_last(), col, desc), rows.last(), col, desc)
    }
}

/// The rows as the table orders them: as written when no column is sorted, else by the column.
pub open spec fn sorted_spec(rows: Seq<Invoice>, sort: Option<(SortColumn, bool)>) -> Seq<Invoice> {
    match sort {
        None => rows,
        Some((col, desc)) => sorted_by(rows, col, desc),
    }
}

/// The rows of `s` whose key in `col` is that of `y`, in order.
pub open spec fn key_class(s: Seq<Invoice>, y: Invoice, col: SortColumn) -> Seq<Invoice>
    decreases s.len(),
{
    if s.len() == 0 {
        seq![]
    } else if same_key(s.last(), y, col) {
        key_class(s.drop_last(), y, col).push(s.last())
    } else {
        key_class(s.drop_last(), y, col)
    }
}

proof fn lemma_key_total(a: Invoice, b: Invoice, col: SortColumn)
    ensures
        key_le(a, b, col) || key_le(b, a, col),
        same_key(a, b, col) ==> key_le(a, b, col) && key_le(b, a, col),
{
    match col {
        SortColumn::Invoice => lemma_lex_total(a.id@, b.id@),
        SortColumn::Customer => lemma_lex_total(a.customer@, b.customer@),
        SortColumn::Amount => {},
    }
}

proof fn lemma_key_transitive(a: Invoice, b: Invoice, c: Invoice, col: SortColumn)
    requires
        key_le(a, b, col),
        key_le(b, c, col),
    ensures
        key_le(a, c, col),
{
    match col {
        SortColumn::Invoice => {
            if a.id@ != b.id@ && b.id@ != c.id@ {
                lemma_lex_transitive(a.id@, b.id@, c.id@);
            }
        },
        SortColumn::Customer => {
            if a.customer@ != b.customer@ && b.customer@ != c.customer@ {
                lemma_lex_transitive(a.customer@, b.customer@, c.customer@);
            }
        },
        SortColumn::Amount => {},
    }
}

proof fn lemma_insert_sorted(s: Seq<Invoice>, x: Invoice, col: SortColumn, desc: bool)
    requires
        ordered(s, col, desc),
    ensures
        ordered(insert_sorted(s, x, col, desc), col, desc),
        insert_sorted(s, x, col, desc).len() == s.len() + 1,
        insert_sorted(s, x, col, desc).to_multiset() == s.to_multiset().insert(x),
        s.len() == 0 ==> insert_sorted(s, x, col, desc).last() == x,
        s.len() > 0 ==> insert_sorted(s, x, col, desc).last() == x || insert_sorted(s, x, col, desc).last() == s.last(),
        forall|y: Invoice| #[trigger] key_class(insert_sorted(s, x, col, desc), y, col)
            == if same_key(x, y, col) { key_class(s, y, col).push(x) } else { key_class(s, y, col) },
    decreases s.len(),
{
    broadcast use vstd::seq_lib::group_to_multiset_ensures;
    let r = insert_sorted(s, x, col, desc);
    if s.len() == 0 {
        assert(r.drop_last() =~= s);
        assert forall|y: Invoice| #[trigger] key_class(r, y, col)
            == if same_key(x, y, col) { key_class(s, y, col).push(x) } else { key_class(s, y, col) } by {
            assert(r.drop_last() =~= s);
        }
    } else if goes_before(s.last(), x, col, desc) {
        assert(r.drop_last() =~= s);
        assert forall|i: int| 0 <= i < r.len() - 1 implies goes_before(#[trigger] r[i], r[i + 1], col, desc) by {
            if i < s.len() - 1 {
                assert(r[i] == s[i] && r[i + 1] == s[i + 1]);
            }
        }
    } else {
        let t = s.drop_last();
        let last = s.last();
        assert(ordered(t, col, desc)) by {
            assert forall|i: int| 0 <= i < t.len() - 1 implies goes_before(#[trigger] t[i], t[i + 1], col, desc) by {
                assert(t[i] == s[i] && t[i + 1] == s[i + 1]);
            }
        }
        lemma_insert_sorted(t, x, col, desc);
        let u = insert_sorted(t, x, col, desc);
        assert(r == u.push(last));
        assert(r.drop_last() =~= u);
        lemma_key_total(last, x, col);
        assert(goes_before(x, last, col, desc));
        assert forall|i: int| 0 <= i < r.len() - 1 implies goes_before(#[trigger] r[i], r[i + 1], col, desc) by {
            if i < u.len() - 1 {
                assert(r[i] == u[i] && r[i + 1] == u[i + 1]);
            } else {
                assert(r[i] == u.last());
                assert(r[i + 1] == last);
                if u.last() != x {
                    assert(u.last() == t.last());
                    assert(s[s.len() - 2] == t.last());
                    assert(goes_before(s[s.len() - 2], s[s.len() - 1], col, desc));
                }
            }
        }
        assert(s =~= t.push(last));
        assert forall|y: Invoice| #[trigger] key_class(r, y, col)
            == if same_key(x, y, col) { key_class(s, y, col).push(x) } else { key_class(s, y, col) } by {
            if same_key(x, y, col) && same_key(last, y, col) {
                assert(same_key(last, x, col));
                lemma_key_total(last, x, col);
                assert(false);
            }
            assert(r.last() == last);
            assert(s.last() == last && s.drop_last() == t);
            let ku = key_class(u, y, col);
            let kt = key_class(t, y, col);
            assert(ku == if same_key(x, y, col) { kt.push(x) } else { kt });
            if same_key(last, y, col) {
                assert(key_class(r, y, col) == ku.push(last));
                assert(key_class(s, y, col) == kt.push(last));
                assert(key_class(r, y, col) =~= key_class(s, y, col));
            } else {
                assert(key_class(r, y, col) == ku);
                assert(key_class(s, y, col) == kt);
            }
        }
    }
}

proof fn lemma_sorted_by(rows: Seq<Invoice>, col: SortColumn, desc: bool)
    ensures
        ordered(sorted_by(rows, col, desc), col, desc),
        sorted_by(rows, col, desc).len() == rows.len(),
        sorted_by(rows, col, desc).to_multiset() == rows.to_multiset(),
        forall|y: Invoice| #[trigger] key_class(sorted_by(rows, col, desc), y, col) == key_class(rows, y, col),
    decreases rows.len(),
{
    broadcast use vstd::seq_lib::group_to_multiset_ensures;
    if rows.len() == 0 {
        assert(rows.to_multiset() =~= vstd::multiset::Multiset::empty());
        assert(sorted_by(rows, col, desc).to_multiset() =~= vstd::multiset::Multiset::empty());
    } else {
        let t = rows.drop_last();
        lemma_sorted_by(t, col, desc);
        lemma_insert_sorted(sorted_by(t, col, desc), rows.last(), col, desc);
        assert(rows =~= t.push(rows.last()));
        assert forall|y: Invoice| #[trigger] key_class(sorted_by(rows, col, desc), y, col) == key_class(rows, y, col) by {
            assert(key_class(sorted_by(t, col, desc), y, col) == key_class(t, y, col));
        }
    }
}

fn key_le_exec(a: &Invoice, b: &Invoice, col: SortColumn) -> (r: bool)
    ensures
        r == key_le(*a, *b, col),
{
    match col {
        SortColumn::Invoice => {
            let r = !lex_lt_exec(&chars_of(b.id), &chars_of(a.id));
            proof {
                lemma_lex_total(a.id@, b.id@);
                lemma_lex_asymmetric(a.id@, b.id@);
                crate::order::lemma_lex_irreflexive(a.id@);
            }
            r
        },
        SortColumn::Customer => {
            let r = !lex_lt_exec(&chars_of(b.customer), &chars_of(a.customer));
            proof {
                lemma_lex_total(a.customer@, b.customer@);
                lemma_lex_asymmetric(a.customer@, b.customer@);
                crate::order::lemma_lex_irreflexive(a.customer@);
            }
            r
        },
        SortColumn::Amount => a.amount_cents <= b.amount_cents,
    }
}

fn goes_before_exec(a: &Invoice, b: &Invoice, col: SortColumn, desc: bool) -> (r: bool)
    ensures
        r == goes_before(*a, *b, col, desc),
{
    if desc {
        key_le_exec(b, a, col)
    } else {
        key_le_exec(a, b, col)
    }
}

/// The invoices sorted as the table shows them: unchanged with no column, else by the column,
/// reversed when descending, with rows whose keys are equal in the order they came.
pub fn sorted_invoices(rows: &Vec<Invoice>, sort: Option<(SortColumn, bool)>) -> (r: Vec<Invoice>)
    ensures
        r@ == sorted_spec(rows@, sort),
        r@.to_multiset() == rows@.to_multiset(),
        sort matches Some((col, desc)) ==> ordered(r@, col, desc),
        sort matches Some((col, desc)) ==> forall|y: Invoice| #[trigger] key_class(r@, y, col) == key_class(rows@, y, col),
{
    match sort {
        None => {
            let mut out: Vec<Invoice> = Vec::new();
            let mut k: usize = 0;
            while k < rows.len()
                invariant
                    k <= rows@.len(),
                    out@ == rows@.take(k as int),
                decreases rows.len() - k,
            {
                out.push(rows[k]);
                assert(out@ =~= rows@.take(k + 1));
                k += 1;
            }
            assert(rows@.take(rows@.len() as int) =~= rows@);
            out
        },
        Some((col, desc)) => {
            let mut out: Vec<Invoice> = Vec::new();
            let mut k: usize = 0;
            while k < rows.len()
                invariant
                    k <= rows@.len(),
                    out@ == sorted_by(rows@.take(k as int), col, desc),
                decreases rows.len() - k,
            {
                let x = rows[k];
                assert(rows@.take(k + 1).drop_last() =~= rows@.take(k as int));
                assert(rows@.take(k + 1).last() == x);
                let mut j: usize = out.len();
                assert(out@.take(j as int) =~= out@);
                assert(out@.skip(j as int) =~= Seq::<Invoice>::empty());
                while j > 0 && !goes_before_exec(&out[j - 1], &x, col, desc)
                    invariant
                        j <= out@.len(),
                        insert_sorted(out@, x, col, desc) == insert_sorted(out@.take(j as int), x, col, desc) + out@.skip(j as int),
                    decreases j,
                {
                    proof {
                        let t = out@.take(j as int);
                        assert(t.drop_last() =~= out@.take(j - 1));
                        assert(t.last() == out@[j - 1]);
                        assert(out@.skip(j - 1) =~= seq![out@[j - 1]] + out@.skip(j as int));
                        assert(insert_sorted(t, x, col, desc) + out@.skip(j as int)
                            =~= insert_sorted(out@.take(j - 1), x, col, desc) + out@.skip(j - 1));
                    }
                    j -= 1;
                }
                proof {
                    let t = out@.take(j as int);
                    if j > 0 {
                        assert(t.last() == out@[j - 1]);
                    }
                    assert(insert_sorted(t, x, col, desc) =~= t.push(x));
                    assert(out@.insert(j as int, x) =~= t.push(x) + out@.skip(j as int));
                }
                out.insert(j, x);
                k += 1;
            }
            assert(rows@.take(rows@.len() as int) =~= rows@);
            proof {
                lemma_sorted_by(rows@, col, desc);
            }
            out
        },
    }
}

/// The rows page `page` shows: the slice of the whole set, sorted first, that the page covers.
pub fn visible_rows(rows: &Vec<Invoice>, sort: Option<(SortColumn, bool)>, page: usize) -> (r: Vec<Invoice>)
    requires
        page >= 1,
        (page - 1) * PAGE_SIZE <= usize::MAX,
    ensures
        ({
            let n = rows@.len() as int;
            let start = if (page - 1) * PAGE_SIZE < n { (page - 1) * PAGE_SIZE } else { n };
            let end = if page * PAGE_SIZE < n { page * PAGE_SIZE } else { n };
            r@ == sorted_spec(rows@, sort).subrange(start, end)
        }),
{
    let sorted = sorted_invoices(rows, sort);
    proof {
        match sort {
            Some((col, desc)) => lemma_sorted_by(rows@, col, desc),
            None => {},
        }
    }
    let (start, end) = visible_range(sorted.len(), page);
    let mut out: Vec<Invoice> = Vec::new();
    let mut k: usize = start;
    while k < end
        invariant
            start <= k <= end <= sorted@.len(),
            out@ == sorted@.subrange(start as int, k as int),
        decreases end - k,
    {
        out.push(sorted[k]);
        assert(out@ =~= sorted@.subrange(start as int, k + 1));
        k += 1;
    }
    out
}

/// The page a change of sort column or direction goes back to: the first, since the rows the
/// reader was looking at are no longer on the page they were on.
pub fn page_after_sort_change() -> (r: usize)
    ensures
        r == 1,
{
    1
}

/// How many pages `rows` rows fill: every row on some page, and one page even when there are no
/// rows, so that there is always a page to be on.
pub fn page_count(rows: usize) -> (r: usize)
    ensures
        r == if rows == 0 { 1 } else { (rows + PAGE_SIZE - 1) / (PAGE_SIZE as int) },
        r >= 1,
        (r - 1) * PAGE_SIZE < rows || rows == 0,
        rows <= r * PAGE_SIZE,
{
    let full = rows / PAGE_SIZE;
    let n = if rows % PAGE_SIZE == 0 { full } else { full + 1 };
    if n == 0 {
        1
    } else {
        n
    }
}

/// Which of `rows` sorted rows page `page` shows, counting pages from one: from where the pages
/// before it end, and at most a page of them; none for a page past the last.
pub fn visible_range(rows: usize, page: usize) -> (r: (usize, usize))
    requires
        1 <= page,
        (page - 1) * PAGE_SIZE <= usize::MAX,
    ensures
        r.0 == if (page - 1) * PAGE_SIZE < rows { (page - 1) * PAGE_SIZE } else { rows as int },
        r.1 == if r.0 + PAGE_SIZE < rows { r.0 + PAGE_SIZE } else { rows as int },
{
    let skipped = (page - 1) * PAGE_SIZE;
    let start = if skipped < rows { skipped } else { rows };
    let end = if rows - start > PAGE_SIZE { start + PAGE_SIZE } else { rows };
    (start, end)
}

/// The page "previous" goes to: the one before, and never before the first.
pub fn previous_page(page: usize) -> (r: usize)
    ensures
        r == if page > 1 { page - 1 } else { 1 },
{
    if page > 1 {
        page - 1
    } else {
        1
    }
}

/// The page "next" goes to: the one after, and never past the last of `pages`.
pub fn next_page(page: usize, pages: usize) -> (r: usize)
    requires
        page < usize::MAX,
    ensures
        r == if page + 1 < pages { page + 1 } else { pages as int },
{
    if page + 1 < pages {
        page + 1
    } else {
        pages
    }
}

/// What the table says under itself: how many invoices there are, or, once some are ticked, how
/// many of them.
pub fn selection_caption(picked: usize, total: usize) -> (r: String)
    ensures
        r@ == if picked == 0 {
            decimal(total as nat) + " invoices"@
        } else {
            decimal(picked as nat) + " of "@ + decimal(total as nat) + " selected"@
        },
{
    let mut out: Vec<char> = Vec::new();
    if picked == 0 {
        push_all(&mut out, &decimal_exec(total));
        push_all(&mut out, &chars_of(" invoices"));
    } else {
        push_all(&mut out, &decimal_exec(picked));
        push_all(&mut out, &chars_of(" of "));
        push_all(&mut out, &decimal_exec(total));
        push_all(&mut out, &chars_of(" selected"));
    }
    string_of(&out)
}

/// How many pages `rows` rows fill, as `page_count` counts them.
pub open spec fn pages_for(rows: int) -> int {
    if rows <= 0 {
        1
    } else {
        (rows + PAGE_SIZE - 1) / (PAGE_SIZE as int)
    }
}

/// The invoice table as the reader has left it: the column it is sorted by, if any, with its
/// direction, and the page it is on.
pub struct InvoiceTable {
    pub sort: Option<(SortColumn, bool)>,
    pub page: usize,
}

impl InvoiceTable {
    /// The page is one that exists: from the first to the last page the invoices fill.
    pub open spec fn wf(&self) -> bool {
        1 <= self.page <= pages_for(invoices_spec().len() as int)
    }

    /// The table as it opens: unsorted, on the first page.
    pub fn new() -> (r: InvoiceTable)
        ensures
            r.wf(),
            r.sort is None,
            r.page == 1,
    {
        InvoiceTable { sort: None, page: 1 }
    }

    /// How many pages the invoices fill.
    pub fn pages(&self) -> (r: usize)
        ensures
            r == pages_for(invoices_spec().len() as int),
    {
        let rows = invoices();
        page_count(rows.len())
    }

    /// A click on a column header, or on its direction: the table sorts by `sort` and goes back
    /// to the first page.
    pub fn sort_by(&mut self, sort: Option<(SortColumn, bool)>)
        ensures
            final(self).wf(),
            final(self).sort == sort,
            final(self).page == 1,
    {
        self.sort = sort;
        self.page = page_after_sort_change();
    }

    /// A click on the page number `number`, one of those the pagination lists.
    pub fn go_to(&mut self, number: usize)
        requires
            1 <= number <= pages_for(invoices_spec().len() as int),
        ensures
            final(self).wf(),
            final(self).sort == old(self).sort,
            final(self).page == number,
    {
        self.page = number;
    }

    /// "Previous": one page back, never before the first.
    pub fn previous(&mut self)
        requires
            old(self).wf(),
        ensures
            final(self).wf(),
            final(self).sort == old(self).sort,
            final(self).page == if old(self).page > 1 { old(self).page - 1 } else { 1 },
    {
        self.page = previous_page(self.page);
    }

    /// "Next": one page on, never past the last.
    pub fn next(&mut self)
        requires
            old(self).wf(),
        ensures
            final(self).wf(),
            final(self).sort == old(self).sort,
            final(self).page == if old(self).page + 1 < pages_for(invoices_spec().len() as int) {
                old(self).page + 1
            } else {
                pages_for(invoices_spec().len() as int)
            },
    {
        let pages = self.pages();
        self.page = next_page(self.page, pages);
    }

    /// The rows the table shows: the page's slice of all the invoices, sorted as a whole first.
    pub fn shown(&self) -> (r: Vec<Invoice>)
        requires
            self.wf(),
        ensures
            ({
                let n = invoices_spec().len() as int;
                let start = (self.page - 1) * PAGE_SIZE;
                let end = if self.page * PAGE_SIZE < n { self.page * PAGE_SIZE } else { n };
                &&& start < n
                &&& r@ == sorted_spec(invoices_spec(), self.sort).subrange(start, end)
            }),
    {
        let rows = invoices();
        visible_rows(&rows, self.sort, self.page)
    }
}

/// Whatever the reader does, the table stays on a page that exists, and that page shows at least
/// one row: each step keeps `wf`, and `new` starts in it.
pub proof fn law_table_stays_on_a_page(t: InvoiceTable)
    requires
        t.wf(),
    ensures
        1 <= t.page <= 3,
        (t.page - 1) * PAGE_SIZE < invoices_spec().len(),
{
}

// ---------------------------------------------------------------------------------------------
// The deployments table
// ---------------------------------------------------------------------------------------------

/// One row of the deployments table.
#[derive(Debug, Clone, Copy)]
pub struct Deployment {
    pub id: &'static str,
    pub env: &'static str,
    pub status: &'static str,
    pub when: &'static str,
}

pub open spec fn deployments_spec() -> Seq<Deployment> {
    seq![
        Deployment { id: "dep_1042", env: "production", status: "Live", when: "12 minutes ago" },
        Deployment { id: "dep_1041", env: "preview", status: "Preview", when: "an hour ago" },
        Deployment { id: "dep_1039", env: "preview", status: "Preview", when: "yesterday" },
        Deployment { id: "dep_1036", env: "production", status: "Rolled back", when: "3 days ago" },
    ]
}

/// The rows the table starts with, and goes back to when it is reset.
pub fn deployments() -> (r: Vec<Deployment>)
    ensures
        r@ == deployments_spec(),
{
    let r = vec![
        Deployment { id: "dep_1042", env: "production", status: "Live", when: "12 minutes ago" },
        Deployment { id: "dep_1041", env: "preview", status: "Preview", when: "an hour ago" },
        Deployment { id: "dep_1039", env: "preview", status: "Preview", when: "yesterday" },
        Deployment { id: "dep_1036", env: "production", status: "Rolled back", when: "3 days ago" },
    ];
    assert(r@ =~= deployments_spec());
    r
}

/// Where the first row with the id `id` is.
pub open spec fn row_of(rows: Seq<Deployment>, id: Seq<char>) -> Option<int>
    decreases rows.len(),
{
    if rows.len() == 0 {
        None
    } else {
        match row_of(rows.drop_last(), id) {
            Some(i) => Some(i),
            None => if rows.last().id@ == id {
                Some(rows.len() - 1)
            } else {
                None
            },
        }
    }
}

proof fn lemma_row_of(rows: Seq<Deployment>, id: Seq<char>)
    ensures
        row_of(rows, id) matches Some(i) ==> 0 <= i < rows.len() && rows[i].id@ == id && forall|j: int|
            0 <= j < i ==> rows[j].id@ != id,
        row_of(rows, id) is None ==> forall|j: int| 0 <= j < rows.len() ==> rows[j].id@ != id,
    decreases rows.len(),
{
    if rows.len() > 0 {
        lemma_row_of(rows.drop_last(), id);
        assert forall|j: int| 0 <= j < rows.len() - 1 implies rows[j] == rows.drop_last()[j] by {}
    }
}

fn find_row(rows: &Vec<Deployment>, id: &str) -> (r: Option<usize>)
    ensures
        r matches Some(i) ==> row_of(rows@, id@) == Some(i as int) && i < rows@.len(),
        r is None ==> row_of(rows@, id@) is None,
{
    proof {
        lemma_row_of(rows@, id@);
    }
    let wanted = chars_of(id);
    let mut k: usize = 0;
    while k < rows.len()
        invariant
            k <= rows@.len(),
            wanted@ == id@,
            forall|j: int| 0 <= j < k ==> rows@[j].id@ != id@,
        decreases rows.len() - k,
    {
        if same(&chars_of(rows[k].id), &wanted) {
            proof {
                lemma_row_of(rows@, id@);
                if row_of(rows@, id@) != Some(k as int) {
                    match row_of(rows@, id@) {
                        Some(i) => {
                            assert(i < k || i > k);
                        },
                        None => {},
                    }
                }
            }
            return Some(k);
        }
        k += 1;
    }
    None
}

/// The status of the row with the id `id`, or nothing when there is no such row.
pub fn status_of(rows: &Vec<Deployment>, id: &str) -> (r: &'static str)
    ensures
        r@ == match row_of(rows@, id@) {
            Some(i) => rows@[i].status@,
            None => ""@,
        },
{
    match find_row(rows, id) {
        Some(i) => rows[i].status,
        None => "",
    }
}

/// What the context menu offers for one row.
#[derive(Debug, Clone, Copy, PartialEq, Eq, Structural)]
pub enum RowAction {
    /// "Promote to production": a preview goes live.
    Promote,
    /// "Roll back": the live one is taken down.
    RollBack,
    /// "Re-run": the row goes back to building.
    Rerun,
    /// "Delete": the row leaves the table.
    Delete,
}

/// What the menu offers for a row whose status is `status`: promotion for a preview, a rollback
/// for what is live, and re-running and deleting for every row.
pub fn actions_for(status: &str) -> (r: Vec<RowAction>)
    ensures
        r@ == if status@ == "Preview"@ {
            seq![RowAction::Promote, RowAction::Rerun, RowAction::Delete]
        } else if status@ == "Live"@ {
            seq![RowAction::RollBack, RowAction::Rerun, RowAction::Delete]
        } else {
            seq![RowAction::Rerun, RowAction::Delete]
        },
{
    proof {
        reveal_strlit("Preview");
        reveal_strlit("Live");
    }
    let s = chars_of(status);
    if same(&s, &chars_of("Preview")) {
        let r = vec![RowAction::Promote, RowAction::Rerun, RowAction::Delete];
        assert(r@ =~= seq![RowAction::Promote, RowAction::Rerun, RowAction::Delete]);
        r
    } else if same(&s, &chars_of("Live")) {
        let r = vec![RowAction::RollBack, RowAction::Rerun, RowAction::Delete];
        assert(r@ =~= seq![RowAction::RollBack, RowAction::Rerun, RowAction::Delete]);
        r
    } else {
        let r = vec![RowAction::Rerun, RowAction::Delete];
        assert(r@ =~= seq![RowAction::Rerun, RowAction::Delete]);
        r
    }
}

/// `rows` with the status of the row `id` set to `status`: the first row with that id, and no
/// other; nothing changes when there is none.
pub open spec fn with_status(rows: Seq<Deployment>, id: Seq<char>, status: &'static str) -> Seq<Deployment> {
    match row_of(rows, id) {
        Some(i) => rows.update(
            i,
            Deployment { id: rows[i].id, env: rows[i].env, status, when: rows[i].when },
        ),
        None => rows,
    }
}

/// `rows` without every row whose id is `id`.
pub open spec fn without_row(rows: Seq<Deployment>, id: Seq<char>) -> Seq<Deployment> {
    rows.filter(|d: Deployment| d.id@ != id)
}

/// Sets the status of the row `id`.
pub fn set_status(rows: &mut Vec<Deployment>, id: &str, status: &'static str)
    ensures
        final(rows)@ == with_status(old(rows)@, id@, status),
{
    match find_row(rows, id) {
        Some(i) => {
            let old_row = rows[i];
            rows.set(i, Deployment { id: old_row.id, env: old_row.env, status, when: old_row.when });
        },
        None => {},
    }
}

/// Takes every row with the id `id` out of the table.
pub fn delete_row(rows: &mut Vec<Deployment>, id: &str)
    ensures
        final(rows)@ == without_row(old(rows)@, id@),
{
    let wanted = chars_of(id);
    let mut out: Vec<Deployment> = Vec::new();
    let mut k: usize = 0;
    while k < rows.len()
        invariant
            k <= rows@.len(),
            wanted@ == id@,
            out@ == without_row(rows@.take(k as int), id@),
        decreases rows.len() - k,
    {
        proof {
            let t = rows@.take(k + 1);
            assert(t.drop_last() =~= rows@.take(k as int));
            reveal(Seq::filter);
            assert(t.filter(|d: Deployment| d.id@ != id@) == {
                let before = t.drop_last().filter(|d: Deployment| d.id@ != id@);
                if t.last().id@ != id@ { before.push(t.last()) } else { before }
            });
        }
        if !same(&chars_of(rows[k].id), &wanted) {
            out.push(rows[k]);
        }
        k += 1;
    }
    assert(rows@.take(rows@.len() as int) =~= rows@);
    *rows = out;
}

/// What choosing `action` on the row `id` does to the table.
pub open spec fn acted(rows: Seq<Deployment>, id: Seq<char>, action: RowAction) -> Seq<Deployment> {
    match action {
        RowAction::Promote => with_status(rows, id, "Live"),
        RowAction::RollBack => with_status(rows, id, "Rolled back"),
        RowAction::Rerun => with_status(rows, id, "Building"),
        RowAction::Delete => without_row(rows, id),
    }
}

/// Carries out `action` on the row `id`.
pub fn act(rows: &mut Vec<Deployment>, id: &str, action: RowAction)
    ensures
        final(rows)@ == acted(old(rows)@, id@, action),
{
    match action {
        RowAction::Promote => set_status(rows, id, "Live"),
        RowAction::RollBack => set_status(rows, id, "Rolled back"),
        RowAction::Rerun => set_status(rows, id, "Building"),
        RowAction::Delete => delete_row(rows, id),
    }
}

// ---------------------------------------------------------------------------------------------
// The bug report form
// ---------------------------------------------------------------------------------------------

/// What is wrong with the form as it stands, field by field.
#[derive(Debug, Clone, Copy, PartialEq, Eq, Structural)]
pub struct Problems {
    /// The name is blank.
    pub name: bool,
    /// The address has no `@` in it.
    pub email: bool,
    /// The summary is under ten characters once trimmed.
    pub summary: bool,
}

impl Problems {
    /// Whether anything is wrong, which is what stops a submit.
    pub fn any(&self) -> (r: bool)
        ensures
            r == (self.name || self.email || self.summary),
    {
        self.name || self.email || self.summary
    }
}

/// What is wrong with a form holding `name`, `email` and `summary`.
pub fn problems(name: &str, email: &str, summary: &str) -> (r: Problems)
    ensures
        r.name == (trim(name@).len() == 0),
        r.email == !contains(email@, "@"@),
        r.summary == (trim(summary@).len() < 10),
{
    let name_blank = trim_exec(&chars_of(name)).len() == 0;
    let no_at = !contains_exec(&chars_of(email), &chars_of("@"));
    let short = trim_exec(&chars_of(summary)).len() < 10;
    Problems { name: name_blank, email: no_at, summary: short }
}

// ---------------------------------------------------------------------------------------------
// The list with an undo
// ---------------------------------------------------------------------------------------------

/// One file of the list.
#[derive(Debug, Clone, Copy)]
pub struct Doc {
    pub name: &'static str,
    pub detail: &'static str,
}

pub open spec fn docs_spec() -> Seq<Doc> {
    seq![
        Doc { name: "Q3 forecast.numbers", detail: "Edited 2 days ago · 1.2 MB" },
        Doc { name: "Offsite agenda.md", detail: "Edited last week · 4 KB" },
        Doc { name: "Logo marks.zip", detail: "Edited in March · 18 MB" },
    ]
}

/// The files the list starts with, and has again when it is put back.
pub fn docs() -> (r: Vec<Doc>)
    ensures
        r@ == docs_spec(),
{
    let r = vec![
        Doc { name: "Q3 forecast.numbers", detail: "Edited 2 days ago · 1.2 MB" },
        Doc { name: "Offsite agenda.md", detail: "Edited last week · 4 KB" },
        Doc { name: "Logo marks.zip", detail: "Edited in March · 18 MB" },
    ];
    assert(r@ =~= docs_spec());
    r
}

/// Takes the row at `index` out of the list at once, and hands it back for the undo to keep.
pub fn delete_doc(rows: &mut Vec<Doc>, index: usize) -> (removed: Doc)
    requires
        index < old(rows)@.len(),
    ensures
        removed == old(rows)@[index as int],
        final(rows)@ == old(rows)@.remove(index as int),
{
    rows.remove(index)
}

/// Where the undo puts a row back: where it was, or at the end when the list has since grown
/// shorter than that.
pub open spec fn restored(rows: Seq<Doc>, index: int, removed: Doc) -> Seq<Doc> {
    rows.insert(if index < rows.len() { index } else { rows.len() as int }, removed)
}

/// What the undo does: puts `removed` back at `index`, or at the end of a list now shorter.
pub fn undo_delete(rows: &mut Vec<Doc>, index: usize, removed: Doc)
    requires
        old(rows)@.len() < usize::MAX,
    ensures
        final(rows)@ == restored(old(rows)@, index as int, removed),
{
    let at = if index < rows.len() { index } else { rows.len() };
    rows.insert(at, removed);
}

/// "Undo puts it back where it was": deleting a row and then undoing, with nothing else done in
/// between, leaves the list as it was.
pub proof fn law_undo_puts_it_back(rows: Seq<Doc>, index: int)
    requires
        0 <= index < rows.len(),
    ensures
        restored(rows.remove(index), index, rows[index]) == rows,
{
    let after = rows.remove(index);
    if index < after.len() {
        assert(after.insert(index, rows[index]) =~= rows);
    } else {
        assert(after.insert(after.len() as int, rows[index]) =~= rows);
    }
}

/// Whether a field says what is wrong with it: only once a submit has been tried, and then only
/// while it is still wrong.
pub fn shown(submitted: bool, problem: bool) -> (r: bool)
    ensures
        r == (submitted && problem),
{
    submitted && problem
}

/// What the summary's counter says: how many of the ten characters it needs are written, once
/// trimmed, or that there are enough.
pub fn summary_counter(summary: &str) -> (r: String)
    ensures
        r@ == if trim(summary@).len() < 10 {
            decimal(trim(summary@).len()) + " of 10 characters."@
        } else {
            "Enough to go on."@
        },
{
    let written = trim_exec(&chars_of(summary)).len();
    if written < 10 {
        let mut out = decimal_exec(written);
        push_all(&mut out, &chars_of(" of 10 characters."));
        string_of(&out)
    } else {
        "Enough to go on.".to_string()
    }
}

// ---------------------------------------------------------------------------------------------
// Small labels
// ---------------------------------------------------------------------------------------------

/// What the canvas can place.
#[derive(Debug, Clone, Copy, PartialEq, Eq, Structural)]
pub enum Kind {
    Note,
    Rectangle,
    Ellipse,
    Text,
}

/// What the canvas's palette calls `kind`.
pub open spec fn kind_name(kind: Kind) -> Seq<char> {
    match kind {
        Kind::Note => "Note"@,
        Kind::Rectangle => "Rectangle"@,
        Kind::Ellipse => "Ellipse"@,
        Kind::Text => "Text"@,
    }
}

impl Kind {
    /// What the canvas's palette calls it.
    pub fn label(self) -> (r: &'static str)
        ensures
            r@ == kind_name(self),
    {
        match self {
            Kind::Note => "Note",
            Kind::Rectangle => "Rectangle",
            Kind::Ellipse => "Ellipse",
            Kind::Text => "Text",
        }
    }
}

/// The look of a status badge.
#[derive(Debug, Clone, Copy, PartialEq, Eq, Structural)]
pub enum Badge {
    Default,
    Secondary,
    Destructive,
    Outline,
}

/// How an invoice's status is badged: paid quietly, overdue loudly, anything else outlined.
pub fn invoice_badge(status: &str) -> (r: Badge)
    ensures
        r == if status@ == "Paid"@ {
            Badge::Secondary
        } else if status@ == "Overdue"@ {
            Badge::Destructive
        } else {
            Badge::Outline
        },
{
    let s = chars_of(status);
    if same(&s, &chars_of("Paid")) {
        Badge::Secondary
    } else if same(&s, &chars_of("Overdue")) {
        Badge::Destructive
    } else {
        Badge::Outline
    }
}

/// How a deployment's status is badged: live as the default, a rollback loudly, anything else
/// as secondary.
pub fn deployment_badge(status: &str) -> (r: Badge)
    ensures
        r == if status@ == "Live"@ {
            Badge::Default
        } else if status@ == "Rolled back"@ {
            Badge::Destructive
        } else {
            Badge::Secondary
        },
{
    let s = chars_of(status);
    if same(&s, &chars_of("Live")) {
        Badge::Default
    } else if same(&s, &chars_of("Rolled back")) {
        Badge::Destructive
    } else {
        Badge::Secondary
    }
}

} // verus!
