//! The kanban board block of the documentation site: columns of cards, and the four things that
//! change one — moving a card, deleting it, adding a card, adding a column.
//!
//! A drag and the context menu's "Move to" both end in [`Board::apply`], so the two cannot come
//! to disagree about what moving means. Cards are keyed by id, since two cards with one title
//! would otherwise be one card that teleports.

use crate::text::{chars_of, push_all, same, string_of, trim, trim_exec, views_of_strings};
use vstd::prelude::*;

verus! {

/// One column: its name and its cards, top to bottom.
pub struct Column {
    pub name: String,
    pub cards: Vec<String>,
}

/// The board: its columns, left to right, and how many cards have been added to it.
pub struct Board {
    pub columns: Vec<Column>,
    pub next: usize,
}

/// A move: `card` to position `index` of the column named `to`. `from` is where the card was
/// taken from; the move does not need it, since a card is found wherever it is.
pub struct Move {
    pub card: String,
    pub from: String,
    pub to: String,
    pub index: usize,
}

/// A column as a name and the texts of its cards.
pub open spec fn column_view(c: Column) -> (Seq<char>, Seq<Seq<char>>) {
    (c.name@, views_of_strings(c.cards@))
}

pub open spec fn columns_view(v: Seq<Column>) -> Seq<(Seq<char>, Seq<Seq<char>>)> {
    Seq::new(v.len(), |i: int| column_view(v[i]))
}

/// `cards` without `card`.
pub open spec fn without(cards: Seq<Seq<char>>, card: Seq<char>) -> Seq<Seq<char>>
    decreases cards.len(),
{
    if cards.len() == 0 {
        seq![]
    } else {
        let before = without(cards.drop_last(), card);
        if cards.last() == card {
            before
        } else {
            before.push(cards.last())
        }
    }
}

/// The first column named `name`.
pub open spec fn first_named(cols: Seq<(Seq<char>, Seq<Seq<char>>)>, name: Seq<char>) -> Option<int>
    decreases cols.len(),
{
    if cols.len() == 0 {
        None
    } else {
        match first_named(cols.drop_last(), name) {
            Some(i) => Some(i),
            None => if cols.last().0 == name {
                Some(cols.len() - 1)
            } else {
                None
            },
        }
    }
}

/// The board after `card` is moved to position `index` of the column named `to`: the card comes
/// out of every column, then goes into the first column of that name, `index` taken no further
/// than the column's end. With no such column the card is simply gone.
pub open spec fn moved_of(
    cols: Seq<(Seq<char>, Seq<Seq<char>>)>,
    card: Seq<char>,
    to: Seq<char>,
    index: int,
) -> Seq<(Seq<char>, Seq<Seq<char>>)> {
    Seq::new(
        cols.len(),
        |i: int|
            {
                let kept = without(cols[i].1, card);
                if first_named(cols, to) == Some(i) {
                    (
                        cols[i].0,
                        kept.insert(
                            if index <= kept.len() {
                                index
                            } else {
                                kept.len() as int
                            },
                            card,
                        ),
                    )
                } else {
                    (cols[i].0, kept)
                }
            },
    )
}

/// The board with `card` deleted from every column.
pub open spec fn deleted_of(cols: Seq<(Seq<char>, Seq<Seq<char>>)>, card: Seq<char>) -> Seq<
    (Seq<char>, Seq<Seq<char>>),
> {
    Seq::new(cols.len(), |i: int| (cols[i].0, without(cols[i].1, card)))
}

/// The decimal digits of `n`.
pub open spec fn decimal(n: nat) -> Seq<char>
    decreases n,
{
    if n < 10 {
        seq![((n + 48) as u8) as char]
    } else {
        decimal(n / 10).push((((n % 10) + 48) as u8) as char)
    }
}

/// The id a card titled `title` gets as the `n`th card added: its title, ` #` and the count.
pub open spec fn card_id(title: Seq<char>, n: nat) -> Seq<char> {
    title + " #"@ + decimal(n)
}

pub fn decimal_exec(n: usize) -> (r: Vec<char>)
    ensures
        r@ == decimal(n as nat),
    decreases n,
{
    let d = ((n % 10) as u8 + 48) as char;
    if n < 10 {
        let mut v: Vec<char> = Vec::new();
        v.push(d);
        assert(v@ =~= decimal(n as nat));
        v
    } else {
        let mut v = decimal_exec(n / 10);
        v.push(d);
        v
    }
}

fn without_exec(cards: &Vec<String>, card: &Vec<char>) -> (r: Vec<String>)
    ensures
        views_of_strings(r@) == without(views_of_strings(cards@), card@),
{
    let mut out: Vec<String> = Vec::new();
    let mut k: usize = 0;
    while k < cards.len()
        invariant
            k <= cards@.len(),
            views_of_strings(out@) == without(views_of_strings(cards@).take(k as int), card@),
        decreases cards.len() - k,
    {
        let ghost v = views_of_strings(cards@);
        assert(v.take(k + 1).drop_last() =~= v.take(k as int));
        assert(v.take(k + 1).last() == cards@[k as int]@);
        if !same(&chars_of(cards[k].as_str()), card) {
            let ghost before = views_of_strings(out@);
            out.push(cards[k].clone());
            assert(views_of_strings(out@) =~= before.push(cards@[k as int]@));
        }
        k += 1;
    }
    assert(views_of_strings(cards@).take(cards@.len() as int) =~= views_of_strings(cards@));
    out
}

/// Where the first column named `name` is, read off the columns.
fn first_named_exec(cols: &Vec<Column>, name: &Vec<char>) -> (r: Option<usize>)
    ensures
        r matches Some(i) ==> first_named(columns_view(cols@), name@) == Some(i as int),
        r is None ==> first_named(columns_view(cols@), name@) is None,
{
    let ghost cv = columns_view(cols@);
    let mut k: usize = 0;
    while k < cols.len()
        invariant
            k <= cols@.len(),
            cv == columns_view(cols@),
            first_named(cv.take(k as int), name@) is None,
        decreases cols.len() - k,
    {
        assert(cv.take(k + 1).drop_last() =~= cv.take(k as int));
        assert(cv.take(k + 1).last() == cv[k as int]);
        if same(&chars_of(cols[k].name.as_str()), name) {
            proof {
                lemma_first_named_prefix(cv, name@, k + 1);
            }
            return Some(k);
        }
        k += 1;
    }
    assert(cv.take(cols@.len() as int) =~= cv);
    None
}

/// The first column of a name in a prefix of the columns is the first in all of them.
proof fn lemma_first_named_prefix(
    cols: Seq<(Seq<char>, Seq<Seq<char>>)>,
    name: Seq<char>,
    k: int,
)
    requires
        0 <= k <= cols.len(),
        first_named(cols.take(k), name) is Some,
    ensures
        first_named(cols, name) == first_named(cols.take(k), name),
    decreases cols.len() - k,
{
    if k < cols.len() {
        assert(cols.take(k + 1).drop_last() =~= cols.take(k));
        lemma_first_named_prefix(cols, name, k + 1);
    } else {
        assert(cols.take(k) =~= cols);
    }
}

proof fn lemma_first_named(cols: Seq<(Seq<char>, Seq<Seq<char>>)>, name: Seq<char>)
    ensures
        first_named(cols, name) matches Some(i) ==> 0 <= i < cols.len() && cols[i].0 == name,
    decreases cols.len(),
{
    if cols.len() > 0 {
        lemma_first_named(cols.drop_last(), name);
    }
}

impl Board {
    /// The columns as names and card texts.
    pub open spec fn view_cols(&self) -> Seq<(Seq<char>, Seq<Seq<char>>)> {
        columns_view(self.columns@)
    }

    /// The board the block starts with.
    pub fn seed() -> (r: Board)
        ensures
            r.view_cols() == seq![
                ("Backlog"@, seq![
                    "Split globals.css"@,
                    "Re-encode the avatar"@,
                    "Publish the CLI"@,
                ]),
                ("In progress"@, seq!["Kanban block"@]),
                ("Done"@, seq!["Tree"@, "Dropzone"@]),
            ],
            r.next == 0,
    {
        let mut backlog: Vec<String> = Vec::new();
        backlog.push("Split globals.css".to_string());
        backlog.push("Re-encode the avatar".to_string());
        backlog.push("Publish the CLI".to_string());
        let mut doing: Vec<String> = Vec::new();
        doing.push("Kanban block".to_string());
        let mut done: Vec<String> = Vec::new();
        done.push("Tree".to_string());
        done.push("Dropzone".to_string());
        let mut columns: Vec<Column> = Vec::new();
        columns.push(Column { name: "Backlog".to_string(), cards: backlog });
        columns.push(Column { name: "In progress".to_string(), cards: doing });
        columns.push(Column { name: "Done".to_string(), cards: done });
        let r = Board { columns, next: 0 };
        assert(views_of_strings(r.columns@[0].cards@) =~= seq![
            "Split globals.css"@,
            "Re-encode the avatar"@,
            "Publish the CLI"@,
        ]);
        assert(views_of_strings(r.columns@[1].cards@) =~= seq!["Kanban block"@]);
        assert(views_of_strings(r.columns@[2].cards@) =~= seq!["Tree"@, "Dropzone"@]);
        assert(r.view_cols() =~= seq![
            ("Backlog"@, seq![
                "Split globals.css"@,
                "Re-encode the avatar"@,
                "Publish the CLI"@,
            ]),
            ("In progress"@, seq!["Kanban block"@]),
            ("Done"@, seq!["Tree"@, "Dropzone"@]),
        ]);
        r
    }

    /// The one mutation every gesture goes through: a drag calls it with what the board
    /// reported, and the context menu builds the same move by hand, at the bottom of the column.
    #[verifier::rlimit(40)]
    pub fn apply(&mut self, mv: &Move)
        ensures
            final(self).view_cols() == moved_of(old(self).view_cols(), mv.card@, mv.to@, mv.index as int),
            final(self).next == old(self).next,
    {
        let card = chars_of(mv.card.as_str());
        let to = chars_of(mv.to.as_str());
        let ghost cols = self.view_cols();
        let target = first_named_exec(&self.columns, &to);
        proof {
            lemma_first_named(cols, to@);
        }
        let mut out: Vec<Column> = Vec::new();
        let mut k: usize = 0;
        let ghost goal = moved_of(cols, card@, to@, mv.index as int);
        while k < self.columns.len()
            invariant
                k <= self.columns@.len(),
                cols == columns_view(self.columns@),
                card@ == mv.card@,
                target matches Some(j) ==> first_named(cols, to@) == Some(j as int),
                target is None ==> first_named(cols, to@) is None,
                goal == moved_of(cols, card@, to@, mv.index as int),
                columns_view(out@) == goal.take(k as int),
            decreases self.columns.len() - k,
        {
            let kept = without_exec(&self.columns[k].cards, &card);
            let mut cards = kept;
            let is_target = match target {
                Some(j) => j == k,
                None => false,
            };
            if is_target {
                let at = if mv.index <= cards.len() {
                    mv.index
                } else {
                    cards.len()
                };
                let ghost before = cards@;
                cards.insert(at, mv.card.clone());
                assert(views_of_strings(cards@) =~= views_of_strings(before).insert(at as int, mv.card@));
            }
            let ghost prev = columns_view(out@);
            out.push(Column { name: self.columns[k].name.clone(), cards });
            assert(columns_view(out@) =~= prev.push(goal[k as int]));
            assert(goal.take(k + 1) =~= goal.take(k as int).push(goal[k as int]));
            k += 1;
        }
        assert(goal.take(goal.len() as int) =~= goal);
        self.columns = out;
    }

    /// Deletes `card` from whichever column holds it.
    pub fn delete(&mut self, card: &str)
        ensures
            final(self).view_cols() == deleted_of(old(self).view_cols(), card@),
            final(self).next == old(self).next,
    {
        let c = chars_of(card);
        let ghost cols = self.view_cols();
        let ghost goal = deleted_of(cols, card@);
        let mut out: Vec<Column> = Vec::new();
        let mut k: usize = 0;
        while k < self.columns.len()
            invariant
                k <= self.columns@.len(),
                cols == columns_view(self.columns@),
                c@ == card@,
                goal == deleted_of(cols, card@),
                columns_view(out@) == goal.take(k as int),
            decreases self.columns.len() - k,
        {
            let kept = without_exec(&self.columns[k].cards, &c);
            let ghost prev = columns_view(out@);
            out.push(Column { name: self.columns[k].name.clone(), cards: kept });
            assert(columns_view(out@) =~= prev.push(goal[k as int]));
            assert(goal.take(k + 1) =~= goal.take(k as int).push(goal[k as int]));
            k += 1;
        }
        assert(goal.take(goal.len() as int) =~= goal);
        self.columns = out;
    }

    /// Adds a card titled `title` at the bottom of the column named `column`. A title that is
    /// only white space adds nothing; otherwise the count goes up, and the card's id is its
    /// trimmed title with the count, so two cards with one title are still two cards.
    #[verifier::rlimit(40)]
    pub fn add_card(&mut self, column: &str, title: &str)
        requires
            old(self).next < usize::MAX,
        ensures
            trim(title@).len() == 0 ==> final(self).view_cols() == old(self).view_cols()
                && final(self).next == old(self).next,
            trim(title@).len() > 0 ==> final(self).next == old(self).next + 1
                && final(self).view_cols() == match first_named(old(self).view_cols(), column@) {
                Some(j) => old(self).view_cols().update(
                    j,
                    (
                        old(self).view_cols()[j].0,
                        old(self).view_cols()[j].1.push(card_id(trim(title@), final(self).next as nat)),
                    ),
                ),
                None => old(self).view_cols(),
            },
    {
        let t = trim_exec(&chars_of(title));
        if t.len() == 0 {
            return;
        }
        self.next = self.next + 1;
        let mut id = t;
        push_all(&mut id, &chars_of(" #"));
        push_all(&mut id, &decimal_exec(self.next));
        let name = chars_of(column);
        let ghost cols = self.view_cols();
        proof {
            lemma_first_named(cols, column@);
        }
        match first_named_exec(&self.columns, &name) {
            Some(j) => {
                let mut col = self.columns.remove(j);
                let ghost cards0 = col.cards@;
                col.cards.push(string_of(&id));
                assert(views_of_strings(col.cards@) =~= views_of_strings(cards0).push(id@));
                self.columns.insert(j, col);
                assert(self.view_cols() =~= cols.update(
                    j as int,
                    (cols[j as int].0, cols[j as int].1.push(id@)),
                ));
            },
            None => {},
        }
    }

    /// Adds an empty column named `name`, trimmed, at the right; nothing when the name is only
    /// white space or a column of that name is there already.
    pub fn add_column(&mut self, name: &str)
        ensures
            final(self).next == old(self).next,
            (trim(name@).len() == 0 || first_named(old(self).view_cols(), trim(name@)) is Some)
                ==> final(self).view_cols() == old(self).view_cols(),
            !(trim(name@).len() == 0 || first_named(old(self).view_cols(), trim(name@)) is Some)
                ==> final(self).view_cols() == old(self).view_cols().push((trim(name@), seq![])),
    {
        let t = trim_exec(&chars_of(name));
        if t.len() == 0 {
            return;
        }
        if first_named_exec(&self.columns, &t).is_some() {
            return;
        }
        let ghost cols = self.view_cols();
        let empty: Vec<String> = Vec::new();
        assert(views_of_strings(empty@) =~= Seq::<Seq<char>>::empty());
        self.columns.push(Column { name: string_of(&t), cards: empty });
        assert(self.view_cols() =~= cols.push((t@, seq![])));
    }

    /// The columns a card in the column named `here` can be moved to: all the others, in order.
    pub fn move_targets(&self, here: &str) -> (r: Vec<String>)
        ensures
            views_of_strings(r@) == Seq::new(self.columns@.len(), |i: int| self.columns@[i].name@).filter(
                |n: Seq<char>| n != here@,
            ),
    {
        let h = chars_of(here);
        let ghost names = Seq::new(self.columns@.len(), |i: int| self.columns@[i].name@);
        let mut out: Vec<String> = Vec::new();
        let mut k: usize = 0;
        while k < self.columns.len()
            invariant
                k <= self.columns@.len(),
                h@ == here@,
                names == Seq::new(self.columns@.len(), |i: int| self.columns@[i].name@),
                views_of_strings(out@) == names.take(k as int).filter(|n: Seq<char>| n != here@),
            decreases self.columns.len() - k,
        {
            assert(names.take(k + 1).drop_last() =~= names.take(k as int));
            reveal_with_fuel(Seq::filter, 1);
            if !same(&chars_of(self.columns[k].name.as_str()), &h) {
                let ghost before = views_of_strings(out@);
                out.push(self.columns[k].name.clone());
                assert(views_of_strings(out@) =~= before.push(names[k as int]));
            }
            k += 1;
        }
        assert(names.take(names.len() as int) =~= names);
        out
    }
}


// ---------------------------------------------------------------------------------------------
// What the four changes keep
// ---------------------------------------------------------------------------------------------

/// How many times `card` is in `cards`.
pub open spec fn count_in(cards: Seq<Seq<char>>, card: Seq<char>) -> nat
    decreases cards.len(),
{
    if cards.len() == 0 {
        0
    } else {
        count_in(cards.drop_last(), card) + if cards.last() == card {
            1nat
        } else {
            0nat
        }
    }
}

/// How many times `card` is on the board.
pub open spec fn on_board(cols: Seq<(Seq<char>, Seq<Seq<char>>)>, card: Seq<char>) -> nat
    decreases cols.len(),
{
    if cols.len() == 0 {
        0
    } else {
        on_board(cols.drop_last(), card) + count_in(cols.last().1, card)
    }
}

proof fn lemma_count_without(cards: Seq<Seq<char>>, card: Seq<char>)
    ensures
        count_in(without(cards, card), card) == 0,
    decreases cards.len(),
{
    if cards.len() > 0 {
        lemma_count_without(cards.drop_last(), card);
        let before = without(cards.drop_last(), card);
        if cards.last() != card {
            assert(before.push(cards.last()).drop_last() =~= before);
        }
    }
}

proof fn lemma_count_append(a: Seq<Seq<char>>, b: Seq<Seq<char>>, card: Seq<char>)
    ensures
        count_in(a + b, card) == count_in(a, card) + count_in(b, card),
    decreases b.len(),
{
    if b.len() > 0 {
        lemma_count_append(a, b.drop_last(), card);
        assert((a + b).drop_last() =~= a + b.drop_last());
    } else {
        assert(a + b =~= a);
    }
}

proof fn lemma_count_insert(s: Seq<Seq<char>>, i: int, card: Seq<char>)
    requires
        0 <= i <= s.len(),
    ensures
        count_in(s.insert(i, card), card) == count_in(s, card) + 1,
{
    let one = seq![card];
    assert(one.drop_last() =~= Seq::<Seq<char>>::empty());
    assert(count_in(Seq::<Seq<char>>::empty(), card) == 0);
    assert(one.last() == card);
    assert(count_in(one, card) == count_in(one.drop_last(), card) + 1);
    assert(count_in(one, card) == 1);
    assert(s.insert(i, card) =~= s.take(i) + one + s.skip(i));
    lemma_count_append(s.take(i) + one, s.skip(i), card);
    lemma_count_append(s.take(i), one, card);
    lemma_count_append(s.take(i), s.skip(i), card);
    assert(s.take(i) + s.skip(i) =~= s);
}

#[verifier::rlimit(40)]
proof fn lemma_moved_prefix(
    cols: Seq<(Seq<char>, Seq<Seq<char>>)>,
    card: Seq<char>,
    to: Seq<char>,
    index: int,
    k: int,
)
    requires
        0 <= k <= cols.len(),
        0 <= index,
    ensures
        on_board(moved_of(cols, card, to, index).take(k), card) == if first_named(cols, to)
            matches Some(j) && j < k {
            1nat
        } else {
            0nat
        },
    decreases k,
{
    let m = moved_of(cols, card, to, index);
    lemma_first_named(cols, to);
    if k > 0 {
        lemma_moved_prefix(cols, card, to, index, k - 1);
        assert(m.take(k).drop_last() =~= m.take(k - 1));
        let kept = without(cols[k - 1].1, card);
        lemma_count_without(cols[k - 1].1, card);
        if first_named(cols, to) == Some(k - 1) {
            lemma_count_insert(
                kept,
                if index <= kept.len() {
                    index
                } else {
                    kept.len() as int
                },
                card,
            );
        }
    } else {
        assert(m.take(0) =~= Seq::<(Seq<char>, Seq<Seq<char>>)>::empty());
    }
}

/// A card moved to a column that is there is on the board exactly once afterwards, whatever
/// columns held it before; moved to one that is not, it is gone.
pub proof fn law_moved_card_is_in_one_place(
    cols: Seq<(Seq<char>, Seq<Seq<char>>)>,
    card: Seq<char>,
    to: Seq<char>,
    index: int,
)
    requires
        0 <= index,
    ensures
        first_named(cols, to) is Some ==> on_board(moved_of(cols, card, to, index), card) == 1,
        first_named(cols, to) is None ==> on_board(moved_of(cols, card, to, index), card) == 0,
{
    let m = moved_of(cols, card, to, index);
    lemma_moved_prefix(cols, card, to, index, cols.len() as int);
    lemma_first_named(cols, to);
    assert(m.take(cols.len() as int) =~= m);
}

/// No two columns share a name.
pub open spec fn names_distinct(cols: Seq<(Seq<char>, Seq<Seq<char>>)>) -> bool {
    forall|i: int, j: int| 0 <= i < j < cols.len() ==> #[trigger] cols[i].0 != #[trigger] cols[j].0
}

proof fn lemma_first_named_none(cols: Seq<(Seq<char>, Seq<Seq<char>>)>, name: Seq<char>)
    requires
        first_named(cols, name) is None,
    ensures
        forall|i: int| 0 <= i < cols.len() ==> #[trigger] cols[i].0 != name,
    decreases cols.len(),
{
    if cols.len() > 0 {
        lemma_first_named_none(cols.drop_last(), name);
        assert forall|i: int| 0 <= i < cols.len() implies #[trigger] cols[i].0 != name by {
            if i < cols.len() - 1 {
                assert(cols.drop_last()[i] == cols[i]);
            }
        }
    }
}

/// Adding a column never gives two columns one name.
pub proof fn law_add_column_keeps_names_distinct(
    cols: Seq<(Seq<char>, Seq<Seq<char>>)>,
    name: Seq<char>,
)
    requires
        names_distinct(cols),
        trim(name).len() > 0,
        first_named(cols, trim(name)) is None,
    ensures
        names_distinct(cols.push((trim(name), seq![]))),
{
    lemma_first_named_none(cols, trim(name));
    let after = cols.push((trim(name), seq![]));
    assert forall|i: int, j: int| 0 <= i < j < after.len() implies #[trigger] after[i].0
        != #[trigger] after[j].0 by {
        if j == cols.len() {
            assert(after[i] == cols[i]);
        } else {
            assert(after[i] == cols[i]);
            assert(after[j] == cols[j]);
        }
    }
}

proof fn lemma_decimal_digits(n: nat)
    ensures
        decimal(n).len() >= 1,
        forall|k: int| 0 <= k < decimal(n).len() ==> '0' <= #[trigger] decimal(n)[k] <= '9',
        n >= 10 ==> decimal(n).len() >= 2,
    decreases n,
{
    if n >= 10 {
        lemma_decimal_digits(n / 10);
        let d = decimal(n / 10);
        assert forall|k: int| 0 <= k < decimal(n).len() implies '0' <= #[trigger] decimal(n)[k] <= '9' by {
            if k < d.len() {
                assert(decimal(n)[k] == d[k]);
            }
        }
    }
}

#[verifier::rlimit(40)]
proof fn lemma_decimal_injective(a: nat, b: nat)
    requires
        decimal(a) == decimal(b),
    ensures
        a == b,
    decreases a,
{
    lemma_decimal_digits(a);
    lemma_decimal_digits(b);
    if a < 10 && b < 10 {
        assert(decimal(a)[0] == decimal(b)[0]);
        assert((decimal(a)[0] as u32) == a + 48);
        assert((decimal(b)[0] as u32) == b + 48);
    } else if a >= 10 && b >= 10 {
        assert(decimal(a).last() == decimal(b).last());
        assert((decimal(a).last() as u32) == a % 10 + 48);
        assert((decimal(b).last() as u32) == b % 10 + 48);
        assert(decimal(a).drop_last() =~= decimal(a / 10));
        assert(decimal(b).drop_last() =~= decimal(b / 10));
        lemma_decimal_injective(a / 10, b / 10);
        assert(a == (a / 10) * 10 + a % 10);
        assert(b == (b / 10) * 10 + b % 10);
    } else {
        assert(decimal(a).len() != decimal(b).len());
    }
}

/// Two cards added at different counts have different ids, whatever their titles: the count is
/// read back off the end of the id, past its last `#`.
#[verifier::rlimit(40)]
pub proof fn law_card_ids_differ(t1: Seq<char>, n1: nat, t2: Seq<char>, n2: nat)
    requires
        n1 != n2,
    ensures
        card_id(t1, n1) != card_id(t2, n2),
{
    reveal_strlit(" #");
    let sp = " #"@;
    assert(sp.len() == 2 && sp[0] == ' ' && sp[1] == '#');
    let x = card_id(t1, n1);
    let y = card_id(t2, n2);
    let d1 = decimal(n1);
    let d2 = decimal(n2);
    lemma_decimal_digits(n1);
    lemma_decimal_digits(n2);
    if x == y {
        let i1 = t1.len() + 1int;
        let i2 = t2.len() + 1int;
        assert(x.len() == t1.len() + 2 + d1.len());
        assert(y.len() == t2.len() + 2 + d2.len());
        assert(x[i1] == '#');
        assert(y[i2] == '#');
        if i1 < i2 {
            assert(x[i2] == d1[i2 - i1 - 1]);
            assert('0' <= d1[i2 - i1 - 1] <= '9');
            assert(false);
        } else if i2 < i1 {
            assert(y[i1] == d2[i1 - i2 - 1]);
            assert('0' <= d2[i1 - i2 - 1] <= '9');
            assert(false);
        }
        assert(d1 =~= x.skip(i1 + 1));
        assert(d2 =~= y.skip(i2 + 1));
        lemma_decimal_injective(n1, n2);
    }
}

} // verus!
