//! What `add` wrote, so a later command can tell a file the project has edited from one it has
//! not.
//!
//! A hash of each file as it was installed is enough to tell the two apart. The hash is FNV-1a
//! over the file's UTF-8 bytes, with every `\r` skipped so a checkout on Windows does not read as
//! edited, printed as sixteen lower-case hex digits.

use crate::order::{lemma_sort_seq, sort_seq, sort_strings};
use crate::text::{
    chars_of, contains, contains_exec, ends_with, ends_with_exec, push_all, same, slice_of,
    string_of, strings_of, views, views_of_strings,
};
use vstd::prelude::*;
use vstd::utf8::{encode_scalar, encode_utf8};

verus! {

/// The name of the lock file, beside the config.
pub const LOCK_FILE: &'static str = "nocomponents.lock";

pub const FNV_OFFSET: u64 = 0xcbf2_9ce4_8422_2325;

pub const FNV_PRIME: u64 = 0x0000_0100_0000_01b3;

/// FNV-1a of `bytes`.
pub open spec fn fnv1a(bytes: Seq<u8>) -> u64
    decreases bytes.len(),
{
    if bytes.len() == 0 {
        FNV_OFFSET
    } else {
        (fnv1a(bytes.drop_last()) ^ (bytes.last() as u64)).wrapping_mul(FNV_PRIME)
    }
}

/// `bytes` with every carriage return (13) left out.
pub open spec fn without_cr(bytes: Seq<u8>) -> Seq<u8> {
    bytes.filter(|b: u8| b != 13u8)
}

/// `text` with every `'\r'` left out.
pub open spec fn without_cr_chars(text: Seq<char>) -> Seq<char> {
    text.filter(|c: char| c != '\r')
}

/// A lower-case hex digit.
pub open spec fn hex_digit(d: u64) -> char {
    seq!['0', '1', '2', '3', '4', '5', '6', '7', '8', '9', 'a', 'b', 'c', 'd', 'e', 'f'][d as int]
}

/// The last `n` hex digits of `h`, most significant first: `{h:016x}` for `n` = 16.
pub open spec fn hex(h: u64, n: nat) -> Seq<char>
    decreases n,
{
    if n == 0 {
        seq![]
    } else {
        hex(h / 16, (n - 1) as nat).push(hex_digit(h % 16))
    }
}

/// The hash recorded for a file whose text is `text`.
pub open spec fn hash_of(text: Seq<char>) -> Seq<char> {
    hex(fnv1a(without_cr(encode_utf8(text))), 16)
}

fn hex_exec(h: u64, n: usize) -> (r: Vec<char>)
    ensures
        r@ == hex(h, n as nat),
    decreases n,
{
    if n == 0 {
        Vec::new()
    } else {
        let mut r = hex_exec(h / 16, n - 1);
        let digits: [char; 16] = [
            '0',
            '1',
            '2',
            '3',
            '4',
            '5',
            '6',
            '7',
            '8',
            '9',
            'a',
            'b',
            'c',
            'd',
            'e',
            'f',
        ];
        assert(digits@ =~= seq![
            '0',
            '1',
            '2',
            '3',
            '4',
            '5',
            '6',
            '7',
            '8',
            '9',
            'a',
            'b',
            'c',
            'd',
            'e',
            'f',
        ]);
        r.push(digits[(h % 16) as usize]);
        r
    }
}

/// The hash of a file's text, as the lock records it.
pub fn hash(text: &str) -> (r: String)
    ensures
        r@ == hash_of(text@),
        r@.len() == 16,
{
    let bytes = text.as_bytes();
    let mut h: u64 = FNV_OFFSET;
    let mut i: usize = 0;
    proof {
        reveal_with_fuel(Seq::filter, 1);
        assert(bytes@.take(0) =~= Seq::<u8>::empty());
    }
    while i < bytes.len()
        invariant
            i <= bytes@.len(),
            bytes@ == encode_utf8(text@),
            h == fnv1a(without_cr(bytes@.take(i as int))),
        decreases bytes.len() - i,
    {
        let b = bytes[i];
        proof {
            reveal_with_fuel(Seq::filter, 1);
            assert(bytes@.take(i + 1).drop_last() =~= bytes@.take(i as int));
        }
        let ghost f = without_cr(bytes@.take(i as int));
        assert(bytes@.take(i + 1).last() == b);
        if b != 13 {
            assert(without_cr(bytes@.take(i + 1)) == f.push(b));
            assert(f.push(b).drop_last() =~= f);
            h = (h ^ (b as u64)).wrapping_mul(FNV_PRIME);
        } else {
            assert(without_cr(bytes@.take(i + 1)) == f);
        }
        i += 1;
    }
    assert(bytes@.take(bytes@.len() as int) =~= bytes@);
    let digits = hex_exec(h, 16);
    proof {
        lemma_hex_len(h, 16);
    }
    string_of(&digits)
}

proof fn lemma_hex_len(h: u64, n: nat)
    ensures
        hex(h, n).len() == n,
    decreases n,
{
    if n > 0 {
        lemma_hex_len(h / 16, (n - 1) as nat);
    }
}

/// The bytes of one `char` hold a carriage return only when the `char` is one.
proof fn lemma_scalar_without_cr(c: char)
    ensures
        without_cr(encode_scalar(c as u32)) == (if c == '\r' {
            Seq::<u8>::empty()
        } else {
            encode_scalar(c as u32)
        }),
{
    let u = c as u32;
    reveal_with_fuel(Seq::filter, 5);
    if u == 13 {
        vstd::utf8::char_u32_cast(c, u);
        vstd::utf8::char_u32_cast('\r', 13);
    }
    if c == '\r' {
        assert(u == 13);
    }
    if u <= 0x7f {
        assert(u <= 0x7f ==> (((u & 0x7f) as u8 == 13u8) == (u == 13))) by (bit_vector);
        let e = encode_scalar(u);
        assert(e =~= seq![(u & 0x7f) as u8]);
        assert(e.drop_last() =~= Seq::<u8>::empty());
    } else {
        assert((0xC0u8 | ((u >> 6u32) & 0x1Fu32) as u8) != 13u8) by (bit_vector);
        assert((0xE0u8 | ((u >> 12u32) & 0x0Fu32) as u8) != 13u8) by (bit_vector);
        assert((0xF0u8 | ((u >> 18u32) & 0x7u32) as u8) != 13u8) by (bit_vector);
        assert((0x80u8 | (u & 0x3Fu32) as u8) != 13u8) by (bit_vector);
        assert((0x80u8 | ((u >> 6u32) & 0x3Fu32) as u8) != 13u8) by (bit_vector);
        assert((0x80u8 | ((u >> 12u32) & 0x3Fu32) as u8) != 13u8) by (bit_vector);
        let e = encode_scalar(u);
        if e.len() == 2 {
            assert(e.drop_last() =~= seq![e[0]]);
            assert(e.drop_last().drop_last() =~= Seq::<u8>::empty());
        } else if e.len() == 3 {
            assert(e.drop_last() =~= seq![e[0], e[1]]);
            assert(e.drop_last().drop_last() =~= seq![e[0]]);
            assert(e.drop_last().drop_last().drop_last() =~= Seq::<u8>::empty());
        } else {
            assert(e.drop_last() =~= seq![e[0], e[1], e[2]]);
            assert(e.drop_last().drop_last() =~= seq![e[0], e[1]]);
            assert(e.drop_last().drop_last().drop_last() =~= seq![e[0]]);
            assert(e.drop_last().drop_last().drop_last().drop_last() =~= Seq::<u8>::empty());
        }
        assert(without_cr(e) =~= e);
    }
}

/// Leaving out the carriage returns of a text leaves them out of its bytes, and nothing else.
proof fn lemma_encode_without_cr(s: Seq<char>)
    ensures
        without_cr(encode_utf8(s)) == encode_utf8(without_cr_chars(s)),
    decreases s.len(),
{
    reveal_with_fuel(Seq::filter, 1);
    if s.len() > 0 {
        let c = s[0];
        let rest = s.drop_first();
        lemma_encode_without_cr(rest);
        lemma_scalar_without_cr(c);
        assert(s =~= seq![c] + rest);
        Seq::filter_distributes_over_add(
            encode_scalar(c as u32),
            encode_utf8(rest),
            |b: u8| b != 13u8,
        );
        rest.lemma_filter_prepend(c, |c: char| c != '\r');
        let kept = without_cr_chars(rest);
        if c != '\r' {
            let t = seq![c] + kept;
            assert(t[0] == c);
            assert(t.drop_first() =~= kept);
        } else {
            assert(Seq::<char>::empty() + kept =~= kept);
            assert(Seq::<u8>::empty() + encode_utf8(kept) =~= encode_utf8(kept));
        }
    }
}

/// A hash ignores the line endings a checkout may change: taking every `'\r'` out of a text
/// leaves its hash as it was.
pub proof fn law_hash_ignores_carriage_returns(text: Seq<char>)
    ensures
        hash_of(text) == hash_of(without_cr_chars(text)),
{
    lemma_encode_without_cr(text);
    lemma_without_cr_idempotent(encode_utf8(text));
}

proof fn lemma_without_cr_idempotent(bytes: Seq<u8>)
    ensures
        without_cr(without_cr(bytes)) == without_cr(bytes),
    decreases bytes.len(),
{
    reveal_with_fuel(Seq::filter, 1);
    if bytes.len() > 0 {
        lemma_without_cr_idempotent(bytes.drop_last());
        if bytes.last() != 13u8 {
            let f = without_cr(bytes.drop_last());
            assert(f.push(bytes.last()).drop_last() =~= f);
        }
    }
}

/// What a file on disk is, relative to what was installed.
#[derive(Debug, Clone, Copy, PartialEq, Eq, Structural)]
pub enum State {
    /// Byte-for-byte what `add` wrote.
    Untouched,
    /// Installed, and changed since: the project's work.
    Edited,
    /// Here, but installed before the lock existed, so there is nothing to compare against.
    Unrecorded,
}

/// The map a run of (name, hash) entries stands for; a later entry for a name wins.
pub open spec fn map_of(entries: Seq<(String, String)>) -> Map<Seq<char>, Seq<char>>
    decreases entries.len(),
{
    if entries.len() == 0 {
        Map::empty()
    } else {
        map_of(entries.drop_last()).insert(entries.last().0@, entries.last().1@)
    }
}

/// No name is entered twice.
pub open spec fn names_distinct(entries: Seq<(String, String)>) -> bool {
    forall|i: int, j: int| 0 <= i < j < entries.len() ==> entries[i].0@ != entries[j].0@
}

/// What `state` answers for `name` against a recorded map.
pub open spec fn state_in(recorded: Map<Seq<char>, Seq<char>>, name: Seq<char>, on_disk: Seq<char>) -> State {
    if !recorded.dom().contains(name) {
        State::Unrecorded
    } else if recorded[name] == hash_of(on_disk) {
        State::Untouched
    } else {
        State::Edited
    }
}

proof fn lemma_map_of(entries: Seq<(String, String)>)
    ensures
        forall|k: Seq<char>| #[trigger]
            map_of(entries).dom().contains(k) <==> exists|i: int|
                0 <= i < entries.len() && entries[i].0@ == k,
        names_distinct(entries) ==> forall|i: int|
            0 <= i < entries.len() ==> #[trigger] map_of(entries)[entries[i].0@] == entries[i].1@,
    decreases entries.len(),
{
    if entries.len() > 0 {
        let init = entries.drop_last();
        let n = entries.len() - 1;
        let last = entries[n];
        lemma_map_of(init);
        assert(map_of(entries) == map_of(init).insert(last.0@, last.1@));
        assert forall|k: Seq<char>| #[trigger]
            map_of(entries).dom().contains(k) <==> exists|i: int|
                0 <= i < entries.len() && entries[i].0@ == k by {
            if map_of(entries).dom().contains(k) {
                if k == last.0@ {
                    assert(entries[n].0@ == k);
                } else {
                    assert(map_of(init).dom().contains(k));
                    let i = choose|i: int| 0 <= i < init.len() && init[i].0@ == k;
                    assert(entries[i] == init[i]);
                    assert(entries[i].0@ == k);
                }
            }
            if exists|i: int| 0 <= i < entries.len() && entries[i].0@ == k {
                let i = choose|i: int| 0 <= i < entries.len() && entries[i].0@ == k;
                if i < n {
                    assert(init[i] == entries[i]);
                    assert(map_of(init).dom().contains(k));
                }
            }
        }
        if names_distinct(entries) {
            assert(names_distinct(init)) by {
                assert forall|i: int, j: int| 0 <= i < j < init.len() implies init[i].0@
                    != init[j].0@ by {
                    assert(init[i] == entries[i]);
                    assert(init[j] == entries[j]);
                }
            }
            assert forall|i: int| 0 <= i < entries.len() implies #[trigger] map_of(
                entries,
            )[entries[i].0@] == entries[i].1@ by {
                if i < n {
                    assert(init[i] == entries[i]);
                    assert(entries[i].0@ != last.0@);
                    assert(map_of(init)[init[i].0@] == init[i].1@);
                }
            }
        }
    }
}

/// Entering a new value for a name already entered is inserting it in the map.
proof fn lemma_map_of_update(entries: Seq<(String, String)>, k: int, e: (String, String))
    requires
        names_distinct(entries),
        0 <= k < entries.len(),
        entries[k].0@ == e.0@,
    ensures
        names_distinct(entries.update(k, e)),
        map_of(entries.update(k, e)) == map_of(entries).insert(e.0@, e.1@),
{
    let u = entries.update(k, e);
    assert(names_distinct(u)) by {
        assert forall|i: int, j: int| 0 <= i < j < u.len() implies u[i].0@ != u[j].0@ by {
            assert(entries[i].0@ != entries[j].0@);
        }
    }
    lemma_map_of(entries);
    lemma_map_of(u);
    let m = map_of(entries).insert(e.0@, e.1@);
    assert forall|x: Seq<char>| map_of(u).dom().contains(x) <==> m.dom().contains(x) by {
        if map_of(u).dom().contains(x) {
            let i = choose|i: int| 0 <= i < u.len() && u[i].0@ == x;
            assert(entries[i].0@ == x);
        }
        if map_of(entries).dom().contains(x) {
            let i = choose|i: int| 0 <= i < entries.len() && entries[i].0@ == x;
            assert(u[i].0@ == x);
        }
        if x == e.0@ {
            assert(u[k].0@ == x);
        }
    }
    assert forall|x: Seq<char>| map_of(u).dom().contains(x) implies map_of(u)[x] == m[x] by {
        let i = choose|i: int| 0 <= i < u.len() && u[i].0@ == x;
        assert(map_of(u)[u[i].0@] == u[i].1@);
        if i != k {
            assert(map_of(entries)[entries[i].0@] == entries[i].1@);
        }
    }
    assert(map_of(u) =~= m);
}

/// Leaving out the entry for a name is removing it from the map.
proof fn lemma_map_of_remove(entries: Seq<(String, String)>, k: int)
    requires
        names_distinct(entries),
        0 <= k < entries.len(),
    ensures
        names_distinct(entries.remove(k)),
        map_of(entries.remove(k)) == map_of(entries).remove(entries[k].0@),
{
    let u = entries.remove(k);
    assert(names_distinct(u)) by {
        assert forall|i: int, j: int| 0 <= i < j < u.len() implies u[i].0@ != u[j].0@ by {
            let i2 = if i < k {
                i
            } else {
                i + 1
            };
            let j2 = if j < k {
                j
            } else {
                j + 1
            };
            assert(u[i] == entries[i2]);
            assert(u[j] == entries[j2]);
        }
    }
    lemma_map_of(entries);
    lemma_map_of(u);
    let name = entries[k].0@;
    let m = map_of(entries).remove(name);
    assert forall|x: Seq<char>| map_of(u).dom().contains(x) <==> m.dom().contains(x) by {
        if map_of(u).dom().contains(x) {
            let i = choose|i: int| 0 <= i < u.len() && u[i].0@ == x;
            let i2 = if i < k {
                i
            } else {
                i + 1
            };
            assert(u[i] == entries[i2]);
        }
        if m.dom().contains(x) {
            let i = choose|i: int| 0 <= i < entries.len() && entries[i].0@ == x;
            if i < k {
                assert(u[i] == entries[i]);
            } else {
                assert(u[i - 1] == entries[i]);
            }
        }
    }
    assert forall|x: Seq<char>| map_of(u).dom().contains(x) implies map_of(u)[x] == m[x] by {
        let i = choose|i: int| 0 <= i < u.len() && u[i].0@ == x;
        let i2 = if i < k {
            i
        } else {
            i + 1
        };
        assert(u[i] == entries[i2]);
        assert(map_of(u)[u[i].0@] == u[i].1@);
        assert(map_of(entries)[entries[i2].0@] == entries[i2].1@);
    }
    assert(map_of(u) =~= m);
}

/// The hashes `add` recorded, by component name.
///
/// Held as name and hash pairs with no name twice, rather than as a `BTreeMap`: vstd specifies
/// `BTreeMap` only for keys whose order it can model, which `String` is not, so a map keyed by
/// name would let nothing be proved of what a lookup gives back after an insert. The view is the
/// map all the same, and the order the file lists names in is left to whoever writes the file.
#[derive(Debug)]
pub struct Lock {
    components: Vec<(String, String)>,
}

impl View for Lock {
    type V = Map<Seq<char>, Seq<char>>;

    closed spec fn view(&self) -> Map<Seq<char>, Seq<char>> {
        map_of(self.components@)
    }
}

impl Default for Lock {
    fn default() -> (r: Self)
        ensures
            r@ == Map::<Seq<char>, Seq<char>>::empty(),
    {
        Lock { components: Vec::new() }
    }
}

impl Lock {
    #[verifier::type_invariant]
    spec fn well_formed(self) -> bool {
        names_distinct(self.components@)
    }

    /// Where `name` is entered, if it is.
    fn position(&self, name: &String) -> (r: Option<usize>)
        ensures
            r matches Some(k) ==> k < self.components@.len() && self.components@[k as int].0@
                == name@,
            r is None ==> forall|i: int|
                0 <= i < self.components@.len() ==> self.components@[i].0@ != name@,
    {
        let mut i: usize = 0;
        while i < self.components.len()
            invariant
                i <= self.components@.len(),
                forall|j: int| 0 <= j < i ==> self.components@[j].0@ != name@,
            decreases self.components.len() - i,
        {
            if self.components[i].0 == *name {
                return Some(i);
            }
            i += 1;
        }
        None
    }

    /// Enters `hash` for `name`, over whatever was entered before.
    fn enter(&mut self, name: String, hash: String)
        ensures
            final(self)@ == old(self)@.insert(name@, hash@),
    {
        proof {
            use_type_invariant(&*self);
        }
        let ghost before = self.components@;
        let ghost key = name@;
        let ghost value = hash@;
        match self.position(&name) {
            Some(k) => {
                proof {
                    lemma_map_of_update(before, k as int, (name, hash));
                }
                let mut comps: Vec<(String, String)> = Vec::new();
                std::mem::swap(&mut comps, &mut self.components);
                comps.set(k, (name, hash));
                self.components = comps;
            },
            None => {
                proof {
                    lemma_map_of(before);
                    assert(names_distinct(before.push((name, hash)))) by {
                        let p = before.push((name, hash));
                        assert forall|i: int, j: int| 0 <= i < j < p.len() implies p[i].0@
                            != p[j].0@ by {
                            if j == before.len() {
                                assert(p[i] == before[i]);
                            } else {
                                assert(p[i] == before[i]);
                                assert(p[j] == before[j]);
                            }
                        }
                    }
                    assert(before.push((name, hash)).drop_last() =~= before);
                }
                let mut comps: Vec<(String, String)> = Vec::new();
                std::mem::swap(&mut comps, &mut self.components);
                comps.push((name, hash));
                self.components = comps;
            },
        }
    }

    /// Records the hash of what was just written for `name`.
    pub fn record(&mut self, name: &str, source: &str)
        ensures
            final(self)@ == old(self)@.insert(name@, hash_of(source@)),
    {
        let h = hash(source);
        self.enter(name.to_owned(), h);
    }

    /// Forgets `name`, as when its file is removed.
    pub fn forget(&mut self, name: &str)
        ensures
            final(self)@ == old(self)@.remove(name@),
    {
        proof {
            use_type_invariant(&*self);
        }
        let key = name.to_owned();
        let ghost before = self.components@;
        match self.position(&key) {
            Some(k) => {
                proof {
                    lemma_map_of_remove(before, k as int);
                }
                let mut comps: Vec<(String, String)> = Vec::new();
                std::mem::swap(&mut comps, &mut self.components);
                comps.remove(k);
                self.components = comps;
            },
            None => {
                proof {
                    lemma_map_of(before);
                    assert(!map_of(before).dom().contains(name@));
                    assert(map_of(before).remove(name@) =~= map_of(before));
                }
            },
        }
    }

    /// What the file for `name` is, given its text on disk.
    pub fn state(&self, name: &str, on_disk: &str) -> (r: State)
        ensures
            r == state_in(self@, name@, on_disk@),
    {
        proof {
            use_type_invariant(self);
            lemma_map_of(self.components@);
        }
        let key = name.to_owned();
        match self.position(&key) {
            None => State::Unrecorded,
            Some(k) => {
                let h = hash(on_disk);
                if self.components[k].1 == h {
                    State::Untouched
                } else {
                    State::Edited
                }
            },
        }
    }

    /// Whether nothing is recorded, in which case there is no lock file to keep.
    pub fn is_empty(&self) -> (r: bool)
        ensures
            r == (self@.dom().len() == 0),
    {
        proof {
            use_type_invariant(self);
            lemma_map_of(self.components@);
            lemma_map_of_finite(self.components@);
            if self.components@.len() > 0 {
                assert(self@.dom().contains(self.components@[0].0@));
            } else {
                assert(self@.dom() =~= Set::<Seq<char>>::empty());
            }
        }
        self.components.len() == 0
    }

    /// Every (name, hash) recorded, each name once, for writing the lock out.
    pub fn entries(&self) -> (r: Vec<(String, String)>)
        ensures
            map_of(r@) == self@,
            names_distinct(r@),
    {
        proof {
            use_type_invariant(self);
        }
        let mut out: Vec<(String, String)> = Vec::new();
        let mut i: usize = 0;
        while i < self.components.len()
            invariant
                i <= self.components@.len(),
                out@ == self.components@.take(i as int),
            decreases self.components.len() - i,
        {
            let e = (self.components[i].0.clone(), self.components[i].1.clone());
            out.push(e);
            assert(out@ =~= self.components@.take(i + 1));
            i += 1;
        }
        assert(self.components@.take(self.components@.len() as int) =~= self.components@);
        out
    }

    /// A lock holding `entries`, as read back from the lock file; a later entry for a name wins.
    pub fn from_entries(entries: Vec<(String, String)>) -> (r: Lock)
        ensures
            r@ == map_of(entries@),
    {
        let mut lock = Lock { components: Vec::new() };
        let mut i: usize = 0;
        while i < entries.len()
            invariant
                i <= entries@.len(),
                lock@ == map_of(entries@.take(i as int)),
            decreases entries.len() - i,
        {
            assert(entries@.take(i + 1).drop_last() =~= entries@.take(i as int));
            let (name, hash) = (entries[i].0.clone(), entries[i].1.clone());
            lock.enter(name, hash);
            i += 1;
        }
        assert(entries@.take(entries@.len() as int) =~= entries@);
        lock
    }
}

proof fn lemma_map_of_finite(entries: Seq<(String, String)>)
    ensures
        map_of(entries).dom().finite(),
    decreases entries.len(),
{
    if entries.len() > 0 {
        lemma_map_of_finite(entries.drop_last());
    }
}

/// What was just recorded for a name reads back as untouched.
pub proof fn law_recorded_reads_untouched(
    recorded: Map<Seq<char>, Seq<char>>,
    name: Seq<char>,
    source: Seq<char>,
)
    ensures
        state_in(recorded.insert(name, hash_of(source)), name, source) == State::Untouched,
{
}

/// After recording a name, a text reads as edited exactly when its hash differs from what was
/// recorded.
pub proof fn law_recorded_then_changed_reads_edited(
    recorded: Map<Seq<char>, Seq<char>>,
    name: Seq<char>,
    source: Seq<char>,
    on_disk: Seq<char>,
)
    ensures
        (state_in(recorded.insert(name, hash_of(source)), name, on_disk) == State::Edited) <==> (
        hash_of(on_disk) != hash_of(source)),
{
}

/// A forgotten name reads as unrecorded, whatever is on disk.
pub proof fn law_forgotten_reads_unrecorded(
    recorded: Map<Seq<char>, Seq<char>>,
    name: Seq<char>,
    on_disk: Seq<char>,
)
    ensures
        state_in(recorded.remove(name), name, on_disk) == State::Unrecorded,
{
}

/// Recording or forgetting one name leaves what every other name reads as.
pub proof fn law_other_names_unchanged(
    recorded: Map<Seq<char>, Seq<char>>,
    name: Seq<char>,
    hash: Seq<char>,
    other: Seq<char>,
    on_disk: Seq<char>,
)
    requires
        name != other,
    ensures
        state_in(recorded.insert(name, hash), other, on_disk) == state_in(recorded, other, on_disk),
        state_in(recorded.remove(name), other, on_disk) == state_in(recorded, other, on_disk),
{
}

/// What another component's file has to say to be built on `name`: `<rust_path>::<name>::`.
pub open spec fn dependency_needle(name: Seq<char>, rust_path: Seq<char>) -> Seq<char> {
    rust_path + "::"@ + name + "::"@
}

/// The component a file of the install directory is, if it is one: its name less `.rs`.
pub open spec fn component_of_file(file: Seq<char>) -> Option<Seq<char>> {
    if ends_with(file, ".rs"@) {
        Some(file.take(file.len() - ".rs"@.len()))
    } else {
        None
    }
}

/// Of `files` (each name with its text, `None` where it could not be read), the components
/// other than `name` and `mod` whose text names `name`, in the order of `files`.
pub open spec fn dependents_in(
    files: Seq<(Seq<char>, Option<Seq<char>>)>,
    name: Seq<char>,
    rust_path: Seq<char>,
) -> Seq<Seq<char>>
    decreases files.len(),
{
    if files.len() == 0 {
        seq![]
    } else {
        let found = dependents_in(files.drop_last(), name, rust_path);
        let (file, text) = files.last();
        match component_of_file(file) {
            Some(other) => if other != name && other != "mod"@ && (text matches Some(t) && contains(
                t,
                dependency_needle(name, rust_path),
            )) {
                found.push(other)
            } else {
                found
            },
            None => found,
        }
    }
}

/// A file of the listing that names `name` as a component of the project: its text writes
/// `<rust_path>::<name>::`, the component's module followed by the path separator.
proof fn lemma_dependents_in(
    files: Seq<(Seq<char>, Option<Seq<char>>)>,
    name: Seq<char>,
    rust_path: Seq<char>,
    other: Seq<char>,
)
    ensures
        dependents_in(files, name, rust_path).contains(other) <==> exists|k: int|
            0 <= k < files.len() && #[trigger] component_of_file(files[k].0) == Some(other)
                && other != name && other != "mod"@ && files[k].1 is Some && contains(
                files[k].1->0,
                rust_path + "::"@ + name + "::"@,
            ),
    decreases files.len(),
{
    if files.len() > 0 {
        let init = files.drop_last();
        lemma_dependents_in(init, name, rust_path, other);
        let found = dependents_in(init, name, rust_path);
        let r = dependents_in(files, name, rust_path);
        let last = files.len() - 1;
        assert forall|k: int| 0 <= k < init.len() implies init[k] == files[k] by {}
        if r.contains(other) {
            if !found.contains(other) {
                assert(r != found);
                assert(r == found.push(r.last()));
                let i = choose|i: int| 0 <= i < r.len() && r[i] == other;
                if i < found.len() {
                    assert(found[i] == other);
                }
                assert(component_of_file(files[last].0) == Some(other));
            } else {
                let k = choose|k: int|
                    0 <= k < init.len() && #[trigger] component_of_file(init[k].0) == Some(other)
                        && other != name && other != "mod"@ && init[k].1 is Some && contains(
                        init[k].1->0,
                        rust_path + "::"@ + name + "::"@,
                    );
                assert(files[k] == init[k]);
            }
        } else {
            assert forall|k: int|
                0 <= k < files.len() && #[trigger] component_of_file(files[k].0) == Some(other)
                    && other != name && other != "mod"@ && files[k].1 is Some implies !contains(
                    files[k].1->0,
                    rust_path + "::"@ + name + "::"@,
                ) by {
                if k < init.len() {
                    assert(files[k] == init[k]);
                    if contains(files[k].1->0, rust_path + "::"@ + name + "::"@) {
                        assert(found.contains(other));
                        let i = choose|i: int| 0 <= i < found.len() && found[i] == other;
                        if r != found {
                            assert(r[i] == found[i]);
                        }
                        assert(r.contains(other));
                    }
                } else {
                    if contains(files[k].1->0, rust_path + "::"@ + name + "::"@) {
                        assert(r == found.push(other));
                        assert(r[found.len() as int] == other);
                    }
                }
            }
        }
    }
}

proof fn lemma_component_of_file(f: Seq<char>, o: Seq<char>)
    ensures
        component_of_file(f) == Some(o) <==> f == o + ".rs"@,
{
    reveal_strlit(".rs");
    if component_of_file(f) == Some(o) {
        assert(f.subrange(f.len() - 3, f.len() as int) == ".rs"@);
        assert(f =~= o + ".rs"@);
    }
    if f == o + ".rs"@ {
        assert(f.subrange(f.len() - 3, f.len() as int) =~= ".rs"@);
        assert(f.take(f.len() - 3) =~= o);
    }
}

/// Removing `name` is held up by exactly the components whose files write
/// `<rust_path>::<name>::`: the name followed by the path separator, so that a file naming only
/// `<rust_path>::<name>_more::` or `<rust_path>::<name>more::` does not count. A component is the
/// name of its `.rs` file; the component itself and `mod` are never among them, nor is a file
/// that could not be read.
pub proof fn law_dependents_are_the_files_naming_the_component(
    files: Seq<(Seq<char>, Option<Seq<char>>)>,
    name: Seq<char>,
    rust_path: Seq<char>,
    other: Seq<char>,
)
    ensures
        sort_seq(dependents_in(files, name, rust_path)).contains(other) <==> exists|k: int|
            0 <= k < files.len() && #[trigger] files[k].0 == other + ".rs"@ && other != name
                && other != "mod"@ && files[k].1 is Some && contains(
                files[k].1->0,
                rust_path + "::"@ + name + "::"@,
            ),
{
    broadcast use vstd::seq_lib::group_to_multiset_ensures;
    let d = dependents_in(files, name, rust_path);
    lemma_sort_seq(d);
    lemma_dependents_in(files, name, rust_path, other);
    assert(sort_seq(d).contains(other) <==> sort_seq(d).to_multiset().count(other) > 0);
    assert(d.contains(other) <==> d.to_multiset().count(other) > 0);
    assert forall|k: int| 0 <= k < files.len() implies (component_of_file(files[k].0) == Some(other)
        <==> #[trigger] files[k].0 == other + ".rs"@) by {
        lemma_component_of_file(files[k].0, other);
    }
}

/// The views of a directory listing.
pub open spec fn listing_view(files: Seq<(String, Option<String>)>) -> Seq<
    (Seq<char>, Option<Seq<char>>),
> {
    Seq::new(
        files.len(),
        |i: int|
            (
                files[i].0@,
                match files[i].1 {
                    Some(t) => Some(t@),
                    None => None,
                },
            ),
    )
}

/// Which installed components are built on `name`, sorted: those that have to go before it can.
/// `files` is the install directory, each file's name with its text (`None` where unreadable).
pub fn dependents_among(files: &Vec<(String, Option<String>)>, name: &str, rust_path: &str) -> (r:
    Vec<String>)
    ensures
        views_of_strings(r@) == sort_seq(dependents_in(listing_view(files@), name@, rust_path@)),
        r@.len() == dependents_in(listing_view(files@), name@, rust_path@).len(),
{
    let name_c = chars_of(name);
    let mut needle = chars_of(rust_path);
    let sep = chars_of("::");
    push_all(&mut needle, &sep);
    push_all(&mut needle, &name_c);
    push_all(&mut needle, &sep);
    let rs = chars_of(".rs");
    let md = chars_of("mod");
    let mut found: Vec<Vec<char>> = Vec::new();
    let mut i: usize = 0;
    while i < files.len()
        invariant
            i <= files@.len(),
            name_c@ == name@,
            needle@ == dependency_needle(name@, rust_path@),
            rs@ == ".rs"@,
            md@ == "mod"@,
            views(found@) == dependents_in(listing_view(files@).take(i as int), name@, rust_path@),
        decreases files.len() - i,
    {
        assert(listing_view(files@).take(i + 1).drop_last() =~= listing_view(files@).take(
            i as int,
        ));
        let file = chars_of(files[i].0.as_str());
        if ends_with_exec(&file, &rs) {
            let other = slice_of(&file, 0, file.len() - rs.len());
            if !same(&other, &name_c) && !same(&other, &md) {
                let names_it = match &files[i].1 {
                    Some(text) => {
                        let t = chars_of(text.as_str());
                        contains_exec(&t, &needle)
                    },
                    None => false,
                };
                if names_it {
                    let ghost before = found@;
                    found.push(other);
                    assert(views(found@) =~= views(before).push(other@));
                }
            }
        }
        i += 1;
    }
    assert(listing_view(files@).take(files@.len() as int) =~= listing_view(files@));
    let sorted_found = sort_strings(found);
    proof {
        vstd::seq_lib::to_multiset_len(views(sorted_found@));
        vstd::seq_lib::to_multiset_len(views(found@));
    }
    let r = strings_of(&sorted_found);
    assert(views_of_strings(r@).len() == r@.len());
    r
}

} // verus!
