//! The room registry: one broadcast channel per room name, created on first
//! join and kept for the life of the process, and the room listing.

use vstd::prelude::*;
use vstd::multiset::Multiset;
use tokio::sync::broadcast::Sender;
use crate::text::{str_less, less_than, str_eq, lemma_str_less_transitive, lemma_str_less_total};

verus! {

/// tokio's broadcast sender, carried through as an opaque handle.
#[verifier::external_type_specification]
#[verifier::external_body]
#[verifier::reject_recursive_types(T)]
pub struct ExSender<T>(tokio::sync::broadcast::Sender<T>);

/// Relies on tokio's `Clone for broadcast::Sender`: the clone holds the same
/// shared channel as the handle it was cloned from.
pub assume_specification<T>[ <tokio::sync::broadcast::Sender<T> as Clone>::clone ](
    s: &tokio::sync::broadcast::Sender<T>,
) -> (r: tokio::sync::broadcast::Sender<T>)
    ensures
        r == *s,
;

/// The capacity each room's channel is requested with; tokio rounds the
/// buffer it allocates up to the next power of two.
pub const ROOM_CAPACITY: usize = 40;

/// The capacity a channel was made with.
pub uninterp spec fn channel_bound(tx: Sender<String>) -> usize;

/// Relies on tokio::sync::broadcast::channel: a new channel made with the
/// given capacity, which panics on zero or on more than half of
/// `usize::MAX`. The receiver it also makes is dropped at once.
#[verifier::external_body]
fn open_channel(capacity: usize) -> (r: Sender<String>)
    requires
        0 < capacity <= usize::MAX / 2,
    ensures
        channel_bound(r) == capacity,
{
    tokio::sync::broadcast::channel(capacity).0
}

/// Relies on broadcast::Sender::receiver_count: the number of live receivers
/// of the channel, which other connections change at any time.
#[verifier::external_body]
fn member_count(tx: &Sender<String>) -> usize {
    tx.receiver_count()
}

/// One room: the sending side of its channel.
pub struct Room {
    pub tx: Sender<String>,
}

impl Room {
    /// A room with a new channel that buffers `ROOM_CAPACITY` messages.
    pub fn new() -> (r: Room)
        ensures
            channel_bound(r.tx) == ROOM_CAPACITY,
    {
        Room { tx: open_channel(ROOM_CAPACITY) }
    }
}

/// `after` holds `before`'s rooms unchanged and a room `name`, the only one
/// it may add, and `tx` is that room's sender.
pub open spec fn joined(
    before: Map<Seq<char>, Sender<String>>,
    name: Seq<char>,
    tx: Sender<String>,
    after: Map<Seq<char>, Sender<String>>,
) -> bool {
    &&& after.dom() == before.dom().insert(name)
    &&& forall|k: Seq<char>| #[trigger] before.contains_key(k) ==> after[k] == before[k]
    &&& after[name] == tx
}

/// `a` is listed before `b`: more members, or as many and a smaller name.
pub open spec fn listed_before(a: (String, usize), b: (String, usize)) -> bool {
    a.1 > b.1 || (a.1 == b.1 && str_less(a.0@, b.0@))
}

/// No entry of `s` is listed before an entry that precedes it.
pub open spec fn in_listing_order(s: Seq<(String, usize)>) -> bool {
    forall|i: int, j: int| 0 <= i < j < s.len() ==> !listed_before(s[j], s[i])
}

/// `s` holds one entry for each room of `rooms`, under its name.
pub open spec fn one_entry_per_room(s: Seq<(String, usize)>, rooms: Map<Seq<char>, Sender<String>>) -> bool {
    &&& s.map_values(|e: (String, usize)| e.0@).no_duplicates()
    &&& forall|k: Seq<char>| rooms.contains_key(k)
        <==> exists|i: int| 0 <= i < s.len() && #[trigger] s[i].0@ == k
}

proof fn lemma_listed_before_transitive(a: (String, usize), b: (String, usize), c: (String, usize))
    requires
        listed_before(a, b),
        listed_before(b, c),
    ensures
        listed_before(a, c),
{
    if a.1 == b.1 && b.1 == c.1 {
        lemma_str_less_transitive(a.0@, b.0@, c.0@);
    }
}

fn is_listed_before(a: &(String, usize), b: &(String, usize)) -> (r: bool)
    ensures
        r == listed_before(*a, *b),
{
    a.1 > b.1 || (a.1 == b.1 && less_than(a.0.as_str(), b.0.as_str()))
}

/// Sorts room entries by descending member count, ties by ascending name.
pub fn order_rooms(list: Vec<(String, usize)>) -> (r: Vec<(String, usize)>)
    ensures
        r@.to_multiset() == list@.to_multiset(),
        in_listing_order(r@),
{
    broadcast use vstd::seq_lib::group_to_multiset_ensures;
    broadcast use vstd::multiset::group_multiset_axioms;

    let mut rest = list;
    let mut out: Vec<(String, usize)> = Vec::new();
    assert(out@.to_multiset() =~= Multiset::empty());
    assert(out@.to_multiset().add(rest@.to_multiset()) =~= list@.to_multiset());
    while rest.len() > 0
        invariant
            out@.to_multiset().add(rest@.to_multiset()) == list@.to_multiset(),
            in_listing_order(out@),
        decreases rest@.len(),
    {
        let ghost rest_before = rest@;
        let e = rest.pop().unwrap();
        proof {
            assert(rest_before =~= rest@.push(e));
            vstd::seq_lib::to_multiset_build(rest@, e);
        }
        let mut p: usize = 0;
        while p < out.len() && !is_listed_before(&e, &out[p])
            invariant
                p <= out@.len(),
                forall|k: int| 0 <= k < p ==> !listed_before(e, out@[k]),
            decreases out@.len() - p,
        {
            p = p + 1;
        }
        let ghost out_before = out@;
        assert(p < out_before.len() ==> listed_before(e, out_before[p as int]));
        out.insert(p, e);
        proof {
            vstd::seq_lib::to_multiset_insert(out_before, p as int, e);
            assert(out@.to_multiset() == out_before.to_multiset().insert(e));
            assert forall|i: int, j: int| 0 <= i < j < out@.len() implies !listed_before(out@[j], out@[i]) by {
                if j == p as int {
                    assert(out@[i] == out_before[i]);
                } else if i == p as int {
                    assert(out@[j] == out_before[j - 1]);
                    if listed_before(out@[j], e) {
                        lemma_listed_before_transitive(out@[j], e, out_before[p as int]);
                        crate::text::lemma_str_less_irreflexive(out_before[p as int].0@);
                    }
                } else {
                    let oi = if i < p { i } else { i - 1 };
                    let oj = if j < p { j } else { j - 1 };
                    assert(out@[i] == out_before[oi]);
                    assert(out@[j] == out_before[oj]);
                }
            };
        }
    }
    assert(rest@ =~= Seq::<(String, usize)>::empty());
    assert(rest@.to_multiset() =~= Multiset::empty());
    assert(out@.to_multiset().add(rest@.to_multiset()) =~= out@.to_multiset());
    out
}

/// Entries come in order of strictly fewer members, or as many and a
/// strictly greater name.
pub open spec fn in_strict_listing_order(s: Seq<(String, usize)>) -> bool {
    forall|i: int, j: int| #![trigger s[i], s[j]] 0 <= i < j < s.len()
        ==> s[i].1 > s[j].1 || (s[i].1 == s[j].1 && str_less(s[i].0@, s[j].0@))
}

/// A listing in order of a permutation of one entry per room holds one
/// entry per room, with names strictly ordered among equal counts.
proof fn lemma_reordered_listing(
    raw: Seq<(String, usize)>,
    r: Seq<(String, usize)>,
    rooms: Map<Seq<char>, Sender<String>>,
)
    requires
        one_entry_per_room(raw, rooms),
        r.to_multiset() == raw.to_multiset(),
        in_listing_order(r),
    ensures
        one_entry_per_room(r, rooms),
        in_strict_listing_order(r),
{
    broadcast use vstd::seq_lib::group_to_multiset_ensures;

    let names = raw.map_values(|e: (String, usize)| e.0@);
    assert forall|a: int, b: int| 0 <= a < raw.len() && 0 <= b < raw.len() && a != b implies raw[a] != raw[b] by {
        assert(names[a] == raw[a].0@);
        assert(names[b] == raw[b].0@);
    };
    assert(raw.no_duplicates());
    raw.lemma_multiset_has_no_duplicates();
    r.lemma_multiset_has_no_duplicates_conv();
    assert forall|i: int| #![trigger r[i]] 0 <= i < r.len() implies exists|a: int| 0 <= a < raw.len() && raw[a] == r[i] by {
        assert(r.to_multiset().count(r[i]) > 0);
        assert(raw.contains(r[i]));
    };
    assert forall|a: int| 0 <= a < raw.len() implies exists|i: int| 0 <= i < r.len() && r[i] == #[trigger] raw[a] by {
        assert(raw.to_multiset().count(raw[a]) > 0);
        assert(r.contains(raw[a]));
    };
    assert forall|i: int, j: int| 0 <= i < r.len() && 0 <= j < r.len() && i != j implies r[i].0@ != r[j].0@ by {
        let a = choose|a: int| 0 <= a < raw.len() && raw[a] == #[trigger] r[i];
        let b = choose|b: int| 0 <= b < raw.len() && raw[b] == #[trigger] r[j];
        assert(names[a] == raw[a].0@);
        assert(names[b] == raw[b].0@);
    };
    let rnames = r.map_values(|e: (String, usize)| e.0@);
    assert forall|i: int, j: int| 0 <= i < rnames.len() && 0 <= j < rnames.len() && i != j implies rnames[i] != rnames[j] by {
        assert(rnames[i] == r[i].0@);
        assert(rnames[j] == r[j].0@);
    };
    assert forall|k: Seq<char>| rooms.contains_key(k)
        <==> exists|i: int| 0 <= i < r.len() && #[trigger] r[i].0@ == k by {
        if rooms.contains_key(k) {
            let a = choose|a: int| 0 <= a < raw.len() && #[trigger] raw[a].0@ == k;
            let i = choose|i: int| 0 <= i < r.len() && r[i] == #[trigger] raw[a];
            assert(r[i].0@ == k);
        }
        if exists|i: int| 0 <= i < r.len() && #[trigger] r[i].0@ == k {
            let i = choose|i: int| 0 <= i < r.len() && #[trigger] r[i].0@ == k;
            let a = choose|a: int| 0 <= a < raw.len() && raw[a] == #[trigger] r[i];
            assert(raw[a].0@ == k);
        }
    };
    assert forall|i: int, j: int| #![trigger r[i], r[j]] 0 <= i < j < r.len() implies
        r[i].1 > r[j].1 || (r[i].1 == r[j].1 && str_less(r[i].0@, r[j].0@)) by {
        assert(!listed_before(r[j], r[i]));
        if r[i].1 == r[j].1 {
            assert(r[i].0@ != r[j].0@);
            lemma_str_less_total(r[i].0@, r[j].0@);
        }
    };
    assert(in_strict_listing_order(r));
}

/// The rooms by name, each name once, in order of creation. A vector keeps
/// the lookup by the name's characters stated; std's `HashMap` gives a
/// `String` key no such contract.
pub struct Rooms {
    entries: Vec<(String, Room)>,
}

impl Rooms {
    spec fn keys(&self) -> Seq<Seq<char>> {
        self.entries@.map_values(|e: (String, Room)| e.0@)
    }

    pub closed spec fn wf(&self) -> bool {
        &&& self.keys().no_duplicates()
        &&& forall|i: int| 0 <= i < self.entries@.len() ==> channel_bound(#[trigger] self.entries@[i].1.tx) == ROOM_CAPACITY
    }

    /// Every room's channel was made with `ROOM_CAPACITY`.
    pub proof fn lemma_bounded(&self, k: Seq<char>)
        requires
            self.wf(),
            self@.contains_key(k),
        ensures
            channel_bound(self@[k]) == ROOM_CAPACITY,
    {
        let i = self.index_of(k);
        self.lemma_index(i);
    }

    spec fn index_of(&self, k: Seq<char>) -> int {
        choose|i: int| 0 <= i < self.keys().len() && self.keys()[i] == k
    }
}

impl View for Rooms {
    type V = Map<Seq<char>, Sender<String>>;

    closed spec fn view(&self) -> Map<Seq<char>, Sender<String>> {
        Map::new(
            |k: Seq<char>| self.keys().contains(k),
            |k: Seq<char>| self.entries@[self.index_of(k)].1.tx,
        )
    }
}

impl Rooms {
    proof fn lemma_index(&self, i: int)
        requires
            self.wf(),
            0 <= i < self.entries@.len(),
        ensures
            self@.contains_key(self.keys()[i]),
            self.index_of(self.keys()[i]) == i,
            self@[self.keys()[i]] == self.entries@[i].1.tx,
    {
        let k = self.keys()[i];
        assert(self.keys().contains(k));
        let j = self.index_of(k);
        assert(self.keys()[j] == k);
    }

    /// No rooms.
    pub fn new() -> (r: Rooms)
        ensures
            r.wf(),
            r@ == Map::<Seq<char>, Sender<String>>::empty(),
    {
        let r = Rooms { entries: Vec::new() };
        assert(r@ =~= Map::<Seq<char>, Sender<String>>::empty());
        r
    }

    fn position(&self, name: &str) -> (r: Option<usize>)
        requires
            self.wf(),
        ensures
            r matches Some(i) ==> i < self.entries@.len() && self.keys()[i as int] == name@,
            r is None ==> !self@.contains_key(name@),
    {
        let mut i: usize = 0;
        while i < self.entries.len()
            invariant
                self.wf(),
                i <= self.entries@.len(),
                forall|k: int| 0 <= k < i ==> self.keys()[k] != name@,
            decreases self.entries@.len() - i,
        {
            if str_eq(self.entries[i].0.as_str(), name) {
                return Some(i);
            }
            i = i + 1;
        }
        None
    }

    /// The sender of room `name`, if the room exists.
    pub fn lookup(&self, name: &str) -> (r: Option<Sender<String>>)
        requires
            self.wf(),
        ensures
            r == (if self@.contains_key(name@) { Some(self@[name@]) } else { None::<Sender<String>> }),
            r matches Some(tx) ==> channel_bound(tx) == ROOM_CAPACITY,
    {
        match self.position(name) {
            Some(i) => {
                proof {
                    self.lemma_index(i as int);
                    self.lemma_bounded(name@);
                }
                Some(self.entries[i].1.tx.clone())
            },
            None => None,
        }
    }

    /// The sender of room `room_name`, creating the room if there is none.
    pub fn join_room(&mut self, room_name: &str) -> (r: Sender<String>)
        requires
            old(self).wf(),
        ensures
            final(self).wf(),
            joined(old(self)@, room_name@, r, final(self)@),
            channel_bound(r) == ROOM_CAPACITY,
    {
        match self.position(room_name) {
            Some(i) => {
                proof {
                    self.lemma_index(i as int);
                }
                assert(self@.dom() =~= self@.dom().insert(room_name@));
                self.entries[i].1.tx.clone()
            },
            None => {
                let ghost before = *self;
                let room = Room::new();
                let tx = room.tx.clone();
                self.entries.push((room_name.to_owned(), room));
                let ghost n = before.entries@.len() as int;
                assert(self.keys() =~= before.keys().push(room_name@));
                assert forall|k: Seq<char>| #[trigger] before@.contains_key(k) implies self@[k] == before@[k] by {
                    let i = before.index_of(k);
                    before.lemma_index(i);
                    assert(self.keys()[i] == k);
                    self.lemma_index(i);
                };
                proof {
                    self.lemma_index(n);
                }
                assert forall|k: Seq<char>| #[trigger] self@.dom().contains(k)
                    == before@.dom().insert(room_name@).contains(k) by {
                    vstd::seq_lib::lemma_seq_contains_after_push(before.keys(), room_name@, k);
                };
                assert(self@.dom() =~= before@.dom().insert(room_name@));
                tx
            },
        }
    }

    /// Each room with its current member count, most members first, ties
    /// by name. The counts are read from the live channels.
    pub fn list_rooms(&self) -> (r: Vec<(String, usize)>)
        requires
            self.wf(),
        ensures
            in_strict_listing_order(r@),
            one_entry_per_room(r@, self@),
    {
        let mut raw: Vec<(String, usize)> = Vec::new();
        let mut i: usize = 0;
        while i < self.entries.len()
            invariant
                i <= self.entries@.len(),
                raw@.len() == i,
                forall|k: int| 0 <= k < i ==> #[trigger] raw@[k].0@ == self.keys()[k],
            decreases self.entries@.len() - i,
        {
            let entry = &self.entries[i];
            raw.push((entry.0.clone(), member_count(&entry.1.tx)));
            i = i + 1;
        }
        assert(raw@.map_values(|e: (String, usize)| e.0@) =~= self.keys());
        assert forall|k: Seq<char>| self@.contains_key(k)
            <==> exists|j: int| 0 <= j < raw@.len() && #[trigger] raw@[j].0@ == k by {
            if self@.contains_key(k) {
                let j = choose|j: int| 0 <= j < self.keys().len() && self.keys()[j] == k;
                assert(raw@[j].0@ == k);
            }
            if exists|j: int| 0 <= j < raw@.len() && #[trigger] raw@[j].0@ == k {
                let j = choose|j: int| 0 <= j < raw@.len() && #[trigger] raw@[j].0@ == k;
                assert(self.keys()[j] == k);
            }
        };
        let ghost listing = raw@;
        let r = order_rooms(raw);
        proof {
            lemma_reordered_listing(listing, r@, self@);
        }
        r
    }
}

/// Joins in sequence on one registry hand out, for a given room name, one
/// and the same sender every time, so that every joiner of a room shares
/// its channel.
pub proof fn lemma_joins_share_sender(
    states: Seq<Map<Seq<char>, Sender<String>>>,
    names: Seq<Seq<char>>,
    senders: Seq<Sender<String>>,
)
    requires
        states.len() == names.len() + 1,
        senders.len() == names.len(),
        forall|k: int| 0 <= k < names.len() ==> #[trigger] joined(states[k], names[k], senders[k], states[k + 1]),
    ensures
        forall|i: int, j: int| 0 <= i < names.len() && 0 <= j < names.len() && names[i] == names[j]
            ==> senders[i] == senders[j],
{
    assert forall|i: int, j: int| 0 <= i < names.len() && 0 <= j < names.len() && names[i] == names[j]
        implies senders[i] == senders[j] by {
        let (a, b) = if i <= j { (i, j) } else { (j, i) };
        lemma_join_keeps(states, names, senders, a, b);
        assert(joined(states[a], names[a], senders[a], states[a + 1]));
        assert(joined(states[b], names[b], senders[b], states[b + 1]));
    }
}

proof fn lemma_join_keeps(
    states: Seq<Map<Seq<char>, Sender<String>>>,
    names: Seq<Seq<char>>,
    senders: Seq<Sender<String>>,
    a: int,
    b: int,
)
    requires
        states.len() == names.len() + 1,
        senders.len() == names.len(),
        forall|k: int| 0 <= k < names.len() ==> #[trigger] joined(states[k], names[k], senders[k], states[k + 1]),
        0 <= a < b + 1 <= states.len(),
        a < names.len(),
    ensures
        states[b].contains_key(names[a]) || b == a,
        b > a ==> states[b][names[a]] == senders[a],
    decreases b - a,
{
    if b > a {
        lemma_join_keeps(states, names, senders, a, b - 1);
        let k = b - 1;
        assert(joined(states[k], names[k], senders[k], states[k + 1]));
        assert(joined(states[a], names[a], senders[a], states[a + 1]));
    }
}

} // verus!
