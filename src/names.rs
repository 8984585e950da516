//! The name registry: a counter that proposes default names, and the set of
//! names held by live connections.

use vstd::prelude::*;
use crate::text::{decimal, push_decimal, lemma_decimal_injective, str_eq};

verus! {

/// Proposes default names: a fixed label followed by a counter.
pub struct GetName {
    pub name: String,
    pub digit: u32,
}

/// The name proposed for counter value `digit` under `label`.
pub open spec fn candidate(label: Seq<char>, digit: nat) -> Seq<char> {
    label + decimal(digit)
}

pub proof fn lemma_candidate_injective(label: Seq<char>, a: nat, b: nat)
    requires
        candidate(label, a) == candidate(label, b),
    ensures
        a == b,
{
    let n = label.len() as int;
    assert(decimal(a) =~= candidate(label, a).subrange(n, candidate(label, a).len() as int));
    assert(decimal(b) =~= candidate(label, b).subrange(n, candidate(label, b).len() as int));
    lemma_decimal_injective(a, b);
}

impl GetName {
    /// A counter at zero with the label `A`.
    pub fn new() -> (r: GetName)
        ensures
            r.name@ == "A"@,
            r.digit == 0,
    {
        GetName { name: "A".to_owned(), digit: 0 }
    }
}

/// Advances the counter and returns the label followed by its new value.
pub fn get_name(counter: &mut GetName) -> (r: String)
    requires
        old(counter).digit < u32::MAX,
    ensures
        final(counter).digit == old(counter).digit + 1,
        final(counter).name == old(counter).name,
        r@ == candidate(old(counter).name@, final(counter).digit as nat),
{
    counter.digit = counter.digit + 1;
    let mut r = counter.name.clone();
    push_decimal(&mut r, counter.digit as u64);
    r
}

/// The names currently held, each once. They are kept in a vector without
/// duplicates, so that membership is decided, and stated, by the names'
/// characters; std's `HashSet` gives a `String` key no such contract.
pub struct Names {
    names: Vec<String>,
}

/// `after` is `before` with `name` added, and `name` was not in `before`.
pub open spec fn assigned(before: Set<Seq<char>>, name: Seq<char>, after: Set<Seq<char>>) -> bool {
    !before.contains(name) && after == before.insert(name)
}

proof fn lemma_assigned_grows(states: Seq<Set<Seq<char>>>, results: Seq<Seq<char>>, i: int, j: int)
    requires
        states.len() == results.len() + 1,
        forall|k: int| 0 <= k < results.len() ==> #[trigger] assigned(states[k], results[k], states[k + 1]),
        0 <= i <= j < states.len(),
    ensures
        states[i].subset_of(states[j]),
    decreases j - i,
{
    if i < j {
        lemma_assigned_grows(states, results, i, j - 1);
        let k = j - 1;
        assert(assigned(states[k], results[k], states[k + 1]));
    }
}

/// Successive assignments on one registry, with no release between them,
/// never hand out the same name twice.
pub proof fn lemma_assigned_names_distinct(states: Seq<Set<Seq<char>>>, results: Seq<Seq<char>>)
    requires
        states.len() == results.len() + 1,
        forall|k: int| 0 <= k < results.len() ==> #[trigger] assigned(states[k], results[k], states[k + 1]),
    ensures
        forall|i: int, j: int| 0 <= i < results.len() && 0 <= j < results.len() && i != j
            ==> results[i] != results[j],
{
    assert forall|i: int, j: int| 0 <= i < results.len() && 0 <= j < results.len() && i != j
        implies results[i] != results[j] by {
        let (a, b) = if i < j { (i, j) } else { (j, i) };
        assert(assigned(states[a], results[a], states[a + 1]));
        assert(assigned(states[b], results[b], states[b + 1]));
        lemma_assigned_grows(states, results, a + 1, b);
        assert(states[a + 1].contains(results[a]));
    }
}

impl View for Names {
    type V = Set<Seq<char>>;

    closed spec fn view(&self) -> Set<Seq<char>> {
        self.held().to_set()
    }
}

impl Names {
    spec fn held(&self) -> Seq<Seq<char>> {
        self.names@.map_values(|s: String| s@)
    }

    pub closed spec fn wf(&self) -> bool {
        self.held().no_duplicates()
    }

    pub proof fn lemma_finite(&self)
        ensures
            self@.finite(),
    {
        vstd::seq_lib::seq_to_set_is_finite(self.held());
    }

    /// An empty registry.
    pub fn new() -> (r: Names)
        ensures
            r.wf(),
            r@ == Set::<Seq<char>>::empty(),
    {
        let r = Names { names: Vec::new() };
        assert(r@ =~= Set::<Seq<char>>::empty());
        r
    }

    fn position(&self, name: &str) -> (r: Option<usize>)
        ensures
            r matches Some(i) ==> i < self.names@.len() && self.held()[i as int] == name@,
            r is None ==> !self.held().contains(name@),
    {
        let mut i: usize = 0;
        while i < self.names.len()
            invariant
                i <= self.names@.len(),
                forall|k: int| 0 <= k < i ==> self.held()[k] != name@,
            decreases self.names@.len() - i,
        {
            if str_eq(self.names[i].as_str(), name) {
                return Some(i);
            }
            i = i + 1;
        }
        None
    }

    /// Whether `name` is held.
    pub fn contains(&self, name: &str) -> (r: bool)
        ensures
            r == self@.contains(name@),
    {
        self.position(name).is_some()
    }

    /// How many names are held.
    pub fn len(&self) -> (r: usize)
        requires
            self.wf(),
        ensures
            r == self@.len(),
    {
        proof {
            self.held().unique_seq_to_set();
        }
        self.names.len()
    }

    /// Adds `name` unless it is already held; returns whether it was added.
    pub fn insert(&mut self, name: String) -> (r: bool)
        requires
            old(self).wf(),
        ensures
            final(self).wf(),
            r == !old(self)@.contains(name@),
            final(self)@ == old(self)@.insert(name@),
    {
        if self.position(name.as_str()).is_some() {
            assert(old(self)@.insert(name@) =~= old(self)@);
            return false;
        }
        let ghost before = self.held();
        self.names.push(name);
        assert(self.held() =~= before.push(name@));
        proof {
            before.lemma_push_to_set_commute(name@);
        }
        assert(self@ =~= old(self)@.insert(name@));
        true
    }

    /// Removes `name` if it is held; returns whether it was.
    pub fn remove(&mut self, name: &str) -> (r: bool)
        requires
            old(self).wf(),
        ensures
            final(self).wf(),
            r == old(self)@.contains(name@),
            final(self)@ == old(self)@.remove(name@),
    {
        match self.position(name) {
            None => {
                assert(old(self)@.remove(name@) =~= old(self)@);
                false
            },
            Some(i) => {
                let ghost before = self.held();
                self.names.remove(i);
                assert(self.held() =~= before.remove(i as int));
                assert forall|s: Seq<char>| #[trigger] self@.contains(s) == old(self)@.remove(name@).contains(s) by {
                    if self@.contains(s) {
                        let k = choose|k: int| 0 <= k < self.held().len() && self.held()[k] == s;
                        if k < i {
                            assert(before[k] == s);
                        } else {
                            assert(before[k + 1] == s);
                        }
                    }
                    if old(self)@.remove(name@).contains(s) {
                        let k = choose|k: int| 0 <= k < before.len() && before[k] == s;
                        assert(k != i);
                        if k < i {
                            assert(self.held()[k] == s);
                        } else {
                            assert(self.held()[k - 1] == s);
                        }
                    }
                };
                assert(self@ =~= old(self)@.remove(name@));
                true
            },
        }
    }

    /// Draws names from `counter` until one is free, and holds it.
    pub fn get_unique(&mut self, counter: &mut GetName) -> (r: String)
        requires
            old(self).wf(),
            old(counter).digit + old(self)@.len() < u32::MAX,
        ensures
            final(self).wf(),
            assigned(old(self)@, r@, final(self)@),
            final(counter).name == old(counter).name,
            final(counter).digit > old(counter).digit,
            final(counter).digit <= old(counter).digit + old(self)@.len() + 1,
            r@ == candidate(old(counter).name@, final(counter).digit as nat),
            forall|k: nat| old(counter).digit < k < final(counter).digit
                ==> old(self)@.contains(#[trigger] candidate(old(counter).name@, k)),
    {
        let ghost start = counter.digit as nat;
        let ghost label = counter.name@;
        let ghost tried = Set::<Seq<char>>::empty();
        proof {
            self.lemma_finite();
        }
        loop
            invariant
                self.wf(),
                self@ == old(self)@,
                self@.finite(),
                counter.name == old(counter).name,
                label == counter.name@,
                start == old(counter).digit,
                start <= counter.digit,
                tried.subset_of(self@),
                tried.finite(),
                tried.len() == counter.digit - start,
                forall|s: Seq<char>| #[trigger] tried.contains(s)
                    ==> exists|k: nat| start < k <= counter.digit && s == candidate(label, k),
                start + old(self)@.len() < u32::MAX,
                forall|k: nat| start < k <= counter.digit ==> self@.contains(#[trigger] candidate(label, k)),
            decreases u32::MAX - counter.digit,
        {
            proof {
                vstd::set_lib::lemma_len_subset(tried, self@);
            }
            let name = get_name(counter);
            if self.insert(name.clone()) {
                proof {
                    assert forall|k: nat| start < k < counter.digit implies old(self)@.contains(
                        #[trigger] candidate(label, k)) by {};
                }
                return name;
            }
            proof {
                if tried.contains(name@) {
                    let k = choose|k: nat| start < k <= counter.digit - 1 && name@ == candidate(label, k);
                    lemma_candidate_injective(label, k, counter.digit as nat);
                }
                tried = tried.insert(name@);
            }
        }
    }
}

} // verus!
