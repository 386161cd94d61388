//! Capability tags of a model and sets of them.

use vstd::prelude::*;
use vstd::relations::{sorted_by, total_ordering};
use vstd::seq_lib::{lemma_sorted_unique, to_multiset_insert};

verus! {

/// A kind of data that a model can consume or produce.
#[derive(Debug, Clone, Copy, PartialEq, Eq, Structural, PartialOrd, Ord, Hash)]
pub enum Modality {
    Text,
    Image,
    File,
    Audio,
    Embeddings,
    Video,
}

/// How many modalities there are.
pub const MODALITY_COUNT: u8 = 6;

impl Modality {
    /// The position of the modality in the canonical order.
    pub open spec fn rank(self) -> int {
        match self {
            Modality::Text => 0,
            Modality::Image => 1,
            Modality::File => 2,
            Modality::Audio => 3,
            Modality::Embeddings => 4,
            Modality::Video => 5,
        }
    }

    /// The position of the modality in the canonical order.
    pub fn ordinal(self) -> (r: u8)
        ensures
            r == self.rank(),
            r < MODALITY_COUNT,
    {
        match self {
            Modality::Text => 0,
            Modality::Image => 1,
            Modality::File => 2,
            Modality::Audio => 3,
            Modality::Embeddings => 4,
            Modality::Video => 5,
        }
    }

    /// The modality at a position of the canonical order.
    pub fn from_ordinal(r: u8) -> (m: Option<Modality>)
        ensures
            r < MODALITY_COUNT ==> m is Some && m->0.rank() == r,
            r >= MODALITY_COUNT ==> m is None,
    {
        if r == 0 {
            Some(Modality::Text)
        } else if r == 1 {
            Some(Modality::Image)
        } else if r == 2 {
            Some(Modality::File)
        } else if r == 3 {
            Some(Modality::Audio)
        } else if r == 4 {
            Some(Modality::Embeddings)
        } else if r == 5 {
            Some(Modality::Video)
        } else {
            None
        }
    }
}

/// The canonical order of modalities: by rank.
pub open spec fn rank_at_most() -> spec_fn(Modality, Modality) -> bool {
    |a: Modality, b: Modality| a.rank() <= b.rank()
}

/// The modalities of `s`, each as often as in `s`, in ascending order of rank.
pub open spec fn in_rank_order(s: Seq<Modality>) -> Seq<Modality> {
    s.sort_by(rank_at_most())
}

/// The canonical order is a total order: different modalities have different
/// ranks.
pub proof fn lemma_rank_is_total_order()
    ensures
        total_ordering(rank_at_most()),
{
    let r = rank_at_most();
    assert forall|x: Modality, y: Modality| #[trigger] r(x, y) && #[trigger] r(y, x) implies x
        == y by {}
    assert forall|x: Modality| #[trigger] r(x, x) by {}
    assert forall|x: Modality, y: Modality, z: Modality| #[trigger]
        r(x, y) && #[trigger] r(y, z) implies r(x, z) by {}
    assert forall|x: Modality, y: Modality| #[trigger] r(x, y) || #[trigger] r(y, x) by {}
}

/// What `in_rank_order` gives: the same modalities, as often, with no
/// modality before one of lower rank.
pub proof fn lemma_in_rank_order(s: Seq<Modality>)
    ensures
        in_rank_order(s).to_multiset() == s.to_multiset(),
        in_rank_order(s).len() == s.len(),
        forall|i: int, j: int|
            0 <= i < j < in_rank_order(s).len() ==> in_rank_order(s)[i].rank() <= in_rank_order(
                s,
            )[j].rank(),
{
    lemma_rank_is_total_order();
    s.lemma_sort_by_ensures(rank_at_most());
    s.to_multiset_ensures();
    in_rank_order(s).to_multiset_ensures();
    let r = rank_at_most();
    let t = in_rank_order(s);
    assert forall|i: int, j: int| 0 <= i < j < t.len() implies t[i].rank() <= t[j].rank() by {
        assert(r(t[i], t[j]));
    }
}

/// Sorts modalities into the canonical order.
pub fn sort_modalities(list: &Vec<Modality>) -> (sorted: Vec<Modality>)
    ensures
        sorted@ == in_rank_order(list@),
{
    let n = list.len();
    let mut out: Vec<Modality> = Vec::new();
    let mut i: usize = 0;
    proof {
        assert(list@.take(0) =~= out@);
    }
    while i < n
        invariant
            n == list@.len(),
            i <= n,
            out@.len() == i,
            out@.to_multiset() == list@.take(i as int).to_multiset(),
            forall|a: int, b: int| 0 <= a < b < out@.len() ==> out@[a].rank() <= out@[b].rank(),
        decreases n - i,
    {
        let x = list[i];
        let m = out.len();
        let mut p: usize = 0;
        while p < m
            invariant
                m == out@.len(),
                p <= m,
                forall|k: int| 0 <= k < p ==> out@[k].rank() <= x.rank(),
            ensures
                p <= m,
                forall|k: int| 0 <= k < p ==> out@[k].rank() <= x.rank(),
                p < m ==> out@[p as int].rank() > x.rank(),
            decreases m - p,
        {
            if out[p].ordinal() > x.ordinal() {
                break ;
            }
            p += 1;
        }
        proof {
            let before = out@;
            before.insert_ensures(p as int, x);
            to_multiset_insert(before, p as int, x);
            assert(list@.take(i + 1) =~= list@.take(i as int).push(x));
            vstd::seq_lib::to_multiset_build(list@.take(i as int), x);
            let next = before.insert(p as int, x);
            assert forall|a: int, b: int| 0 <= a < b < next.len() implies next[a].rank()
                <= next[b].rank() by {
                if b < p {
                    assert(next[a] == before[a] && next[b] == before[b]);
                } else if b == p {
                    assert(next[a] == before[a]);
                } else if a < p {
                    assert(next[a] == before[a] && next[b] == before[b - 1]);
                } else if a == p {
                    assert(next[b] == before[b - 1]);
                } else {
                    assert(next[a] == before[a - 1] && next[b] == before[b - 1]);
                }
            }
        }
        out.insert(p, x);
        i += 1;
    }
    proof {
        assert(list@.take(n as int) =~= list@);
        lemma_rank_is_total_order();
        list@.lemma_sort_by_ensures(rank_at_most());
        let r = rank_at_most();
        assert(sorted_by(out@, r)) by {
            assert forall|a: int, b: int| 0 <= a < b < out@.len() implies #[trigger] r(
                out@[a],
                out@[b],
            ) by {}
        }
        lemma_sorted_unique(out@, in_rank_order(list@), r);
    }
    out
}

/// A sequence with one more element holds what it held before and the new
/// element.
pub proof fn lemma_push_contains<T>(s: Seq<T>, last: T, x: T)
    ensures
        s.push(last).contains(x) <==> (s.contains(x) || x == last),
{
    if s.contains(x) {
        let k = choose|k: int| 0 <= k < s.len() && s[k] == x;
        assert(s.push(last)[k] == x);
    }
    if x == last {
        assert(s.push(last)[s.len() as int] == x);
    }
    if s.push(last).contains(x) {
        let k = choose|k: int| 0 <= k < s.push(last).len() && s.push(last)[k] == x;
        if k < s.len() {
            assert(s[k] == x);
        }
    }
}

/// What a model takes in and what it gives out.
#[derive(Debug)]
pub struct Architecture {
    pub input_modalities: Vec<Modality>,
    pub output_modalities: Vec<Modality>,
}

/// A set of modalities, such as the ones a user has selected in a filter.
#[derive(Debug)]
pub struct ModalitySet {
    items: Vec<Modality>,
}

impl View for ModalitySet {
    type V = Set<Modality>;

    closed spec fn view(&self) -> Set<Modality> {
        self.items@.to_set()
    }
}

impl ModalitySet {
    /// The empty set.
    pub fn new() -> (set: ModalitySet)
        ensures
            set@ == Set::<Modality>::empty(),
    {
        let set = ModalitySet { items: Vec::new() };
        assert(set.items@.to_set() =~= Set::<Modality>::empty());
        set
    }

    /// Whether the set holds nothing.
    pub fn is_empty(&self) -> (empty: bool)
        ensures
            empty == (self@ == Set::<Modality>::empty()),
    {
        let empty = self.items.len() == 0;
        proof {
            if empty {
                assert(self.items@.to_set() =~= Set::<Modality>::empty());
            } else {
                assert(self.items@.contains(self.items@[0]));
                assert(self.items@.to_set().contains(self.items@[0]));
            }
        }
        empty
    }

    /// The members of the set, each once or more, in no particular order.
    pub fn as_slice(&self) -> (members: &[Modality])
        ensures
            members@.to_set() == self@,
    {
        self.items.as_slice()
    }

    /// Whether `modality` is in the set.
    pub fn contains(&self, modality: &Modality) -> (found: bool)
        ensures
            found == self@.contains(*modality),
    {
        let n = self.items.len();
        let mut i: usize = 0;
        while i < n
            invariant
                n == self.items@.len(),
                i <= n,
                forall|k: int| 0 <= k < i ==> self.items@[k] != *modality,
            decreases n - i,
        {
            if self.items[i] == *modality {
                assert(self.items@.contains(*modality));
                return true;
            }
            i += 1;
        }
        false
    }

    /// Adds `modality` to the set. Returns whether it was new.
    pub fn insert(&mut self, modality: Modality) -> (added: bool)
        ensures
            final(self)@ == old(self)@.insert(modality),
            added == !old(self)@.contains(modality),
    {
        if self.contains(&modality) {
            assert(self@ =~= self@.insert(modality));
            false
        } else {
            let ghost before = self.items@;
            self.items.push(modality);
            proof {
                assert forall|m: Modality|
                    self.items@.to_set().contains(m) == before.to_set().insert(modality).contains(
                        m,
                    ) by {
                    if self.items@.contains(m) {
                        let k = choose|k: int| 0 <= k < self.items@.len() && self.items@[k] == m;
                        if k < before.len() {
                            assert(before[k] == m);
                        }
                    }
                    if before.contains(m) {
                        let k = choose|k: int| 0 <= k < before.len() && before[k] == m;
                        assert(self.items@[k] == m);
                    }
                    if m == modality {
                        assert(self.items@[before.len() as int] == m);
                    }
                }
                assert(self.items@.to_set() =~= before.to_set().insert(modality));
            }
            true
        }
    }

    /// Takes `modality` out of the set. Returns whether it was there.
    pub fn remove(&mut self, modality: &Modality) -> (removed: bool)
        ensures
            final(self)@ == old(self)@.remove(*modality),
            removed == old(self)@.contains(*modality),
    {
        let ghost before = self.items@;
        let mut kept: Vec<Modality> = Vec::new();
        let mut removed = false;
        let n = self.items.len();
        let mut i: usize = 0;
        while i < n
            invariant
                n == self.items@.len(),
                self.items@ == before,
                i <= n,
                forall|m: Modality|
                    #[trigger] kept@.contains(m) <==> (m != *modality && before.take(
                        i as int,
                    ).contains(m)),
                removed == before.take(i as int).contains(*modality),
            decreases n - i,
        {
            let m = self.items[i];
            let ghost kept_before = kept@;
            if m == *modality {
                removed = true;
            } else {
                kept.push(m);
            }
            proof {
                assert(before.take(i + 1) =~= before.take(i as int).push(m));
                assert forall|x: Modality| #[trigger]
                    kept@.contains(x) <==> (x != *modality && before.take(i + 1).contains(
                        x,
                    )) by {
                    lemma_push_contains(before.take(i as int), m, x);
                    if m != *modality {
                        lemma_push_contains(kept_before, m, x);
                    }
                    assert(kept_before.contains(x) <==> (x != *modality && before.take(
                        i as int,
                    ).contains(x)));
                }
                lemma_push_contains(before.take(i as int), m, *modality);
            }
            i += 1;
        }
        proof {
            assert(before.take(n as int) =~= before);
            assert(kept@.to_set() =~= before.to_set().remove(*modality));
        }
        self.items = kept;
        removed
    }

    /// Puts `modality` into the set if it is absent and takes it out if it is
    /// present.
    pub fn toggle(&mut self, modality: Modality)
        ensures
            old(self)@.contains(modality) ==> final(self)@ == old(self)@.remove(modality),
            !old(self)@.contains(modality) ==> final(self)@ == old(self)@.insert(modality),
    {
        if self.contains(&modality) {
            self.remove(&modality);
        } else {
            self.insert(modality);
        }
    }
}

} // verus!
