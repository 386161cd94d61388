//! Stable sorting of records under an arrangement.

use vstd::prelude::*;
use vstd::seq_lib::{to_multiset_insert, to_multiset_remove};

use crate::models::api::{Model, ModelView};
use crate::models::ui::{SortDirection, SortField};
use crate::order::Arrangement;

verus! {

/// No record stands before one that it may not precede.
pub open spec fn is_sorted(s: Seq<ModelView>, by: Arrangement) -> bool {
    forall|i: int, j: int| 0 <= i < j < s.len() ==> by.precedes(#[trigger] s[i], #[trigger] s[j])
}

/// The records whose keys are tied with that of `x`.
pub open spec fn tie_class(by: Arrangement, x: ModelView) -> spec_fn(ModelView) -> bool {
    |y: ModelView| by.tied(x, y)
}

/// The records of `s` that are tied with `x`, in the order in which they
/// stand in `s`.
pub open spec fn ties_of(s: Seq<ModelView>, by: Arrangement, x: ModelView) -> Seq<ModelView> {
    s.filter(tie_class(by, x))
}

/// `out` holds the records of `inp`, each as often as `inp` does, in an order
/// that the arrangement accepts, and records with tied keys stand in `out` in
/// the order in which they stand in `inp`.
pub open spec fn is_stable_sort_of(
    out: Seq<ModelView>,
    inp: Seq<ModelView>,
    by: Arrangement,
) -> bool {
    &&& out.to_multiset() == inp.to_multiset()
    &&& is_sorted(out, by)
    &&& forall|x: ModelView| #[trigger] ties_of(out, by, x) == ties_of(inp, by, x)
}

/// No two records at different positions have tied keys.
pub open spec fn has_no_ties(s: Seq<ModelView>, by: Arrangement) -> bool {
    forall|i: int, j: int| 0 <= i < j < s.len() ==> !by.tied(#[trigger] s[i], #[trigger] s[j])
}

/// Filtering a sequence none of whose elements passes leaves nothing.
proof fn lemma_filter_none(s: Seq<ModelView>, pred: spec_fn(ModelView) -> bool)
    requires
        forall|k: int| 0 <= k < s.len() ==> !pred(#[trigger] s[k]),
    ensures
        s.filter(pred) == Seq::<ModelView>::empty(),
{
    let f = s.filter(pred);
    if f.len() > 0 {
        s.lemma_filter_pred(pred, 0);
        assert(f.contains(f[0]));
        s.lemma_filter_contains_rev(pred, f[0]);
        let k = choose|k: int| 0 <= k < s.len() && s[k] == f[0];
        assert(!pred(s[k]));
    }
    assert(f =~= Seq::<ModelView>::empty());
}

/// Putting a record into a stable sort of the records that follow it in the
/// input, behind the records that are strictly smaller and before all others,
/// gives a stable sort of the input with that record in front.
proof fn lemma_insert_keeps_stable_sort(
    out: Seq<ModelView>,
    tail: Seq<ModelView>,
    x: ModelView,
    p: int,
    by: Arrangement,
)
    requires
        is_stable_sort_of(out, tail, by),
        0 <= p <= out.len(),
        forall|k: int| 0 <= k < p ==> !by.precedes(x, #[trigger] out[k]),
        p < out.len() ==> by.precedes(x, out[p]),
    ensures
        is_stable_sort_of(out.insert(p, x), seq![x] + tail, by),
{
    let next = out.insert(p, x);
    let inp = seq![x] + tail;
    out.insert_ensures(p, x);
    // The same records, as often.
    to_multiset_insert(out, p, x);
    assert(inp =~= tail.insert(0, x));
    to_multiset_insert(tail, 0, x);
    // In an accepted order.
    assert forall|i: int, j: int| 0 <= i < j < next.len() implies by.precedes(
        #[trigger] next[i],
        #[trigger] next[j],
    ) by {
        if j < p {
            assert(next[i] == out[i] && next[j] == out[j]);
        } else if j == p {
            assert(next[i] == out[i]);
            by.lemma_flip(x, out[i]);
        } else if i < p {
            assert(next[i] == out[i] && next[j] == out[j - 1]);
        } else if i == p {
            assert(next[j] == out[j - 1]);
            if j - 1 > p {
                by.lemma_transitive(x, out[p], out[j - 1]);
            }
        } else {
            assert(next[i] == out[i - 1] && next[j] == out[j - 1]);
        }
    }
    // With ties in the order of the input.
    let front = out.subrange(0, p);
    let back = out.subrange(p, out.len() as int);
    assert(out =~= front + back);
    assert(next =~= front + seq![x] + back);
    assert forall|c: ModelView| #[trigger] ties_of(next, by, c) == ties_of(inp, by, c) by {
        let cls = tie_class(by, c);
        Seq::filter_distributes_over_add(front, back, cls);
        Seq::filter_distributes_over_add(front, seq![x], cls);
        Seq::filter_distributes_over_add(front + seq![x], back, cls);
        Seq::filter_distributes_over_add(seq![x], tail, cls);
        assert(ties_of(out, by, c) == ties_of(tail, by, c));
        if by.tied(c, x) {
            assert forall|k: int| 0 <= k < front.len() implies !cls(#[trigger] front[k]) by {
                assert(front[k] == out[k]);
                if by.tied(c, out[k]) {
                    by.lemma_tied_is_equivalence(c, x, x);
                    by.lemma_tied_is_equivalence(x, c, out[k]);
                }
            }
            lemma_filter_none(front, cls);
            assert(front.filter(cls) + seq![x].filter(cls) =~= seq![x].filter(cls));
            assert(seq![x].filter(cls) + back.filter(cls) =~= seq![x].filter(cls) + (front.filter(
                cls,
            ) + back.filter(cls)));
        } else {
            assert forall|k: int| 0 <= k < seq![x].len() implies !cls(#[trigger] seq![x][k]) by {}
            lemma_filter_none(seq![x], cls);
            assert(front.filter(cls) + seq![x].filter(cls) =~= front.filter(cls));
            assert(seq![x].filter(cls) + tail.filter(cls) =~= tail.filter(cls));
        }
    }
}

/// Among records of which no two different ones are tied, an accepted order
/// of given records is unique.
pub proof fn lemma_sorted_is_unique(x: Seq<ModelView>, y: Seq<ModelView>, by: Arrangement)
    requires
        x.to_multiset() == y.to_multiset(),
        is_sorted(x, by),
        is_sorted(y, by),
        forall|i: int, j: int|
            0 <= i < x.len() && 0 <= j < x.len() && by.tied(#[trigger] x[i], #[trigger] x[j])
                ==> x[i] == x[j],
    ensures
        x == y,
    decreases x.len(),
{
    x.to_multiset_ensures();
    y.to_multiset_ensures();
    assert(x.len() == y.len());
    if x.len() == 0 {
        assert(x =~= y);
    } else {
        assert(y.contains(y[0]));
        assert(y.to_multiset().count(y[0]) > 0);
        assert(x.contains(y[0]));
        let i = choose|i: int| 0 <= i < x.len() && x[i] == y[0];
        assert(x.contains(x[0]));
        assert(x.to_multiset().count(x[0]) > 0);
        assert(y.contains(x[0]));
        let j = choose|j: int| 0 <= j < y.len() && y[j] == x[0];
        by.lemma_flip(x[0], x[0]);
        by.lemma_flip(y[0], y[0]);
        assert(by.precedes(x[0], x[i]));
        assert(by.precedes(y[0], y[j]));
        by.lemma_flip(x[0], y[0]);
        assert(by.tied(x[0], x[i]));
        assert(x[0] == y[0]);
        assert(x.drop_first() =~= x.remove(0));
        assert(y.drop_first() =~= y.remove(0));
        to_multiset_remove(x, 0);
        to_multiset_remove(y, 0);
        let xs = x.drop_first();
        let ys = y.drop_first();
        assert forall|a: int, b: int|
            0 <= a < xs.len() && 0 <= b < xs.len() && by.tied(
                #[trigger] xs[a],
                #[trigger] xs[b],
            ) implies xs[a] == xs[b] by {
            assert(xs[a] == x[a + 1] && xs[b] == x[b + 1]);
        }
        assert forall|a: int, b: int| 0 <= a < b < xs.len() implies by.precedes(
            #[trigger] xs[a],
            #[trigger] xs[b],
        ) by {
            assert(xs[a] == x[a + 1] && xs[b] == x[b + 1]);
        }
        assert forall|a: int, b: int| 0 <= a < b < ys.len() implies by.precedes(
            #[trigger] ys[a],
            #[trigger] ys[b],
        ) by {
            assert(ys[a] == y[a + 1] && ys[b] == y[b + 1]);
        }
        lemma_sorted_is_unique(xs, ys, by);
        assert(x =~= seq![x[0]] + xs);
        assert(y =~= seq![y[0]] + ys);
    }
}

/// The records tied with `c` in a sequence with `a` in front: `a` itself if
/// it is tied with `c`, and then those of the rest.
proof fn lemma_ties_of_prepend(a: ModelView, rest: Seq<ModelView>, by: Arrangement, c: ModelView)
    ensures
        ties_of(seq![a] + rest, by, c) == if by.tied(c, a) {
            seq![a] + ties_of(rest, by, c)
        } else {
            ties_of(rest, by, c)
        },
{
    let cls = tie_class(by, c);
    Seq::filter_distributes_over_add(seq![a], rest, cls);
    Seq::<ModelView>::empty().lemma_filter_push(a, cls);
    Seq::<ModelView>::empty().lemma_filter_len(cls);
    assert(Seq::<ModelView>::empty().push(a) =~= seq![a]);
    assert(Seq::<ModelView>::empty().filter(cls) =~= Seq::<ModelView>::empty());
    if by.tied(c, a) {
        assert(seq![a].filter(cls) =~= seq![a]);
    } else {
        assert(seq![a].filter(cls) + rest.filter(cls) =~= rest.filter(cls));
    }
}

/// Two accepted orders of the same records in which tied records stand in
/// the same order are the same sequence.
pub proof fn lemma_stable_order_is_unique(x: Seq<ModelView>, y: Seq<ModelView>, by: Arrangement)
    requires
        x.to_multiset() == y.to_multiset(),
        is_sorted(x, by),
        is_sorted(y, by),
        forall|c: ModelView| #[trigger] ties_of(x, by, c) == ties_of(y, by, c),
    ensures
        x == y,
    decreases x.len(),
{
    x.to_multiset_ensures();
    y.to_multiset_ensures();
    assert(x.len() == y.len());
    if x.len() == 0 {
        assert(x =~= y);
    } else {
        let xs = x.drop_first();
        let ys = y.drop_first();
        assert(x =~= seq![x[0]] + xs);
        assert(y =~= seq![y[0]] + ys);
        // The first records are tied with each other.
        assert(y.contains(y[0]));
        assert(y.to_multiset().count(y[0]) > 0);
        assert(x.contains(y[0]));
        let i = choose|i: int| 0 <= i < x.len() && x[i] == y[0];
        assert(x.contains(x[0]));
        assert(x.to_multiset().count(x[0]) > 0);
        assert(y.contains(x[0]));
        let j = choose|j: int| 0 <= j < y.len() && y[j] == x[0];
        by.lemma_flip(x[0], x[0]);
        by.lemma_flip(y[0], y[0]);
        assert(by.precedes(x[0], x[i]));
        assert(by.precedes(y[0], y[j]));
        by.lemma_flip(x[0], y[0]);
        assert(by.tied(x[0], y[0]));
        // So each is the first of the records tied with the first of `x`.
        lemma_ties_of_prepend(x[0], xs, by, x[0]);
        lemma_ties_of_prepend(y[0], ys, by, x[0]);
        assert(ties_of(x, by, x[0]) == ties_of(y, by, x[0]));
        assert(ties_of(x, by, x[0])[0] == x[0]);
        assert(ties_of(y, by, x[0])[0] == y[0]);
        assert(x[0] == y[0]);
        // The rest is again such a pair.
        assert(xs =~= x.remove(0));
        assert(ys =~= y.remove(0));
        to_multiset_remove(x, 0);
        to_multiset_remove(y, 0);
        assert forall|a: int, b: int| 0 <= a < b < xs.len() implies by.precedes(
            #[trigger] xs[a],
            #[trigger] xs[b],
        ) by {
            assert(xs[a] == x[a + 1] && xs[b] == x[b + 1]);
        }
        assert forall|a: int, b: int| 0 <= a < b < ys.len() implies by.precedes(
            #[trigger] ys[a],
            #[trigger] ys[b],
        ) by {
            assert(ys[a] == y[a + 1] && ys[b] == y[b + 1]);
        }
        assert forall|c: ModelView| #[trigger] ties_of(xs, by, c) == ties_of(ys, by, c) by {
            lemma_ties_of_prepend(x[0], xs, by, c);
            lemma_ties_of_prepend(y[0], ys, by, c);
            assert(ties_of(x, by, c) == ties_of(y, by, c));
            if by.tied(c, x[0]) {
                let tx = ties_of(xs, by, c);
                let ty = ties_of(ys, by, c);
                assert(tx =~= (seq![x[0]] + tx).drop_first());
                assert(ty =~= (seq![x[0]] + ty).drop_first());
            }
        }
        lemma_stable_order_is_unique(xs, ys, by);
    }
}

/// The stable sort of given records under an arrangement is unique.
pub proof fn lemma_stable_sort_is_unique(
    x: Seq<ModelView>,
    y: Seq<ModelView>,
    inp: Seq<ModelView>,
    by: Arrangement,
)
    requires
        is_stable_sort_of(x, inp, by),
        is_stable_sort_of(y, inp, by),
    ensures
        x == y,
{
    assert forall|c: ModelView| #[trigger] ties_of(x, by, c) == ties_of(y, by, c) by {
        assert(ties_of(x, by, c) == ties_of(inp, by, c));
        assert(ties_of(y, by, c) == ties_of(inp, by, c));
    }
    lemma_stable_order_is_unique(x, y, by);
}

/// Where no two records of the input have tied keys, sorting in descending
/// order gives the reverse of sorting in ascending order.
pub proof fn lemma_descending_reverses_ascending(
    inp: Seq<ModelView>,
    up: Seq<ModelView>,
    down: Seq<ModelView>,
    field: SortField,
)
    requires
        is_stable_sort_of(up, inp, Arrangement::By(field, SortDirection::Ascending)),
        is_stable_sort_of(down, inp, Arrangement::By(field, SortDirection::Descending)),
        has_no_ties(inp, Arrangement::By(field, SortDirection::Ascending)),
    ensures
        down == up.reverse(),
{
    inp.to_multiset_ensures();
    down.to_multiset_ensures();
    let asc = Arrangement::By(field, SortDirection::Ascending);
    let desc = Arrangement::By(field, SortDirection::Descending);
    let rev = up.reverse();
    up.lemma_reverse_to_multiset();
    assert forall|i: int, j: int| 0 <= i < j < rev.len() implies desc.precedes(
        #[trigger] rev[i],
        #[trigger] rev[j],
    ) by {
        let a = up.len() - 1 - j;
        let b = up.len() - 1 - i;
        assert(rev[i] == up[b] && rev[j] == up[a]);
        assert(asc.precedes(up[a], up[b]));
        Arrangement::lemma_descending_is_mirror(field, rev[i], rev[j]);
    }
    assert forall|i: int, j: int|
        0 <= i < down.len() && 0 <= j < down.len() && desc.tied(
            #[trigger] down[i],
            #[trigger] down[j],
        ) implies down[i] == down[j] by {
        assert(down.contains(down[i]));
        assert(down.contains(down[j]));
        assert(down.to_multiset().count(down[i]) > 0);
        assert(down.to_multiset().count(down[j]) > 0);
        assert(inp.contains(down[i]));
        assert(inp.contains(down[j]));
        let a = choose|a: int| 0 <= a < inp.len() && inp[a] == down[i];
        let b = choose|b: int| 0 <= b < inp.len() && inp[b] == down[j];
        Arrangement::lemma_ties_ignore_direction(field, inp[a], inp[b]);
        asc.lemma_tied_is_equivalence(inp[a], inp[b], inp[a]);
        if a < b {
            assert(!asc.tied(inp[a], inp[b]));
        } else if b < a {
            assert(!asc.tied(inp[b], inp[a]));
        }
    }
    lemma_sorted_is_unique(down, rev, desc);
}

/// Finds where `x` goes into the sorted records `out` so that it stands
/// behind the records that are strictly smaller and before all others.
fn insertion_point(out: &Vec<Model>, x: &Model, by: Arrangement) -> (p: usize)
    requires
        is_sorted(out.deep_view(), by),
    ensures
        p <= out@.len(),
        forall|k: int| 0 <= k < p ==> !by.precedes(x@, #[trigger] out.deep_view()[k]),
        p < out@.len() ==> by.precedes(x@, out.deep_view()[p as int]),
{
    let ghost placed = out.deep_view();
    let mut low: usize = 0;
    let mut high: usize = out.len();
    while low < high
        invariant
            placed == out.deep_view(),
            is_sorted(placed, by),
            low <= high <= out@.len(),
            forall|k: int| 0 <= k < low ==> !by.precedes(x@, #[trigger] placed[k]),
            high < out@.len() ==> by.precedes(x@, placed[high as int]),
        decreases high - low,
    {
        let middle = low + (high - low) / 2;
        if by.may_precede(x, &out[middle]) {
            high = middle;
        } else {
            proof {
                assert forall|k: int| 0 <= k < middle + 1 implies !by.precedes(
                    x@,
                    #[trigger] placed[k],
                ) by {
                    if k < middle && by.precedes(x@, placed[k]) {
                        by.lemma_transitive(x@, placed[k], placed[middle as int]);
                    }
                }
            }
            low = middle + 1;
        }
    }
    low
}

/// Sorts records under an arrangement. The sort is stable: records with tied
/// keys keep the order in which they came.
pub fn sort_records(items: Vec<Model>, by: Arrangement) -> (sorted: Vec<Model>)
    ensures
        is_stable_sort_of(sorted.deep_view(), items.deep_view(), by),
{
    let ghost input = items.deep_view();
    let mut rest = items;
    let mut out: Vec<Model> = Vec::new();
    proof {
        assert(input.skip(input.len() as int) =~= Seq::<ModelView>::empty());
        assert(out.deep_view() =~= Seq::<ModelView>::empty());
        assert(rest.deep_view() =~= input.take(rest@.len() as int));
    }
    while rest.len() > 0
        invariant
            rest@.len() <= input.len(),
            rest.deep_view() == input.take(rest@.len() as int),
            is_stable_sort_of(out.deep_view(), input.skip(rest@.len() as int), by),
        decreases rest@.len(),
    {
        let ghost before = rest.deep_view();
        let ghost placed = out.deep_view();
        let x = rest.pop().unwrap();
        let p = insertion_point(&out, &x, by);
        proof {
            let k = rest@.len() as int;
            assert(x@ == before[k]);
            assert(x@ == input[k]);
            assert(rest.deep_view() =~= input.take(k));
            lemma_insert_keeps_stable_sort(placed, input.skip(k + 1), x@, p as int, by);
            assert(seq![x@] + input.skip(k + 1) =~= input.skip(k));
        }
        let ghost xv = x@;
        out.insert(p, x);
        proof {
            assert(out.deep_view() =~= placed.insert(p as int, xv));
        }
    }
    proof {
        assert(input.skip(0) =~= input);
    }
    out
}

} // verus!
