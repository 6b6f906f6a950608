use vstd::prelude::*;

use crate::entry::{models, Entry, EntryModel};
use crate::filter::Filter;

verus! {

/// The filter's predicate as a function value, shared by every spec that
/// filters an entry sequence.
pub open spec fn accepts_fn(f: Filter) -> spec_fn(EntryModel) -> bool {
    |e: EntryModel| f.accepts(e)
}

/// The subsequence of `entries` that is visible under `f`, in backing order.
pub open spec fn visible_entries(entries: Seq<EntryModel>, f: Filter) -> Seq<EntryModel> {
    entries.filter(accepts_fn(f))
}

/// Backing position of the `i`-th entry visible under `f`.
pub open spec fn backing_index(entries: Seq<EntryModel>, f: Filter, i: int) -> int
    decreases entries.len(),
{
    if entries.len() == 0 {
        0
    } else if f.accepts(entries[0]) {
        if i <= 0 {
            0
        } else {
            1 + backing_index(entries.drop_first(), f, i - 1)
        }
    } else {
        1 + backing_index(entries.drop_first(), f, i)
    }
}

/// Filtering a one-element sequence keeps or drops that element.
proof fn lemma_filter_one(x: EntryModel, f: Filter)
    ensures
        seq![x].filter(accepts_fn(f)) == (if f.accepts(x) {
            seq![x]
        } else {
            Seq::<EntryModel>::empty()
        }),
{
    reveal_with_fuel(Seq::filter, 2);
    assert(seq![x].drop_last() =~= Seq::<EntryModel>::empty());
    assert(seq![x].last() == x);
    if f.accepts(x) {
        assert(Seq::<EntryModel>::empty().push(x) =~= seq![x]);
    }
}

/// Nothing is visible in an empty sequence.
proof fn lemma_visible_empty(f: Filter)
    ensures
        visible_entries(Seq::<EntryModel>::empty(), f) == Seq::<EntryModel>::empty(),
{
    reveal_with_fuel(Seq::filter, 1);
    assert(visible_entries(Seq::<EntryModel>::empty(), f) =~= Seq::<EntryModel>::empty());
}

/// The visible subsequence, read off from the front of the backing sequence.
proof fn lemma_visible_unfold_front(entries: Seq<EntryModel>, f: Filter)
    requires
        entries.len() > 0,
    ensures
        visible_entries(entries, f) == (if f.accepts(entries[0]) {
            seq![entries[0]]
        } else {
            Seq::<EntryModel>::empty()
        }) + visible_entries(entries.drop_first(), f),
{
    assert(entries =~= seq![entries[0]] + entries.drop_first());
    Seq::filter_distributes_over_add(seq![entries[0]], entries.drop_first(), accepts_fn(f));
    lemma_filter_one(entries[0], f);
    if !f.accepts(entries[0]) {
        assert(Seq::<EntryModel>::empty() + visible_entries(entries.drop_first(), f)
            =~= visible_entries(entries.drop_first(), f));
    }
}

/// Extending the scanned prefix by one entry extends its visible part by that
/// entry exactly when the filter accepts it.
pub proof fn lemma_visible_take_step(entries: Seq<EntryModel>, f: Filter, j: int)
    requires
        0 <= j < entries.len(),
    ensures
        visible_entries(entries.take(j + 1), f) == visible_entries(entries.take(j), f) + (
        if f.accepts(entries[j]) {
            seq![entries[j]]
        } else {
            Seq::<EntryModel>::empty()
        }),
{
    assert(entries.take(j + 1) =~= entries.take(j) + seq![entries[j]]);
    Seq::filter_distributes_over_add(entries.take(j), seq![entries[j]], accepts_fn(f));
    lemma_filter_one(entries[j], f);
}

/// What `backing_index` points at: a position inside the backing sequence,
/// holding exactly the `i`-th visible entry, with `i` visible entries in
/// front of it.
pub proof fn lemma_backing_index(entries: Seq<EntryModel>, f: Filter, i: int)
    requires
        0 <= i < visible_entries(entries, f).len(),
    ensures
        0 <= backing_index(entries, f, i) < entries.len(),
        f.accepts(entries[backing_index(entries, f, i)]),
        entries[backing_index(entries, f, i)] == visible_entries(entries, f)[i],
        visible_entries(entries.take(backing_index(entries, f, i)), f).len() == i,
    decreases entries.len(),
{
    if entries.len() == 0 {
        lemma_visible_empty(f);
    } else {
        lemma_visible_unfold_front(entries, f);
        let rest = entries.drop_first();
        let b = backing_index(entries, f, i);
        if f.accepts(entries[0]) {
            if i == 0 {
                assert(entries.take(0) =~= Seq::<EntryModel>::empty());
                lemma_visible_empty(f);
            } else {
                lemma_backing_index(rest, f, i - 1);
                let bb = backing_index(rest, f, i - 1);
                assert(entries[1 + bb] == rest[bb]);
                assert(entries.take(b) =~= seq![entries[0]] + rest.take(bb));
                Seq::filter_distributes_over_add(seq![entries[0]], rest.take(bb), accepts_fn(f));
                lemma_filter_one(entries[0], f);
            }
        } else {
            lemma_backing_index(rest, f, i);
            let bb = backing_index(rest, f, i);
            assert(entries[1 + bb] == rest[bb]);
            assert(entries.take(b) =~= seq![entries[0]] + rest.take(bb));
            Seq::filter_distributes_over_add(seq![entries[0]], rest.take(bb), accepts_fn(f));
            lemma_filter_one(entries[0], f);
        }
    }
}

/// A backing position that passes the filter is what `backing_index` returns
/// for the number of visible entries in front of it.
pub proof fn lemma_backing_index_of_position(entries: Seq<EntryModel>, f: Filter, j: int)
    requires
        0 <= j < entries.len(),
        f.accepts(entries[j]),
    ensures
        visible_entries(entries.take(j), f).len() < visible_entries(entries, f).len(),
        backing_index(entries, f, visible_entries(entries.take(j), f).len() as int) == j,
    decreases entries.len(),
{
    lemma_visible_unfold_front(entries, f);
    let rest = entries.drop_first();
    let i = visible_entries(entries.take(j), f).len() as int;
    if j == 0 {
        assert(entries.take(0) =~= Seq::<EntryModel>::empty());
        lemma_visible_empty(f);
    } else {
        lemma_backing_index_of_position(rest, f, j - 1);
        assert(entries.take(j) =~= seq![entries[0]] + rest.take(j - 1));
        assert(rest[j - 1] == entries[j]);
        Seq::filter_distributes_over_add(seq![entries[0]], rest.take(j - 1), accepts_fn(f));
        lemma_filter_one(entries[0], f);
    }
}

/// A sequence every entry of which the filter accepts is left whole by it.
pub proof fn lemma_visible_of_accepted(entries: Seq<EntryModel>, f: Filter)
    requires
        forall|k: int| 0 <= k < entries.len() ==> f.accepts(entries[k]),
    ensures
        visible_entries(entries, f) == entries,
    decreases entries.len(),
{
    if entries.len() == 0 {
        assert(entries =~= Seq::<EntryModel>::empty());
        lemma_visible_empty(f);
    } else {
        lemma_visible_unfold_front(entries, f);
        lemma_visible_of_accepted(entries.drop_first(), f);
        assert(seq![entries[0]] + entries.drop_first() =~= entries);
    }
}

/// Under `All` every entry is visible.
pub proof fn lemma_visible_all(entries: Seq<EntryModel>)
    ensures
        visible_entries(entries, Filter::All) == entries,
{
    lemma_visible_of_accepted(entries, Filter::All);
}

/// Under `All` the visible position is the backing position.
pub proof fn lemma_backing_index_all(entries: Seq<EntryModel>, i: int)
    requires
        0 <= i < entries.len(),
    ensures
        backing_index(entries, Filter::All, i) == i,
    decreases entries.len(),
{
    if i > 0 {
        lemma_backing_index_all(entries.drop_first(), i - 1);
    }
}

/// Translate `visible_idx`, a row position among the entries visible under
/// `filter`, back to that entry's position in the backing sequence.
pub fn resolve(entries: &Vec<Entry>, filter: Filter, visible_idx: usize) -> (r: usize)
    requires
        visible_idx < visible_entries(models(entries@), filter).len(),
    ensures
        r == backing_index(models(entries@), filter, visible_idx as int),
        r < entries@.len(),
{
    let ghost s = models(entries@);
    let mut j: usize = 0;
    let mut seen: usize = 0;
    while j < entries.len()
        invariant
            j <= entries.len(),
            seen <= visible_idx,
            visible_idx < visible_entries(s, filter).len(),
            s == models(entries@),
            seen == visible_entries(s.take(j as int), filter).len(),
        decreases entries.len() - j,
    {
        let is_visible = filter.fit(&entries[j]);
        proof {
            lemma_visible_take_step(s, filter, j as int);
        }
        if is_visible {
            if seen == visible_idx {
                proof {
                    lemma_backing_index_of_position(s, filter, j as int);
                }
                return j;
            }
            seen = seen + 1;
        }
        j = j + 1;
    }
    proof {
        assert(s.take(entries@.len() as int) =~= s);
        assert(false);
    }
    0
}

} // verus!
