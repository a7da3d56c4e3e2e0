//! What it is to merge: the relation between the entries of the sources and
//! the sequence that comes out, and what follows from it.

use vstd::prelude::*;
use crate::source::{ascending, EntryView};

verus! {

/// How many entries each source holds.
pub open spec fn lengths(sources: Seq<Seq<EntryView>>) -> Seq<int> {
    Seq::new(sources.len(), |i: int| sources[i].len() as int)
}

/// When `taken[i]` entries have been taken from each source `i`, source `j`
/// has an entry left, and no source's next entry has a smaller key than the
/// next entry of `j`.
pub open spec fn holds_least(sources: Seq<Seq<EntryView>>, taken: Seq<int>, j: int) -> bool {
    &&& 0 <= j < sources.len()
    &&& 0 <= taken[j] < sources[j].len()
    &&& forall|i: int|
        0 <= i < sources.len() && 0 <= taken[i] < sources[i].len() ==> sources[j][taken[j]].key
            <= (#[trigger] sources[i])[taken[i]].key
}

/// `out` is what a merge has emitted at the moment when it has taken the
/// first `taken[i]` entries of each source `i`: every entry of `out` was, when
/// it was emitted, the next entry of some source, and no source's next entry
/// had a smaller key. Which of several sources with the same smallest key
/// went first is left open.
pub open spec fn merged_to(sources: Seq<Seq<EntryView>>, taken: Seq<int>, out: Seq<EntryView>) -> bool
    decreases out.len(),
{
    &&& taken.len() == sources.len()
    &&& if out.len() == 0 {
        forall|i: int| 0 <= i < taken.len() ==> taken[i] == 0
    } else {
        exists|j: int|
            {
                &&& #[trigger] holds_least(sources, taken.update(j, taken[j] - 1), j)
                &&& out.last() == sources[j][taken[j] - 1]
                &&& merged_to(sources, taken.update(j, taken[j] - 1), out.drop_last())
            }
    }
}

/// `out` is a merge of the sources: all their entries, each taken when no
/// source held a smaller one.
pub open spec fn merged(sources: Seq<Seq<EntryView>>, out: Seq<EntryView>) -> bool {
    merged_to(sources, lengths(sources), out)
}

/// The sum of the first `n` numbers of a sequence.
pub open spec fn sum_to(counts: Seq<int>, n: int) -> int
    decreases n,
{
    if n <= 0 {
        0
    } else {
        sum_to(counts, n - 1) + counts[n - 1]
    }
}

/// The sum of a sequence of numbers.
pub open spec fn total(counts: Seq<int>) -> int {
    sum_to(counts, counts.len() as int)
}

/// How often `entry` occurs among the first `taken[i]` entries of the first
/// `n` sources `i`.
pub open spec fn occurrences(sources: Seq<Seq<EntryView>>, taken: Seq<int>, n: int, entry: EntryView) -> int
    decreases n,
{
    if n <= 0 {
        0
    } else {
        occurrences(sources, taken, n - 1, entry) + sources[n - 1].take(taken[n - 1]).to_multiset().count(
            entry,
        )
    }
}

/// The place that source `i` has once source `j` is left out.
pub open spec fn place_without(i: int, j: int) -> int {
    if i < j {
        i
    } else {
        i - 1
    }
}

/// How often `source` is among the first `n` of a sequence of picks.
pub open spec fn picked(picks: Seq<int>, source: int, n: int) -> int
    decreases n,
{
    if n <= 0 {
        0
    } else {
        picked(picks, source, n - 1) + if picks[n - 1] == source {
            1int
        } else {
            0int
        }
    }
}

/// `out` interleaves the sources as `picks` says: each entry of `out` comes
/// from the source that `picks` names for it, and is that source's next
/// entry after those that came from it before; and every source has given
/// all its entries.
pub open spec fn interleaved_by(sources: Seq<Seq<EntryView>>, out: Seq<EntryView>, picks: Seq<int>) -> bool {
    &&& picks.len() == out.len()
    &&& forall|k: int|
        0 <= k < out.len() ==> {
            &&& 0 <= #[trigger] picks[k] < sources.len()
            &&& 0 <= picked(picks, picks[k], k) < sources[picks[k]].len()
            &&& out[k] == sources[picks[k]][picked(picks, picks[k], k)]
        }
    &&& forall|i: int|
        0 <= i < sources.len() ==> #[trigger] picked(picks, i, picks.len() as int) == sources[i].len()
}

/// A merge emits every entry of every source exactly once: it is as long as
/// the sources together, and holds each entry as often as the sources do.
pub proof fn merge_keeps_every_entry(sources: Seq<Seq<EntryView>>, out: Seq<EntryView>, entry: EntryView)
    requires
        merged(sources, out),
    ensures
        out.len() == total(lengths(sources)),
        out.to_multiset().count(entry) == occurrences(
            sources,
            lengths(sources),
            sources.len() as int,
            entry,
        ),
{
    lemma_merged_to_counts(sources, lengths(sources), out, entry);
}

/// A merge is an interleaving of its sources: the entries of each source
/// come out in the order in which the source has them.
pub proof fn merge_is_an_interleaving(sources: Seq<Seq<EntryView>>, out: Seq<EntryView>)
    requires
        merged(sources, out),
    ensures
        exists|picks: Seq<int>| interleaved_by(sources, out, picks),
{
    let picks = lemma_merged_to_picks(sources, lengths(sources), out);
    assert(interleaved_by(sources, out, picks));
}

/// A merge of sources that are each in ascending order of key is in
/// ascending order of key.
pub proof fn merge_of_ascending_is_ascending(sources: Seq<Seq<EntryView>>, out: Seq<EntryView>)
    requires
        merged(sources, out),
        forall|i: int| 0 <= i < sources.len() ==> ascending(#[trigger] sources[i]),
    ensures
        ascending(out),
{
    lemma_merged_to_ascending(sources, lengths(sources), out);
}

/// A source without entries neither adds to a merge nor holds it up: the
/// merges of the sources are the merges of the sources without it.
pub proof fn empty_source_is_no_source(sources: Seq<Seq<EntryView>>, out: Seq<EntryView>, j: int)
    requires
        0 <= j < sources.len(),
        sources[j].len() == 0,
    ensures
        merged(sources, out) <==> merged(sources.remove(j), out),
{
    assert(lengths(sources).remove(j) == lengths(sources.remove(j)));
    if merged(sources, out) {
        lemma_leave_out_empty_source(sources, lengths(sources), out, j);
    }
    if merged(sources.remove(j), out) {
        lemma_put_in_empty_source(sources, lengths(sources), out, j);
    }
}

/// Where two sources in ascending order both hold the least key, a merge may
/// go on with either: both orders of their two entries are merges.
pub proof fn tie_goes_either_way(
    sources: Seq<Seq<EntryView>>,
    taken: Seq<int>,
    out: Seq<EntryView>,
    a: int,
    b: int,
)
    requires
        merged_to(sources, taken, out),
        a != b,
        holds_least(sources, taken, a),
        holds_least(sources, taken, b),
        ascending(sources[a]),
        ascending(sources[b]),
    ensures
        sources[a][taken[a]].key == sources[b][taken[b]].key,
        merged_to(
            sources,
            taken.update(a, taken[a] + 1).update(b, taken[b] + 1),
            out.push(sources[a][taken[a]]).push(sources[b][taken[b]]),
        ),
        merged_to(
            sources,
            taken.update(a, taken[a] + 1).update(b, taken[b] + 1),
            out.push(sources[b][taken[b]]).push(sources[a][taken[a]]),
        ),
{
    let first_a = taken.update(a, taken[a] + 1);
    let first_b = taken.update(b, taken[b] + 1);
    lemma_emit(sources, taken, out, a);
    lemma_emit(sources, taken, out, b);
    assert(holds_least(sources, first_a, b));
    assert(holds_least(sources, first_b, a));
    lemma_emit(sources, first_a, out.push(sources[a][taken[a]]), b);
    lemma_emit(sources, first_b, out.push(sources[b][taken[b]]), a);
    assert(first_b.update(a, first_b[a] + 1) == first_a.update(b, first_a[b] + 1));
}

/// One more step of a merge: emitting the next entry of a source that holds
/// the least.
pub proof fn lemma_emit(sources: Seq<Seq<EntryView>>, taken: Seq<int>, out: Seq<EntryView>, j: int)
    requires
        merged_to(sources, taken, out),
        holds_least(sources, taken, j),
    ensures
        merged_to(sources, taken.update(j, taken[j] + 1), out.push(sources[j][taken[j]])),
{
    let after = taken.update(j, taken[j] + 1);
    let longer = out.push(sources[j][taken[j]]);
    assert(after.update(j, after[j] - 1) == taken);
    assert(longer.drop_last() == out);
    assert(holds_least(sources, after.update(j, after[j] - 1), j));
}

/// Changing one number of a sequence changes its sums by as much.
pub proof fn lemma_sum_update(counts: Seq<int>, j: int, value: int, n: int)
    requires
        0 <= j < counts.len(),
        0 <= n <= counts.len(),
    ensures
        sum_to(counts.update(j, value), n) == sum_to(counts, n) + if j < n {
            value - counts[j]
        } else {
            0
        },
    decreases n,
{
    if n > 0 {
        lemma_sum_update(counts, j, value, n - 1);
    }
}

/// A sum of numbers that are not negative is not negative, and it is zero
/// only where they all are.
pub proof fn lemma_sum_bounds(counts: Seq<int>, n: int)
    requires
        0 <= n <= counts.len(),
        forall|i: int| 0 <= i < n ==> counts[i] >= 0,
    ensures
        sum_to(counts, n) >= 0,
        sum_to(counts, n) == 0 ==> forall|i: int| 0 <= i < n ==> counts[i] == 0,
    decreases n,
{
    if n > 0 {
        lemma_sum_bounds(counts, n - 1);
    }
}

/// Taking one more entry from source `j` adds one occurrence of that entry.
pub proof fn lemma_occurrences_step(
    sources: Seq<Seq<EntryView>>,
    taken: Seq<int>,
    j: int,
    n: int,
    entry: EntryView,
)
    requires
        taken.len() == sources.len(),
        0 <= j < sources.len(),
        0 <= taken[j] < sources[j].len(),
        0 <= n <= sources.len(),
    ensures
        occurrences(sources, taken.update(j, taken[j] + 1), n, entry) == occurrences(
            sources,
            taken,
            n,
            entry,
        ) + if j < n && sources[j][taken[j]] == entry {
            1int
        } else {
            0int
        },
    decreases n,
{
    broadcast use vstd::seq_lib::group_to_multiset_ensures;
    broadcast use vstd::multiset::group_multiset_axioms;

    if n > 0 {
        lemma_occurrences_step(sources, taken, j, n - 1, entry);
        if j == n - 1 {
            let source = sources[j];
            assert(source.take(taken[j] + 1) == source.take(taken[j]).push(source[taken[j]]));
        }
    }
}

/// While a merge runs, no source has given more entries than it holds.
pub proof fn lemma_merged_to_bounds(sources: Seq<Seq<EntryView>>, taken: Seq<int>, out: Seq<EntryView>)
    requires
        merged_to(sources, taken, out),
    ensures
        forall|i: int| 0 <= i < sources.len() ==> 0 <= #[trigger] taken[i] <= sources[i].len(),
    decreases out.len(),
{
    if out.len() > 0 {
        let j = choose|j: int|
            {
                &&& #[trigger] holds_least(sources, taken.update(j, taken[j] - 1), j)
                &&& out.last() == sources[j][taken[j] - 1]
                &&& merged_to(sources, taken.update(j, taken[j] - 1), out.drop_last())
            };
        let before = taken.update(j, taken[j] - 1);
        lemma_merged_to_bounds(sources, before, out.drop_last());
        assert forall|i: int| 0 <= i < sources.len() implies 0 <= #[trigger] taken[i]
            <= sources[i].len() by {
            assert(before[i] == if i == j {
                taken[j] - 1
            } else {
                taken[i]
            });
        }
    }
}

/// A merge has emitted as many entries as it has taken, and each entry as
/// often as it occurs among those taken: nothing is lost, repeated or made up.
pub proof fn lemma_merged_to_counts(
    sources: Seq<Seq<EntryView>>,
    taken: Seq<int>,
    out: Seq<EntryView>,
    entry: EntryView,
)
    requires
        merged_to(sources, taken, out),
    ensures
        out.len() == total(taken),
        out.to_multiset().count(entry) == occurrences(sources, taken, sources.len() as int, entry),
    decreases out.len(),
{
    broadcast use vstd::seq_lib::group_to_multiset_ensures;
    broadcast use vstd::multiset::group_multiset_axioms;

    let n = sources.len() as int;
    if out.len() == 0 {
        lemma_none_taken(sources, taken, n, entry);
    } else {
        let j = choose|j: int|
            {
                &&& #[trigger] holds_least(sources, taken.update(j, taken[j] - 1), j)
                &&& out.last() == sources[j][taken[j] - 1]
                &&& merged_to(sources, taken.update(j, taken[j] - 1), out.drop_last())
            };
        let before = taken.update(j, taken[j] - 1);
        lemma_merged_to_counts(sources, before, out.drop_last(), entry);
        assert(before.update(j, before[j] + 1) == taken);
        lemma_sum_update(before, j, before[j] + 1, n);
        lemma_occurrences_step(sources, before, j, n, entry);
        assert(out == out.drop_last().push(out.last()));
    }
}

/// Where nothing has been taken, nothing occurs.
pub proof fn lemma_none_taken(sources: Seq<Seq<EntryView>>, taken: Seq<int>, n: int, entry: EntryView)
    requires
        taken.len() == sources.len(),
        0 <= n <= sources.len(),
        forall|i: int| 0 <= i < taken.len() ==> taken[i] == 0,
    ensures
        sum_to(taken, n) == 0,
        occurrences(sources, taken, n, entry) == 0,
    decreases n,
{
    broadcast use vstd::seq_lib::group_to_multiset_ensures;
    broadcast use vstd::multiset::group_multiset_axioms;

    if n > 0 {
        lemma_none_taken(sources, taken, n - 1, entry);
        assert(sources[n - 1].take(0) == Seq::<EntryView>::empty());
        assert(sources[n - 1].take(0).to_multiset().len() == 0);
    }
}

/// Where every source is in ascending order, what a merge has emitted is in
/// ascending order, and its last entry is no larger than any entry that a
/// source still holds next.
pub proof fn lemma_merged_to_ascending(
    sources: Seq<Seq<EntryView>>,
    taken: Seq<int>,
    out: Seq<EntryView>,
)
    requires
        merged_to(sources, taken, out),
        forall|i: int| 0 <= i < sources.len() ==> ascending(#[trigger] sources[i]),
    ensures
        ascending(out),
        out.len() > 0 ==> forall|i: int|
            0 <= i < sources.len() && taken[i] < sources[i].len() ==> out.last().key <= (
            #[trigger] sources[i])[taken[i]].key,
    decreases out.len(),
{
    if out.len() > 0 {
        let j = choose|j: int|
            {
                &&& #[trigger] holds_least(sources, taken.update(j, taken[j] - 1), j)
                &&& out.last() == sources[j][taken[j] - 1]
                &&& merged_to(sources, taken.update(j, taken[j] - 1), out.drop_last())
            };
        let before = taken.update(j, taken[j] - 1);
        let early = out.drop_last();
        lemma_merged_to_ascending(sources, before, early);
        lemma_merged_to_bounds(sources, taken, out);
        assert(before[j] == taken[j] - 1);
        if early.len() > 0 {
            assert(early.last().key <= sources[j][before[j]].key);
        }
        assert forall|a: int, b: int| 0 <= a <= b < out.len() implies out[a].key
            <= out[b].key by {
            if b < early.len() {
                assert(early[a].key <= early[b].key);
            } else if a < early.len() {
                assert(early[a].key <= early[early.len() - 1].key);
            }
        }
        assert forall|i: int| 0 <= i < sources.len() && taken[i] < sources[i].len() implies out.last().key
            <= (#[trigger] sources[i])[taken[i]].key by {
            if i == j {
                assert(ascending(sources[j]));
            } else {
                assert(before[i] == taken[i]);
            }
        }
    }
}

/// Leaving out a source that has no entries changes nothing in which source
/// holds the least.
pub proof fn lemma_least_without_empty_source(
    sources: Seq<Seq<EntryView>>,
    taken: Seq<int>,
    j: int,
    k: int,
)
    requires
        0 <= j < sources.len(),
        sources[j].len() == 0,
        taken.len() == sources.len(),
        0 <= k < sources.len(),
        k != j,
    ensures
        holds_least(sources, taken, k) <==> holds_least(
            sources.remove(j),
            taken.remove(j),
            place_without(k, j),
        ),
{
    let fewer = sources.remove(j);
    let less = taken.remove(j);
    let m = place_without(k, j);
    assert(fewer[m] == sources[k]);
    assert(less[m] == taken[k]);
    if holds_least(sources, taken, k) {
        assert forall|i: int| 0 <= i < fewer.len() && 0 <= less[i] < fewer[i].len() implies fewer[m][less[m]].key
            <= (#[trigger] fewer[i])[less[i]].key by {
            let o = if i < j {
                i
            } else {
                i + 1
            };
            assert(fewer[i] == sources[o]);
            assert(less[i] == taken[o]);
        }
    }
    if holds_least(fewer, less, m) {
        assert forall|i: int| 0 <= i < sources.len() && 0 <= taken[i] < sources[i].len() implies sources[k][taken[k]].key
            <= (#[trigger] sources[i])[taken[i]].key by {
            let o = place_without(i, j);
            assert(i != j);
            assert(fewer[o] == sources[i]);
            assert(less[o] == taken[i]);
        }
    }
}

/// What a merge has emitted, it has emitted as well where a source that has
/// no entries is left out.
pub proof fn lemma_leave_out_empty_source(
    sources: Seq<Seq<EntryView>>,
    taken: Seq<int>,
    out: Seq<EntryView>,
    j: int,
)
    requires
        0 <= j < sources.len(),
        sources[j].len() == 0,
        merged_to(sources, taken, out),
    ensures
        taken[j] == 0,
        merged_to(sources.remove(j), taken.remove(j), out),
    decreases out.len(),
{
    let fewer = sources.remove(j);
    let less = taken.remove(j);
    lemma_merged_to_bounds(sources, taken, out);
    if out.len() == 0 {
        assert forall|i: int| 0 <= i < less.len() implies less[i] == 0 by {
            assert(less[i] == taken[if i < j {
                i
            } else {
                i + 1
            }]);
        }
    } else {
        let k = choose|k: int|
            {
                &&& #[trigger] holds_least(sources, taken.update(k, taken[k] - 1), k)
                &&& out.last() == sources[k][taken[k] - 1]
                &&& merged_to(sources, taken.update(k, taken[k] - 1), out.drop_last())
            };
        let before = taken.update(k, taken[k] - 1);
        let m = place_without(k, j);
        lemma_leave_out_empty_source(sources, before, out.drop_last(), j);
        lemma_least_without_empty_source(sources, before, j, k);
        assert(before.remove(j) == less.update(m, less[m] - 1));
        assert(fewer[m] == sources[k]);
        assert(holds_least(fewer, less.update(m, less[m] - 1), m));
    }
}

/// What a merge has emitted, it has emitted as well where a source that has
/// no entries is put in at `j`.
pub proof fn lemma_put_in_empty_source(
    sources: Seq<Seq<EntryView>>,
    taken: Seq<int>,
    out: Seq<EntryView>,
    j: int,
)
    requires
        0 <= j < sources.len(),
        sources[j].len() == 0,
        taken.len() == sources.len(),
        taken[j] == 0,
        merged_to(sources.remove(j), taken.remove(j), out),
    ensures
        merged_to(sources, taken, out),
    decreases out.len(),
{
    let fewer = sources.remove(j);
    let less = taken.remove(j);
    if out.len() == 0 {
        assert forall|i: int| 0 <= i < taken.len() implies taken[i] == 0 by {
            if i != j {
                assert(taken[i] == less[place_without(i, j)]);
            }
        }
    } else {
        let m = choose|m: int|
            {
                &&& #[trigger] holds_least(fewer, less.update(m, less[m] - 1), m)
                &&& out.last() == fewer[m][less[m] - 1]
                &&& merged_to(fewer, less.update(m, less[m] - 1), out.drop_last())
            };
        let k = if m < j {
            m
        } else {
            m + 1
        };
        let before = taken.update(k, taken[k] - 1);
        assert(before.remove(j) == less.update(m, less[m] - 1));
        assert(fewer[m] == sources[k]);
        lemma_put_in_empty_source(sources, before, out.drop_last(), j);
        lemma_least_without_empty_source(sources, before, j, k);
        assert(holds_least(sources, before, k));
    }
}

/// One more pick changes no count among the picks before it.
pub proof fn lemma_picked_push(picks: Seq<int>, last: int, source: int, n: int)
    requires
        0 <= n <= picks.len(),
    ensures
        picked(picks.push(last), source, n) == picked(picks, source, n),
    decreases n,
{
    if n > 0 {
        lemma_picked_push(picks, last, source, n - 1);
    }
}

/// The picks of a merge in course: which source gave each entry emitted.
pub proof fn lemma_merged_to_picks(
    sources: Seq<Seq<EntryView>>,
    taken: Seq<int>,
    out: Seq<EntryView>,
) -> (picks: Seq<int>)
    requires
        merged_to(sources, taken, out),
    ensures
        picks.len() == out.len(),
        forall|k: int|
            0 <= k < out.len() ==> {
                &&& 0 <= #[trigger] picks[k] < sources.len()
                &&& 0 <= picked(picks, picks[k], k) < sources[picks[k]].len()
                &&& out[k] == sources[picks[k]][picked(picks, picks[k], k)]
            },
        forall|i: int| 0 <= i < sources.len() ==> #[trigger] picked(picks, i, picks.len() as int) == taken[i],
    decreases out.len(),
{
    if out.len() == 0 {
        Seq::empty()
    } else {
        let j = choose|j: int|
            {
                &&& #[trigger] holds_least(sources, taken.update(j, taken[j] - 1), j)
                &&& out.last() == sources[j][taken[j] - 1]
                &&& merged_to(sources, taken.update(j, taken[j] - 1), out.drop_last())
            };
        let before = taken.update(j, taken[j] - 1);
        let earlier = lemma_merged_to_picks(sources, before, out.drop_last());
        let picks = earlier.push(j);
        assert(picked(earlier, j, earlier.len() as int) == before[j]);
        assert forall|k: int| 0 <= k < out.len() implies {
            &&& 0 <= #[trigger] picks[k] < sources.len()
            &&& 0 <= picked(picks, picks[k], k) < sources[picks[k]].len()
            &&& out[k] == sources[picks[k]][picked(picks, picks[k], k)]
        } by {
            lemma_picked_push(earlier, j, picks[k], k);
            if k < earlier.len() {
                assert(picks[k] == earlier[k]);
                assert(out[k] == out.drop_last()[k]);
            }
        }
        assert forall|i: int| 0 <= i < sources.len() implies #[trigger] picked(
            picks,
            i,
            picks.len() as int,
        ) == taken[i] by {
            lemma_picked_push(earlier, j, i, earlier.len() as int);
            assert(picked(earlier, i, earlier.len() as int) == before[i]);
        }
        picks
    }
}

} // verus!
