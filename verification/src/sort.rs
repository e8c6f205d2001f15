//! Ordering siblings by aggregate size: ascending, and stable, so that
//! entries of equal size keep the order in which they were discovered.

use crate::entry::{lemma_total_push, total, views, Entry, EntryView};
use vstd::prelude::*;

verus! {

/// Sizes never go down along the sequence.
pub open spec fn ascending(entries: Seq<EntryView>) -> bool {
    forall|i: int, j: int|
        0 <= i <= j < entries.len() ==> entries[i].size() <= entries[j].size()
}

/// The entries of one size, in the order they have in the sequence.
pub open spec fn of_size(entries: Seq<EntryView>, size: nat) -> Seq<EntryView>
    decreases entries.len(),
{
    if entries.len() == 0 {
        entries
    } else {
        let before = of_size(entries.drop_last(), size);
        if entries.last().size() == size {
            before.push(entries.last())
        } else {
            before
        }
    }
}

/// `sorted` holds the entries of `entries` in ascending order of size, those
/// of each size in the order they had.
pub open spec fn is_stable_sort(sorted: Seq<EntryView>, entries: Seq<EntryView>) -> bool {
    &&& ascending(sorted)
    &&& forall|size: nat| #[trigger] of_size(sorted, size) == of_size(entries, size)
}

/// A sorted sequence with one more entry, put after every entry that is not larger.
pub open spec fn inserted(sorted: Seq<EntryView>, entry: EntryView) -> Seq<EntryView>
    decreases sorted.len(),
{
    if sorted.len() == 0 || sorted.last().size() <= entry.size() {
        sorted.push(entry)
    } else {
        inserted(sorted.drop_last(), entry).push(sorted.last())
    }
}

/// The entries in ascending order of size, entries of equal size in the order given.
pub open spec fn by_size(entries: Seq<EntryView>) -> Seq<EntryView>
    decreases entries.len(),
{
    if entries.len() == 0 {
        entries
    } else {
        inserted(by_size(entries.drop_last()), entries.last())
    }
}

/// Two sorted sequences made one: at each step from the end the larger last
/// entry is taken, and on a tie the one of `b`, so that `a`'s entries come first.
spec fn merged(a: Seq<EntryView>, b: Seq<EntryView>) -> Seq<EntryView>
    decreases a.len() + b.len(),
{
    if a.len() == 0 {
        b
    } else if b.len() == 0 {
        a
    } else if a.last().size() > b.last().size() {
        merged(a.drop_last(), b).push(a.last())
    } else {
        merged(a, b.drop_last()).push(b.last())
    }
}

proof fn lemma_of_size_concat(a: Seq<EntryView>, b: Seq<EntryView>, size: nat)
    ensures
        of_size(a + b, size) == of_size(a, size) + of_size(b, size),
    decreases b.len(),
{
    if b.len() == 0 {
        assert(a + b =~= a);
        assert(of_size(a, size) + of_size(b, size) =~= of_size(a, size));
    } else {
        lemma_of_size_concat(a, b.drop_last(), size);
        assert((a + b).drop_last() =~= a + b.drop_last());
        assert((a + b).last() == b.last());
        assert(of_size(a + b, size) =~= of_size(a, size) + of_size(b, size));
    }
}

proof fn lemma_of_size_absent(entries: Seq<EntryView>, size: nat)
    requires
        forall|i: int| 0 <= i < entries.len() ==> entries[i].size() != size,
    ensures
        of_size(entries, size).len() == 0,
    decreases entries.len(),
{
    if entries.len() > 0 {
        let before = entries.drop_last();
        assert forall|i: int| 0 <= i < before.len() implies before[i].size() != size by {
            assert(before[i] == entries[i]);
        }
        lemma_of_size_absent(before, size);
    }
}

proof fn lemma_inserted_members(sorted: Seq<EntryView>, entry: EntryView)
    ensures
        inserted(sorted, entry).len() == sorted.len() + 1,
        forall|i: int|
            0 <= i < inserted(sorted, entry).len() ==> #[trigger] inserted(sorted, entry)[i]
                == entry || sorted.contains(inserted(sorted, entry)[i]),
    decreases sorted.len(),
{
    let out = inserted(sorted, entry);
    if sorted.len() == 0 || sorted.last().size() <= entry.size() {
        assert forall|i: int| 0 <= i < out.len() implies #[trigger] out[i] == entry
            || sorted.contains(out[i]) by {
            if i < sorted.len() {
                assert(sorted[i] == out[i]);
            }
        }
    } else {
        let before = sorted.drop_last();
        lemma_inserted_members(before, entry);
        let inner = inserted(before, entry);
        assert forall|i: int| 0 <= i < out.len() implies #[trigger] out[i] == entry
            || sorted.contains(out[i]) by {
            if i < inner.len() {
                assert(out[i] == inner[i]);
                if inner[i] != entry {
                    let k = choose|k: int| 0 <= k < before.len() && before[k] == inner[i];
                    assert(sorted[k] == out[i]);
                }
            } else {
                assert(sorted[sorted.len() - 1] == out[i]);
            }
        }
    }
}

proof fn lemma_inserted_ascending(sorted: Seq<EntryView>, entry: EntryView)
    requires
        ascending(sorted),
    ensures
        ascending(inserted(sorted, entry)),
    decreases sorted.len(),
{
    let out = inserted(sorted, entry);
    if sorted.len() == 0 || sorted.last().size() <= entry.size() {
        assert forall|i: int, j: int| 0 <= i <= j < out.len() implies out[i].size()
            <= out[j].size() by {
            if j < sorted.len() {
                assert(out[i] == sorted[i] && out[j] == sorted[j]);
            } else if i < sorted.len() {
                assert(out[i] == sorted[i]);
                assert(sorted[i].size() <= sorted[sorted.len() - 1].size());
            }
        }
    } else {
        let before = sorted.drop_last();
        let last = sorted.last();
        assert(ascending(before)) by {
            assert forall|i: int, j: int| 0 <= i <= j < before.len() implies before[i].size()
                <= before[j].size() by {
                assert(before[i] == sorted[i] && before[j] == sorted[j]);
            }
        }
        lemma_inserted_ascending(before, entry);
        lemma_inserted_members(before, entry);
        let inner = inserted(before, entry);
        assert forall|i: int, j: int| 0 <= i <= j < out.len() implies out[i].size()
            <= out[j].size() by {
            if j < inner.len() {
                assert(out[i] == inner[i] && out[j] == inner[j]);
            } else if i < inner.len() {
                assert(out[i] == inner[i]);
                if inner[i] != entry {
                    let k = choose|k: int| 0 <= k < before.len() && before[k] == inner[i];
                    assert(before[k] == sorted[k]);
                    assert(sorted[k].size() <= sorted[sorted.len() - 1].size());
                }
            }
        }
    }
}

proof fn lemma_inserted_of_size(sorted: Seq<EntryView>, entry: EntryView, size: nat)
    ensures
        of_size(inserted(sorted, entry), size) == if entry.size() == size {
            of_size(sorted, size).push(entry)
        } else {
            of_size(sorted, size)
        },
    decreases sorted.len(),
{
    if sorted.len() == 0 || sorted.last().size() <= entry.size() {
        assert(sorted.push(entry).drop_last() =~= sorted);
    } else {
        let before = sorted.drop_last();
        lemma_inserted_of_size(before, entry, size);
        assert(inserted(before, entry).push(sorted.last()).drop_last() =~= inserted(
            before,
            entry,
        ));
    }
}

proof fn lemma_inserted_total(sorted: Seq<EntryView>, entry: EntryView)
    ensures
        total(inserted(sorted, entry)) == total(sorted) + entry.size(),
    decreases sorted.len(),
{
    if sorted.len() == 0 || sorted.last().size() <= entry.size() {
        lemma_total_push(sorted, entry);
    } else {
        let before = sorted.drop_last();
        lemma_inserted_total(before, entry);
        lemma_total_push(inserted(before, entry), sorted.last());
        lemma_total_push(before, sorted.last());
        assert(before.push(sorted.last()) =~= sorted);
    }
}

/// Sorting by size is a stable sort: the result ascends, and the entries of
/// each size keep their order. It keeps the number of entries and their total.
pub proof fn lemma_by_size(entries: Seq<EntryView>)
    ensures
        is_stable_sort(by_size(entries), entries),
        by_size(entries).len() == entries.len(),
        total(by_size(entries)) == total(entries),
    decreases entries.len(),
{
    if entries.len() > 0 {
        let before = entries.drop_last();
        let last = entries.last();
        lemma_by_size(before);
        lemma_inserted_members(by_size(before), last);
        lemma_inserted_ascending(by_size(before), last);
        lemma_inserted_total(by_size(before), last);
        lemma_total_push(before, last);
        assert(before.push(last) =~= entries);
        assert forall|size: nat| #[trigger]
            of_size(by_size(entries), size) == of_size(entries, size) by {
            lemma_inserted_of_size(by_size(before), last, size);
            assert(of_size(by_size(before), size) == of_size(before, size));
        }
    }
}

/// Sorting brings in no entry that was not there.
pub proof fn lemma_by_size_members(entries: Seq<EntryView>)
    ensures
        forall|i: int|
            0 <= i < by_size(entries).len() ==> entries.contains(#[trigger] by_size(entries)[i]),
    decreases entries.len(),
{
    let out = by_size(entries);
    if entries.len() > 0 {
        let before = entries.drop_last();
        let last = entries.last();
        lemma_by_size_members(before);
        lemma_inserted_members(by_size(before), last);
        assert forall|i: int| 0 <= i < out.len() implies entries.contains(#[trigger] out[i]) by {
            if out[i] == last {
                assert(entries[entries.len() - 1] == out[i]);
            } else {
                let j = choose|j: int| 0 <= j < by_size(before).len() && by_size(before)[j] == out[i];
                let k = choose|k: int| 0 <= k < before.len() && before[k] == by_size(before)[j];
                assert(entries[k] == out[i]);
            }
        }
    }
}

proof fn lemma_inserted_map(
    sorted: Seq<EntryView>,
    entry: EntryView,
    change: spec_fn(EntryView) -> EntryView,
)
    requires
        forall|e: EntryView| (#[trigger] change(e)).size() == e.size(),
    ensures
        inserted(sorted.map_values(change), change(entry)) == inserted(sorted, entry).map_values(
            change,
        ),
    decreases sorted.len(),
{
    let images = sorted.map_values(change);
    if sorted.len() == 0 || sorted.last().size() <= entry.size() {
        assert(images.push(change(entry)) =~= sorted.push(entry).map_values(change));
    } else {
        let before = sorted.drop_last();
        lemma_inserted_map(before, entry, change);
        assert(images.drop_last() =~= before.map_values(change));
        assert(inserted(before, entry).map_values(change).push(change(sorted.last()))
            =~= inserted(before, entry).push(sorted.last()).map_values(change));
    }
}

/// A change to the entries that keeps the size of each can be made before
/// sorting or after it: the outcome is the same.
pub proof fn lemma_by_size_map(entries: Seq<EntryView>, change: spec_fn(EntryView) -> EntryView)
    requires
        forall|e: EntryView| (#[trigger] change(e)).size() == e.size(),
    ensures
        by_size(entries.map_values(change)) == by_size(entries).map_values(change),
    decreases entries.len(),
{
    if entries.len() == 0 {
        assert(by_size(entries.map_values(change)) =~= by_size(entries).map_values(change));
    } else {
        let before = entries.drop_last();
        lemma_by_size_map(before, change);
        lemma_inserted_map(by_size(before), entries.last(), change);
        assert(entries.map_values(change).drop_last() =~= before.map_values(change));
    }
}

/// An ascending sequence is settled by the entries it has of each size: two
/// stable sorts of the same entries are the same sequence.
pub proof fn lemma_stable_sort_unique(a: Seq<EntryView>, b: Seq<EntryView>)
    requires
        ascending(a),
        ascending(b),
        forall|size: nat| #[trigger] of_size(a, size) == of_size(b, size),
    ensures
        a == b,
    decreases a.len(),
{
    if a.len() == 0 {
        if b.len() > 0 {
            let size = b.last().size();
            assert(of_size(a, size) == of_size(b, size));
            assert(of_size(b, size).len() > 0);
        }
        assert(a =~= b);
    } else {
        let x = a.last();
        let zx = x.size();
        assert(of_size(a, zx) == of_size(b, zx));
        assert(of_size(a, zx) == of_size(a.drop_last(), zx).push(x));
        assert(b.len() > 0);
        let y = b.last();
        let zy = y.size();
        assert(of_size(a, zy) == of_size(b, zy));
        assert(of_size(b, zy) == of_size(b.drop_last(), zy).push(y));
        if zx < zy {
            assert forall|i: int| 0 <= i < a.len() implies a[i].size() != zy by {
                assert(a[i].size() <= a[a.len() - 1].size());
            }
            lemma_of_size_absent(a, zy);
        }
        if zy < zx {
            assert forall|i: int| 0 <= i < b.len() implies b[i].size() != zx by {
                assert(b[i].size() <= b[b.len() - 1].size());
            }
            lemma_of_size_absent(b, zx);
        }
        assert(zx == zy);
        let sa = of_size(a.drop_last(), zx);
        let sb = of_size(b.drop_last(), zx);
        assert(sa.push(x) == sb.push(y));
        assert(x == y) by {
            assert(sa.push(x).last() == x);
            assert(sb.push(y).last() == y);
        }
        assert(sa == sb) by {
            assert(sa.push(x).drop_last() =~= sa);
            assert(sb.push(y).drop_last() =~= sb);
        }
        let ra = a.drop_last();
        let rb = b.drop_last();
        assert(ascending(ra)) by {
            assert forall|i: int, j: int| 0 <= i <= j < ra.len() implies ra[i].size()
                <= ra[j].size() by {
                assert(ra[i] == a[i] && ra[j] == a[j]);
            }
        }
        assert(ascending(rb)) by {
            assert forall|i: int, j: int| 0 <= i <= j < rb.len() implies rb[i].size()
                <= rb[j].size() by {
                assert(rb[i] == b[i] && rb[j] == b[j]);
            }
        }
        assert forall|size: nat| #[trigger] of_size(ra, size) == of_size(rb, size) by {
            assert(of_size(a, size) == of_size(b, size));
        }
        lemma_stable_sort_unique(ra, rb);
        assert(a =~= ra.push(x));
        assert(b =~= rb.push(y));
    }
}

proof fn lemma_merged_members(a: Seq<EntryView>, b: Seq<EntryView>)
    ensures
        merged(a, b).len() == a.len() + b.len(),
        forall|i: int|
            0 <= i < merged(a, b).len() ==> a.contains(#[trigger] merged(a, b)[i]) || b.contains(
                merged(a, b)[i],
            ),
    decreases a.len() + b.len(),
{
    let out = merged(a, b);
    if a.len() == 0 {
        assert forall|i: int| 0 <= i < out.len() implies a.contains(#[trigger] out[i])
            || b.contains(out[i]) by {
            assert(b[i] == out[i]);
        }
    } else if b.len() == 0 {
        assert forall|i: int| 0 <= i < out.len() implies a.contains(#[trigger] out[i])
            || b.contains(out[i]) by {
            assert(a[i] == out[i]);
        }
    } else if a.last().size() > b.last().size() {
        let before = a.drop_last();
        lemma_merged_members(before, b);
        let inner = merged(before, b);
        assert forall|i: int| 0 <= i < out.len() implies a.contains(#[trigger] out[i])
            || b.contains(out[i]) by {
            if i < inner.len() {
                assert(out[i] == inner[i]);
                if before.contains(inner[i]) {
                    let k = choose|k: int| 0 <= k < before.len() && before[k] == inner[i];
                    assert(a[k] == out[i]);
                }
            } else {
                assert(a[a.len() - 1] == out[i]);
            }
        }
    } else {
        let before = b.drop_last();
        lemma_merged_members(a, before);
        let inner = merged(a, before);
        assert forall|i: int| 0 <= i < out.len() implies a.contains(#[trigger] out[i])
            || b.contains(out[i]) by {
            if i < inner.len() {
                assert(out[i] == inner[i]);
                if !a.contains(inner[i]) {
                    let k = choose|k: int| 0 <= k < before.len() && before[k] == inner[i];
                    assert(b[k] == out[i]);
                }
            } else {
                assert(b[b.len() - 1] == out[i]);
            }
        }
    }
}

proof fn lemma_drop_last_ascending(entries: Seq<EntryView>)
    requires
        ascending(entries),
        entries.len() > 0,
    ensures
        ascending(entries.drop_last()),
        forall|i: int| 0 <= i < entries.len() ==> entries[i].size() <= entries.last().size(),
{
    let before = entries.drop_last();
    assert forall|i: int, j: int| 0 <= i <= j < before.len() implies before[i].size()
        <= before[j].size() by {
        assert(before[i] == entries[i] && before[j] == entries[j]);
    }
    assert forall|i: int| 0 <= i < entries.len() implies entries[i].size()
        <= entries.last().size() by {
        assert(entries[i].size() <= entries[entries.len() - 1].size());
    }
}

proof fn lemma_merged_ascending(a: Seq<EntryView>, b: Seq<EntryView>)
    requires
        ascending(a),
        ascending(b),
    ensures
        ascending(merged(a, b)),
    decreases a.len() + b.len(),
{
    let out = merged(a, b);
    if a.len() == 0 || b.len() == 0 {
    } else {
        lemma_drop_last_ascending(a);
        lemma_drop_last_ascending(b);
        let from_a = a.last().size() > b.last().size();
        let inner = if from_a {
            merged(a.drop_last(), b)
        } else {
            merged(a, b.drop_last())
        };
        let last = if from_a {
            a.last()
        } else {
            b.last()
        };
        if from_a {
            lemma_merged_ascending(a.drop_last(), b);
            lemma_merged_members(a.drop_last(), b);
        } else {
            lemma_merged_ascending(a, b.drop_last());
            lemma_merged_members(a, b.drop_last());
        }
        assert(out == inner.push(last));
        assert forall|i: int| 0 <= i < inner.len() implies inner[i].size() <= last.size() by {
            let x = inner[i];
            if from_a {
                if a.drop_last().contains(x) {
                    let k = choose|k: int| 0 <= k < a.drop_last().len() && a.drop_last()[k] == x;
                    assert(a[k] == x);
                } else {
                    let k = choose|k: int| 0 <= k < b.len() && b[k] == x;
                    assert(b[k].size() <= b.last().size());
                }
            } else {
                if a.contains(x) {
                    let k = choose|k: int| 0 <= k < a.len() && a[k] == x;
                    assert(a[k].size() <= a.last().size());
                } else {
                    let k = choose|k: int| 0 <= k < b.drop_last().len() && b.drop_last()[k] == x;
                    assert(b[k] == x);
                }
            }
        }
        assert forall|i: int, j: int| 0 <= i <= j < out.len() implies out[i].size()
            <= out[j].size() by {
            if j < inner.len() {
                assert(out[i] == inner[i] && out[j] == inner[j]);
            } else if i < inner.len() {
                assert(out[i] == inner[i]);
            }
        }
    }
}

proof fn lemma_merged_of_size(a: Seq<EntryView>, b: Seq<EntryView>, size: nat)
    requires
        ascending(a),
        ascending(b),
    ensures
        of_size(merged(a, b), size) == of_size(a, size) + of_size(b, size),
    decreases a.len() + b.len(),
{
    if a.len() == 0 {
        assert(of_size(a, size) + of_size(b, size) =~= of_size(b, size));
    } else if b.len() == 0 {
        assert(of_size(a, size) + of_size(b, size) =~= of_size(a, size));
    } else {
        lemma_drop_last_ascending(a);
        lemma_drop_last_ascending(b);
        if a.last().size() > b.last().size() {
            let before = a.drop_last();
            let inner = merged(before, b);
            lemma_merged_of_size(before, b, size);
            assert(inner.push(a.last()).drop_last() =~= inner);
            if a.last().size() == size {
                assert forall|i: int| 0 <= i < b.len() implies b[i].size() != size by {}
                lemma_of_size_absent(b, size);
                assert(of_size(merged(a, b), size) =~= of_size(a, size) + of_size(b, size));
            }
        } else {
            let before = b.drop_last();
            let inner = merged(a, before);
            lemma_merged_of_size(a, before, size);
            assert(inner.push(b.last()).drop_last() =~= inner);
            assert(of_size(merged(a, b), size) =~= of_size(a, size) + of_size(b, size));
        }
    }
}

/// Whether each entry is paired with its own aggregate size.
spec fn keyed(pairs: Seq<(u64, Entry)>) -> bool {
    forall|i: int| 0 <= i < pairs.len() ==> (#[trigger] pairs[i]).0 == pairs[i].1@.size()
}

/// The models of the entries of a sequence of pairs.
spec fn entries_of(pairs: Seq<(u64, Entry)>) -> Seq<EntryView> {
    Seq::new(pairs.len(), |i: int| pairs[i].1@)
}

proof fn lemma_reverse_push<T>(items: Seq<T>, last: T)
    ensures
        items.push(last).reverse() == seq![last] + items.reverse(),
{
    assert(items.push(last).reverse() =~= seq![last] + items.reverse());
}

/// The items in the opposite order.
pub fn reversed<T>(items: Vec<T>) -> (out: Vec<T>)
    ensures
        out@ == items@.reverse(),
{
    let mut rest = items;
    let mut out: Vec<T> = Vec::new();
    assert(out@ + rest@.reverse() =~= items@.reverse());
    while rest.len() > 0
        invariant
            out@ + rest@.reverse() == items@.reverse(),
        decreases rest.len(),
    {
        let ghost before = rest@;
        let ghost built = out@;
        match rest.pop() {
            Some(item) => {
                out.push(item);
                proof {
                    lemma_reverse_push(rest@, item);
                    assert(before =~= rest@.push(item));
                    assert(out@ + rest@.reverse() =~= built + before.reverse());
                }
            },
            None => {},
        }
    }
    assert(out@ + rest@.reverse() =~= out@);
    out
}

/// Pairs each entry with its aggregate size, keeping the order.
fn with_sizes(entries: Vec<Entry>) -> (pairs: Vec<(u64, Entry)>)
    ensures
        keyed(pairs@),
        entries_of(pairs@) == views(entries@),
{
    let mut rest = reversed(entries);
    let mut pairs: Vec<(u64, Entry)> = Vec::new();
    assert(rest@.reverse() =~= entries@);
    assert(entries_of(pairs@) + views(rest@.reverse()) =~= views(entries@));
    while rest.len() > 0
        invariant
            keyed(pairs@),
            entries_of(pairs@) + views(rest@.reverse()) == views(entries@),
        decreases rest.len(),
    {
        let ghost before = rest@;
        let ghost built = pairs@;
        match rest.pop() {
            Some(entry) => {
                let size = entry.size();
                pairs.push((size, entry));
                proof {
                    lemma_reverse_push(rest@, entry);
                    assert(before =~= rest@.push(entry));
                    assert(entries_of(pairs@) + views(rest@.reverse()) =~= entries_of(built)
                        + views(before.reverse()));
                }
            },
            None => {},
        }
    }
    assert(entries_of(pairs@) + views(rest@.reverse()) =~= entries_of(pairs@));
    pairs
}

/// Drops the sizes, keeping the order.
fn without_sizes(pairs: Vec<(u64, Entry)>) -> (entries: Vec<Entry>)
    ensures
        views(entries@) == entries_of(pairs@),
{
    let mut rest = reversed(pairs);
    let mut entries: Vec<Entry> = Vec::new();
    assert(rest@.reverse() =~= pairs@);
    assert(views(entries@) + entries_of(rest@.reverse()) =~= entries_of(pairs@));
    while rest.len() > 0
        invariant
            views(entries@) + entries_of(rest@.reverse()) == entries_of(pairs@),
        decreases rest.len(),
    {
        let ghost before = rest@;
        let ghost built = entries@;
        match rest.pop() {
            Some(pair) => {
                let (_, entry) = pair;
                entries.push(entry);
                proof {
                    lemma_reverse_push(rest@, pair);
                    assert(before =~= rest@.push(pair));
                    assert(views(entries@) + entries_of(rest@.reverse()) =~= views(built)
                        + entries_of(before.reverse()));
                }
            },
            None => {},
        }
    }
    assert(views(entries@) + entries_of(rest@.reverse()) =~= views(entries@));
    entries
}

/// Merges two sorted runs; on equal sizes the entries of `a` come first.
fn merge(a: Vec<(u64, Entry)>, b: Vec<(u64, Entry)>) -> (out: Vec<(u64, Entry)>)
    requires
        keyed(a@),
        keyed(b@),
    ensures
        keyed(out@),
        entries_of(out@) == merged(entries_of(a@), entries_of(b@)),
{
    let ghost goal = merged(entries_of(a@), entries_of(b@));
    let mut a = a;
    let mut b = b;
    let mut tail: Vec<(u64, Entry)> = Vec::new();
    assert(goal + entries_of(tail@).reverse() =~= goal);
    while a.len() > 0 && b.len() > 0
        invariant
            keyed(a@),
            keyed(b@),
            keyed(tail@),
            goal == merged(entries_of(a@), entries_of(b@)) + entries_of(tail@).reverse(),
        decreases a.len() + b.len(),
    {
        let ghost va = entries_of(a@);
        let ghost vb = entries_of(b@);
        let ghost vt = entries_of(tail@);
        let from_a: bool = a[a.len() - 1].0 > b[b.len() - 1].0;
        assert(from_a == (va.last().size() > vb.last().size()));
        if from_a {
            match a.pop() {
                Some(item) => {
                    tail.push(item);
                    proof {
                        lemma_reverse_push(vt, item.1@);
                        assert(entries_of(a@) =~= va.drop_last());
                        assert(entries_of(tail@) =~= vt.push(item.1@));
                        assert(merged(entries_of(a@), vb) + entries_of(tail@).reverse()
                            =~= merged(va, vb) + vt.reverse());
                    }
                },
                None => {},
            }
        } else {
            match b.pop() {
                Some(item) => {
                    tail.push(item);
                    proof {
                        lemma_reverse_push(vt, item.1@);
                        assert(entries_of(b@) =~= vb.drop_last());
                        assert(entries_of(tail@) =~= vt.push(item.1@));
                        assert(merged(va, entries_of(b@)) + entries_of(tail@).reverse()
                            =~= merged(va, vb) + vt.reverse());
                    }
                },
                None => {},
            }
        }
    }
    let mut out = if a.len() == 0 {
        b
    } else {
        a
    };
    while tail.len() > 0
        invariant
            keyed(out@),
            keyed(tail@),
            goal == entries_of(out@) + entries_of(tail@).reverse(),
        decreases tail.len(),
    {
        let ghost vo = entries_of(out@);
        let ghost vt = entries_of(tail@);
        match tail.pop() {
            Some(item) => {
                out.push(item);
                proof {
                    lemma_reverse_push(entries_of(tail@), item.1@);
                    assert(vt =~= entries_of(tail@).push(item.1@));
                    assert(entries_of(out@) =~= vo.push(item.1@));
                    assert(entries_of(out@) + entries_of(tail@).reverse() =~= vo + vt.reverse());
                }
            },
            None => {},
        }
    }
    assert(entries_of(out@) + entries_of(tail@).reverse() =~= entries_of(out@));
    out
}

/// Sorts the pairs by size, stably, by merging sorted halves.
fn merge_sort(pairs: Vec<(u64, Entry)>) -> (out: Vec<(u64, Entry)>)
    requires
        keyed(pairs@),
    ensures
        keyed(out@),
        is_stable_sort(entries_of(out@), entries_of(pairs@)),
    decreases pairs.len(),
{
    let ghost whole = entries_of(pairs@);
    if pairs.len() <= 1 {
        return pairs;
    }
    let mid: usize = pairs.len() / 2;
    let mut left = pairs;
    let right = left.split_off(mid);
    let ghost first = entries_of(left@);
    let ghost second = entries_of(right@);
    assert(whole =~= first + second);
    let left = merge_sort(left);
    let right = merge_sort(right);
    proof {
        let a = entries_of(left@);
        let b = entries_of(right@);
        lemma_merged_ascending(a, b);
        assert forall|size: nat| #[trigger]
            of_size(merged(a, b), size) == of_size(whole, size) by {
            lemma_merged_of_size(a, b, size);
            lemma_of_size_concat(first, second, size);
            assert(of_size(a, size) == of_size(first, size));
            assert(of_size(b, size) == of_size(second, size));
        }
    }
    merge(left, right)
}

/// Puts the entries in ascending order of aggregate size; entries of equal
/// size keep their order.
pub fn sort_by_size(entries: Vec<Entry>) -> (sorted: Vec<Entry>)
    ensures
        views(sorted@) == by_size(views(entries@)),
{
    let pairs = with_sizes(entries);
    let pairs = merge_sort(pairs);
    proof {
        lemma_by_size(views(entries@));
        lemma_stable_sort_unique(entries_of(pairs@), by_size(views(entries@)));
    }
    without_sizes(pairs)
}

} // verus!
