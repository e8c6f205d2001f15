//! The reporter: which entries of a tree are visited, in which order, and the
//! line that each of them gets.

use crate::entry::{
    lemma_dir_size, occurs, occurs_first, sizes, views, Entry, EntryKind, EntryView, KindView,
};
use crate::format::{format_line, line_text, UnitSystem};
use crate::options::Options;
use crate::sort::{
    ascending, by_size, lemma_by_size, lemma_by_size_map, lemma_by_size_members, reversed,
    sort_by_size,
};
use vstd::prelude::*;

verus! {

/// A visited entry with its depth below the root.
pub struct Row {
    pub depth: nat,
    pub entry: EntryView,
}

/// The children of a visited directory in the order they are kept in.
pub open spec fn ordered(children: Seq<EntryView>, sort: bool) -> Seq<EntryView> {
    if sort {
        by_size(children)
    } else {
        children
    }
}

/// The tree as rendering leaves it. An entry beyond the depth limit and a
/// hidden entry are not visited and stay as they are. The children of a
/// visited directory are arranged in turn, one level deeper, and, where
/// sorting is on, put in ascending order of size. Arranging keeps sizes, so
/// it makes no difference whether the children are put in order before or
/// after they are arranged (`lemma_sort_before_descent`).
pub open spec fn arranged(entry: EntryView, depth: nat, max_depth: nat, sort: bool) -> EntryView
    decreases entry, 0nat,
{
    if depth > max_depth || entry.hidden {
        entry
    } else {
        match entry.kind {
            KindView::File(_) => entry,
            KindView::Dir(children) => EntryView {
                path: entry.path,
                hidden: entry.hidden,
                kind: KindView::Dir(
                    ordered(
                        arranged_first(children, children.len(), depth + 1, max_depth, sort),
                        sort,
                    ),
                ),
            },
        }
    }
}

/// The first `n` entries, each arranged at `depth`.
pub open spec fn arranged_first(
    entries: Seq<EntryView>,
    n: nat,
    depth: nat,
    max_depth: nat,
    sort: bool,
) -> Seq<EntryView>
    decreases entries, n,
{
    if n == 0 || n > entries.len() {
        Seq::empty()
    } else {
        arranged_first(entries, (n - 1) as nat, depth, max_depth, sort).push(
            arranged(entries[n - 1], depth, max_depth, sort),
        )
    }
}

/// The entries that a report visits, each with its depth, in the order of
/// their lines: nothing for an entry beyond the depth limit or a hidden one;
/// else the rows of its children in their order, one level deeper, and then
/// the entry itself.
pub open spec fn visited(entry: EntryView, depth: nat, max_depth: nat) -> Seq<Row>
    decreases entry, 0nat,
{
    if depth > max_depth || entry.hidden {
        Seq::empty()
    } else {
        match entry.kind {
            KindView::File(_) => seq![Row { depth, entry }],
            KindView::Dir(children) => visited_first(
                children,
                children.len(),
                depth + 1,
                max_depth,
            ).push(Row { depth, entry }),
        }
    }
}

/// The rows of the first `n` entries, all at `depth`, one entry after the other.
pub open spec fn visited_first(entries: Seq<EntryView>, n: nat, depth: nat, max_depth: nat) -> Seq<
    Row,
>
    decreases entries, n,
{
    if n == 0 || n > entries.len() {
        Seq::empty()
    } else {
        visited_first(entries, (n - 1) as nat, depth, max_depth) + visited(
            entries[n - 1],
            depth,
            max_depth,
        )
    }
}

/// The line of a row.
pub open spec fn row_text(row: Row, raw_bytes: bool, units: UnitSystem) -> Seq<char> {
    line_text(row.entry.size() as u64, row.entry.path, raw_bytes, units)
}

/// The lines of a sequence of rows.
pub open spec fn lines_of(rows: Seq<Row>, raw_bytes: bool, units: UnitSystem) -> Seq<Seq<char>> {
    Seq::new(rows.len(), |i: int| row_text(rows[i], raw_bytes, units))
}

/// The contents of a sequence of strings.
pub open spec fn texts(lines: Seq<String>) -> Seq<Seq<char>> {
    Seq::new(lines.len(), |i: int| lines[i]@)
}

/// Whether every directory among the rows has its children in ascending order of size.
pub open spec fn siblings_ascend(rows: Seq<Row>) -> bool {
    forall|i: int| 0 <= i < rows.len() ==> ascending((#[trigger] rows[i]).entry.children())
}

proof fn lemma_arranged_first(
    entries: Seq<EntryView>,
    n: nat,
    depth: nat,
    max_depth: nat,
    sort: bool,
)
    requires
        n <= entries.len(),
    ensures
        arranged_first(entries, n, depth, max_depth, sort).len() == n,
        forall|i: int|
            0 <= i < n ==> #[trigger] arranged_first(entries, n, depth, max_depth, sort)[i]
                == arranged(entries[i], depth, max_depth, sort),
    decreases n,
{
    if n > 0 {
        lemma_arranged_first(entries, (n - 1) as nat, depth, max_depth, sort);
    }
}

/// Arranging changes the order of children and nothing else: an entry keeps
/// its path, its hidden flag, what it is, and its aggregate size.
pub proof fn lemma_arranged_keeps(entry: EntryView, depth: nat, max_depth: nat, sort: bool)
    ensures
        arranged(entry, depth, max_depth, sort).path == entry.path,
        arranged(entry, depth, max_depth, sort).hidden == entry.hidden,
        arranged(entry, depth, max_depth, sort).kind is Dir == entry.kind is Dir,
        arranged(entry, depth, max_depth, sort).children().len() == entry.children().len(),
        arranged(entry, depth, max_depth, sort).size() == entry.size(),
    decreases entry,
{
    if depth > max_depth || entry.hidden {
    } else {
        match entry.kind {
            KindView::File(_) => {},
            KindView::Dir(children) => {
                let each = arranged_first(children, children.len(), depth + 1, max_depth, sort);
                lemma_arranged_first(children, children.len(), depth + 1, max_depth, sort);
                assert forall|i: int| 0 <= i < children.len() implies each[i].size()
                    == children[i].size() by {
                    lemma_arranged_keeps(children[i], depth + 1, max_depth, sort);
                }
                assert(sizes(each) =~= sizes(children));
                lemma_by_size(each);
                lemma_dir_size(entry);
                lemma_dir_size(arranged(entry, depth, max_depth, sort));
            },
        }
    }
}

/// Without sorting, rendering leaves the tree as it was: every directory
/// keeps its children in the order in which they were listed.
pub proof fn lemma_unsorted_unchanged(entry: EntryView, depth: nat, max_depth: nat)
    ensures
        arranged(entry, depth, max_depth, false) == entry,
    decreases entry,
{
    if depth > max_depth || entry.hidden {
    } else {
        match entry.kind {
            KindView::File(_) => {},
            KindView::Dir(children) => {
                let each = arranged_first(children, children.len(), depth + 1, max_depth, false);
                lemma_arranged_first(children, children.len(), depth + 1, max_depth, false);
                assert forall|i: int| 0 <= i < children.len() implies each[i] == children[i] by {
                    lemma_unsorted_unchanged(children[i], depth + 1, max_depth);
                }
                assert(each =~= children);
            },
        }
    }
}

/// Putting the children of a directory in order first and arranging them
/// then gives what arranging them first and ordering them then gives.
pub proof fn lemma_sort_before_descent(children: Seq<EntryView>, depth: nat, max_depth: nat)
    ensures
        by_size(children).len() == children.len(),
        by_size(arranged_first(children, children.len(), depth, max_depth, true))
            == arranged_first(by_size(children), children.len(), depth, max_depth, true),
{
    let change = |e: EntryView| arranged(e, depth, max_depth, true);
    assert forall|e: EntryView| (#[trigger] change(e)).size() == e.size() by {
        lemma_arranged_keeps(e, depth, max_depth, true);
    }
    lemma_by_size(children);
    lemma_by_size_map(children, change);
    lemma_arranged_first(children, children.len(), depth, max_depth, true);
    lemma_arranged_first(by_size(children), children.len(), depth, max_depth, true);
    assert(arranged_first(children, children.len(), depth, max_depth, true)
        =~= children.map_values(change));
    assert(arranged_first(by_size(children), children.len(), depth, max_depth, true)
        =~= by_size(children).map_values(change));
}

proof fn lemma_visited_rows(entry: EntryView, depth: nat, max_depth: nat)
    ensures
        forall|i: int|
            0 <= i < visited(entry, depth, max_depth).len() ==> {
                let row = #[trigger] visited(entry, depth, max_depth)[i];
                depth <= row.depth <= max_depth && !row.entry.hidden
            },
        depth > max_depth || entry.hidden ==> visited(entry, depth, max_depth).len() == 0,
    decreases entry, 0nat,
{
    if depth > max_depth || entry.hidden {
    } else {
        match entry.kind {
            KindView::File(_) => {},
            KindView::Dir(children) => {
                lemma_visited_first_rows(children, children.len(), depth + 1, max_depth);
            },
        }
    }
}

proof fn lemma_visited_first_rows(entries: Seq<EntryView>, n: nat, depth: nat, max_depth: nat)
    ensures
        forall|i: int|
            0 <= i < visited_first(entries, n, depth, max_depth).len() ==> {
                let row = #[trigger] visited_first(entries, n, depth, max_depth)[i];
                depth <= row.depth <= max_depth && !row.entry.hidden
            },
        depth > max_depth ==> visited_first(entries, n, depth, max_depth).len() == 0,
    decreases entries, n,
{
    if n == 0 || n > entries.len() {
    } else {
        lemma_visited_first_rows(entries, (n - 1) as nat, depth, max_depth);
        lemma_visited_rows(entries[n - 1], depth, max_depth);
    }
}

proof fn lemma_rows_first_occur(entries: Seq<EntryView>, n: nat, depth: nat, max_depth: nat)
    ensures
        forall|i: int|
            0 <= i < visited_first(entries, n, depth, max_depth).len() ==> {
                let row = #[trigger] visited_first(entries, n, depth, max_depth)[i];
                occurs_first(entries, n, depth, row.entry, row.depth)
            },
    decreases entries, n,
{
    if n == 0 || n > entries.len() {
    } else {
        lemma_rows_first_occur(entries, (n - 1) as nat, depth, max_depth);
        lemma_rows_occur(entries[n - 1], depth, max_depth);
    }
}

/// Every row is a node of the tree, and its depth is the level at which that
/// node lies: the root at the depth the report began with, each child one
/// level below its parent.
pub proof fn lemma_rows_occur(entry: EntryView, depth: nat, max_depth: nat)
    ensures
        forall|i: int|
            0 <= i < visited(entry, depth, max_depth).len() ==> {
                let row = #[trigger] visited(entry, depth, max_depth)[i];
                occurs(entry, depth, row.entry, row.depth)
            },
    decreases entry, 0nat,
{
    if depth > max_depth || entry.hidden {
    } else {
        match entry.kind {
            KindView::File(_) => {},
            KindView::Dir(children) => {
                lemma_rows_first_occur(children, children.len(), depth + 1, max_depth);
            },
        }
    }
}

/// No row lies beyond the depth limit: an entry deeper than `max_depth` gets
/// no line, and neither does anything below it.
pub proof fn lemma_depth_cutoff(entry: EntryView, depth: nat, max_depth: nat)
    ensures
        forall|i: int|
            0 <= i < visited(entry, depth, max_depth).len() ==> depth <= (#[trigger] visited(
                entry,
                depth,
                max_depth,
            )[i]).depth <= max_depth,
        depth > max_depth ==> visited(entry, depth, max_depth).len() == 0,
{
    lemma_visited_rows(entry, depth, max_depth);
}

/// No hidden entry is visited, so none gets a line.
pub proof fn lemma_hidden_not_shown(entry: EntryView, depth: nat, max_depth: nat)
    ensures
        forall|i: int|
            0 <= i < visited(entry, depth, max_depth).len() ==> !(#[trigger] visited(
                entry,
                depth,
                max_depth,
            )[i]).entry.hidden,
        entry.hidden ==> visited(entry, depth, max_depth).len() == 0,
{
    lemma_visited_rows(entry, depth, max_depth);
}

/// An entry at the depth limit that is not hidden gets exactly one row, its
/// own, whatever lies below it.
pub proof fn lemma_only_root_at_limit(entry: EntryView, depth: nat)
    requires
        !entry.hidden,
    ensures
        visited(entry, depth, depth) == seq![Row { depth, entry }],
{
    match entry.kind {
        KindView::File(_) => {},
        KindView::Dir(children) => {
            lemma_visited_first_rows(children, children.len(), depth + 1, depth);
            assert(visited(entry, depth, depth) =~= seq![Row { depth, entry }]);
        },
    }
}

proof fn lemma_siblings_first(entries: Seq<EntryView>, n: nat, depth: nat, max_depth: nat)
    requires
        n <= entries.len(),
        forall|j: int|
            0 <= j < entries.len() ==> siblings_ascend(
                #[trigger] visited(entries[j], depth, max_depth),
            ),
    ensures
        siblings_ascend(visited_first(entries, n, depth, max_depth)),
    decreases n,
{
    if n > 0 {
        lemma_siblings_first(entries, (n - 1) as nat, depth, max_depth);
        let before = visited_first(entries, (n - 1) as nat, depth, max_depth);
        let last = visited(entries[n - 1], depth, max_depth);
        assert(siblings_ascend(last));
        let rows = visited_first(entries, n, depth, max_depth);
        assert forall|i: int| 0 <= i < rows.len() implies ascending(
            (#[trigger] rows[i]).entry.children(),
        ) by {
            if i < before.len() {
                assert(rows[i] == before[i]);
            } else {
                assert(rows[i] == last[i - before.len()]);
            }
        }
    }
}

/// With sorting on, every visited directory of the rendered tree has its
/// children in ascending order of size, and the rows of siblings follow
/// that order.
pub proof fn lemma_sorted_siblings(entry: EntryView, depth: nat, max_depth: nat)
    ensures
        siblings_ascend(visited(arranged(entry, depth, max_depth, true), depth, max_depth)),
    decreases entry,
{
    let tree = arranged(entry, depth, max_depth, true);
    if depth > max_depth || entry.hidden {
    } else {
        match entry.kind {
            KindView::File(_) => {},
            KindView::Dir(children) => {
                let each = arranged_first(children, children.len(), depth + 1, max_depth, true);
                let sorted = by_size(each);
                lemma_arranged_first(children, children.len(), depth + 1, max_depth, true);
                lemma_by_size(each);
                lemma_by_size_members(each);
                assert forall|j: int| 0 <= j < sorted.len() implies siblings_ascend(
                    #[trigger] visited(sorted[j], depth + 1, max_depth),
                ) by {
                    let k = choose|k: int| 0 <= k < each.len() && each[k] == sorted[j];
                    lemma_sorted_siblings(children[k], depth + 1, max_depth);
                }
                lemma_siblings_first(sorted, sorted.len(), depth + 1, max_depth);
                let below = visited_first(sorted, sorted.len(), depth + 1, max_depth);
                let rows = visited(tree, depth, max_depth);
                assert(rows == below.push(Row { depth, entry: tree }));
                assert forall|i: int| 0 <= i < rows.len() implies ascending(
                    (#[trigger] rows[i]).entry.children(),
                ) by {
                    if i < below.len() {
                        assert(rows[i] == below[i]);
                    }
                }
            },
        }
    }
}

/// Puts the tree in the state that rendering leaves it in.
pub fn arrange(entry: Entry, depth: usize, max_depth: usize, sort: bool) -> (out: Entry)
    ensures
        out@ == arranged(entry@, depth as nat, max_depth as nat, sort),
    decreases entry@,
{
    if depth > max_depth || entry.is_hidden() {
        return entry;
    }
    let ghost model = entry@;
    let (path, hidden, kind) = entry.into_parts();
    match kind {
        EntryKind::File(size) => Entry::file(path, hidden, size),
        EntryKind::Dir(children) => {
            let ghost before = views(children@);
            let ghost whole = children@;
            let ghost inner: nat = (depth + 1) as nat;
            let ghost limit: nat = max_depth as nat;
            proof {
                lemma_dir_size(model);
                lemma_arranged_keeps(model, depth as nat, limit, sort);
                lemma_dir_size(arranged(model, depth as nat, limit, sort));
                lemma_arranged_first(before, before.len(), inner, limit, sort);
            }
            let each = if depth < max_depth {
                let mut rest = reversed(children);
                let mut done: Vec<Entry> = Vec::new();
                while rest.len() > 0
                    invariant
                        depth < max_depth,
                        inner == depth + 1,
                        limit == max_depth,
                        before == views(whole),
                        model == entry@,
                        model.kind == KindView::Dir(before),
                        done.len() + rest.len() == whole.len(),
                        forall|j: int|
                            0 <= j < rest.len() ==> rest@[j] == whole[whole.len() - 1 - j],
                        views(done@) == arranged_first(
                            before,
                            done.len() as nat,
                            inner,
                            limit,
                            sort,
                        ),
                    decreases rest.len(),
                {
                    let ghost built = views(done@);
                    match rest.pop() {
                        Some(child) => {
                            assert(child == whole[done.len() as int]);
                            assert(child@ == before[done.len() as int]);
                            assert(child@ == model.kind->Dir_0[done.len() as int]);
                            let child = arrange(child, depth + 1, max_depth, sort);
                            done.push(child);
                            assert(views(done@) =~= built.push(child@));
                        },
                        None => {},
                    }
                }
                done
            } else {
                proof {
                    assert forall|i: int| 0 <= i < before.len() implies arranged(
                        before[i],
                        inner,
                        limit,
                        sort,
                    ) == before[i] by {}
                    assert(arranged_first(before, before.len(), inner, limit, sort) =~= before);
                }
                children
            };
            let kept = if sort {
                proof {
                    lemma_by_size(views(each@));
                }
                sort_by_size(each)
            } else {
                each
            };
            Entry::dir(path, hidden, kept)
        },
    }
}

/// Appends to `lines` the lines of the rows that a report of `entry` at
/// `depth` visits, without changing the tree.
pub fn collect(
    entry: &Entry,
    depth: usize,
    max_depth: usize,
    raw_bytes: bool,
    units: UnitSystem,
    lines: &mut Vec<String>,
)
    ensures
        texts(final(lines)@) == texts(old(lines)@) + lines_of(
            visited(entry@, depth as nat, max_depth as nat),
            raw_bytes,
            units,
        ),
    decreases entry@,
{
    let ghost start = texts(lines@);
    if depth > max_depth || entry.is_hidden() {
        assert(texts(lines@) =~= start + lines_of(
            visited(entry@, depth as nat, max_depth as nat),
            raw_bytes,
            units,
        ));
        return ;
    }
    let ghost children = entry@.children();
    let ghost inner: nat = (depth + 1) as nat;
    let ghost limit: nat = max_depth as nat;
    match entry.kind() {
        EntryKind::File(_) => {
            assert(texts(lines@) =~= start + lines_of(
                visited_first(children, children.len(), inner, limit),
                raw_bytes,
                units,
            ));
        },
        EntryKind::Dir(list) => {
            if depth < max_depth {
                let mut i: usize = 0;
                assert(texts(lines@) =~= start + lines_of(
                    visited_first(children, 0, inner, limit),
                    raw_bytes,
                    units,
                ));
                while i < list.len()
                    invariant
                        i <= list.len(),
                        depth < max_depth,
                        inner == depth + 1,
                        limit == max_depth,
                        children == views(list@),
                        entry@.kind == KindView::Dir(children),
                        texts(lines@) == start + lines_of(
                            visited_first(children, i as nat, inner, limit),
                            raw_bytes,
                            units,
                        ),
                    decreases list.len() - i,
                {
                    let ghost so_far = texts(lines@);
                    assert(list[i as int]@ == children[i as int]);
                    assert(list[i as int]@ == entry@.kind->Dir_0[i as int]);
                    collect(&list[i], depth + 1, max_depth, raw_bytes, units, lines);
                    i = i + 1;
                    assert(texts(lines@) =~= start + lines_of(
                        visited_first(children, i as nat, inner, limit),
                        raw_bytes,
                        units,
                    ));
                }
            } else {
                proof {
                    lemma_visited_first_rows(children, children.len(), inner, limit);
                }
                assert(texts(lines@) =~= start + lines_of(
                    visited_first(children, children.len(), inner, limit),
                    raw_bytes,
                    units,
                ));
            }
        },
    }
    let ghost below = texts(lines@);
    let line = format_line(entry.size(), entry.path(), raw_bytes, units);
    lines.push(line);
    assert(texts(lines@) =~= below.push(line@));
    assert(texts(lines@) =~= start + lines_of(
        visited(entry@, depth as nat, max_depth as nat),
        raw_bytes,
        units,
    ));
}

/// The lines of a report of `entry` as it stands, the root at depth 0.
pub fn report(entry: &Entry, options: &Options, units: UnitSystem) -> (lines: Vec<String>)
    ensures
        texts(lines@) == lines_of(
            visited(entry@, 0, options.max_depth as nat),
            options.bytes,
            units,
        ),
        lines@.len() == visited(entry@, 0, options.max_depth as nat).len(),
        forall|i: int|
            0 <= i < lines@.len() ==> (#[trigger] lines@[i])@ == row_text(
                visited(entry@, 0, options.max_depth as nat)[i],
                options.bytes,
                units,
            ),
{
    let mut lines: Vec<String> = Vec::new();
    collect(entry, 0, options.max_depth, options.bytes, units, &mut lines);
    let ghost rows = visited(entry@, 0, options.max_depth as nat);
    assert(texts(lines@) =~= lines_of(rows, options.bytes, units));
    assert(texts(lines@).len() == lines_of(rows, options.bytes, units).len());
    assert forall|i: int| 0 <= i < lines@.len() implies (#[trigger] lines@[i])@ == row_text(
        rows[i],
        options.bytes,
        units,
    ) by {
        assert(texts(lines@)[i] == lines@[i]@);
        assert(lines_of(rows, options.bytes, units)[i] == row_text(rows[i], options.bytes, units));
    }
    lines
}

/// Renders one root: where sorting is on, the children of every visited
/// directory are put in ascending order of size, in place; then the lines of
/// the tree are written, children before their parent.
pub fn render(entry: &mut Entry, options: &Options, units: UnitSystem) -> (lines: Vec<String>)
    ensures
        final(entry)@ == arranged(old(entry)@, 0, options.max_depth as nat, options.sort),
        texts(lines@) == lines_of(
            visited(final(entry)@, 0, options.max_depth as nat),
            options.bytes,
            units,
        ),
        lines@.len() == visited(final(entry)@, 0, options.max_depth as nat).len(),
        forall|i: int|
            0 <= i < lines@.len() ==> (#[trigger] lines@[i])@ == row_text(
                visited(final(entry)@, 0, options.max_depth as nat)[i],
                options.bytes,
                units,
            ),
{
    if options.sort {
        let mut tree = Entry::file(String::new(), false, 0);
        core::mem::swap(entry, &mut tree);
        let mut tree = arrange(tree, 0, options.max_depth, true);
        core::mem::swap(entry, &mut tree);
    } else {
        proof {
            lemma_unsorted_unchanged(entry@, 0, options.max_depth as nat);
        }
    }
    report(entry, options, units)
}

} // verus!
