//! The entry tree: one node per visited file or directory, each file with
//! its on-disk size, each directory with its children in discovery order.

use vstd::prelude::*;

verus! {

/// Mathematical model of an entry: what contracts say about a tree.
pub struct EntryView {
    pub path: Seq<char>,
    pub hidden: bool,
    pub kind: KindView,
}

/// Model of what an entry is: a file with its size, or a directory with its children.
pub enum KindView {
    File(nat),
    Dir(Seq<EntryView>),
}

/// Sum of a sequence of sizes.
pub open spec fn sum(sizes: Seq<nat>) -> nat
    decreases sizes.len(),
{
    if sizes.len() == 0 {
        0
    } else {
        sum(sizes.drop_last()) + sizes.last()
    }
}

impl EntryView {
    /// The aggregate size: a file's own size, a directory's children summed,
    /// whether they are hidden or not.
    pub open spec fn size(self) -> nat
        decreases self, 0nat,
    {
        match self.kind {
            KindView::File(n) => n,
            KindView::Dir(children) => total_first(children, children.len()),
        }
    }

    /// The children of a directory; a file has none.
    pub open spec fn children(self) -> Seq<EntryView> {
        match self.kind {
            KindView::File(_) => Seq::empty(),
            KindView::Dir(children) => children,
        }
    }
}

/// The sum of the aggregate sizes of the first `n` entries.
pub open spec fn total_first(entries: Seq<EntryView>, n: nat) -> nat
    decreases entries, n,
{
    if n == 0 || n > entries.len() {
        0
    } else {
        total_first(entries, (n - 1) as nat) + entries[n - 1].size()
    }
}

/// The aggregate size of each entry of a sequence.
pub open spec fn sizes(entries: Seq<EntryView>) -> Seq<nat> {
    Seq::new(entries.len(), |i: int| entries[i].size())
}

/// The sum of the aggregate sizes of a sequence of entries.
pub open spec fn total(entries: Seq<EntryView>) -> nat {
    sum(sizes(entries))
}

/// What an entry is: a file with its on-disk size, or a directory with its children.
#[derive(Debug)]
pub enum EntryKind {
    File(u64),
    Dir(Vec<Entry>),
}

/// One visited filesystem node. Every entry's aggregate size fits in 64 bits.
#[derive(Debug)]
pub struct Entry {
    path: String,
    hidden: bool,
    kind: EntryKind,
}

/// The models of a sequence of entries.
pub open spec fn views(entries: Seq<Entry>) -> Seq<EntryView> {
    Seq::new(entries.len(), |i: int| entries[i]@)
}

/// The model of a kind.
pub open spec fn kind_view(kind: EntryKind) -> KindView {
    match kind {
        EntryKind::File(n) => KindView::File(n as nat),
        EntryKind::Dir(children) => KindView::Dir(views(children@)),
    }
}

/// The models of the first `n` entries.
pub closed spec fn views_first(entries: Seq<Entry>, n: nat) -> Seq<EntryView>
    decreases entries, n,
{
    if n == 0 || n > entries.len() {
        Seq::empty()
    } else {
        views_first(entries, (n - 1) as nat).push(entries[n - 1].view())
    }
}

impl View for Entry {
    type V = EntryView;

    closed spec fn view(&self) -> EntryView
        decreases self, 0nat,
    {
        EntryView {
            path: self.path@,
            hidden: self.hidden,
            kind: match self.kind {
                EntryKind::File(n) => KindView::File(n as nat),
                EntryKind::Dir(children) => KindView::Dir(
                    views_first(children@, children@.len()),
                ),
            },
        }
    }
}

proof fn lemma_views_first(entries: Seq<Entry>, n: nat)
    requires
        n <= entries.len(),
    ensures
        views_first(entries, n) == views(entries).take(n as int),
    decreases n,
{
    if n > 0 {
        lemma_views_first(entries, (n - 1) as nat);
        assert(views_first(entries, n) == views_first(entries, (n - 1) as nat).push(
            entries[n - 1]@,
        ));
        assert(views(entries).take(n as int) =~= views(entries).take(n - 1).push(entries[n - 1]@));
    } else {
        assert(views_first(entries, n) == Seq::<EntryView>::empty());
        assert(views(entries).take(n as int) =~= Seq::<EntryView>::empty());
    }
}

/// The model of an entry, its kind taken by its own model.
proof fn lemma_view(entry: Entry)
    ensures
        entry@.path == entry.path@,
        entry@.hidden == entry.hidden,
        entry@.kind == kind_view(entry.kind),
{
    match entry.kind {
        EntryKind::File(_) => {},
        EntryKind::Dir(children) => {
            lemma_views_first(children@, children@.len());
            assert(views(children@).take(children@.len() as int) =~= views(children@));
        },
    }
}

proof fn lemma_total_first(entries: Seq<EntryView>, n: nat)
    requires
        n <= entries.len(),
    ensures
        total_first(entries, n) == sum(sizes(entries).take(n as int)),
    decreases n,
{
    let all = sizes(entries);
    if n > 0 {
        lemma_total_first(entries, (n - 1) as nat);
        assert(all.take(n as int).drop_last() =~= all.take(n - 1));
    }
}

/// A directory's size is the sum of the sizes of its children, hidden ones included.
pub proof fn lemma_dir_size(dir: EntryView)
    requires
        dir.kind is Dir,
    ensures
        dir.size() == total(dir.children()),
{
    let children = dir.children();
    lemma_total_first(children, children.len());
    assert(sizes(children).take(children.len() as int) =~= sizes(children));
}

/// Adding a size at the end adds it to the sum.
pub proof fn lemma_sum_push(sizes: Seq<nat>, last: nat)
    ensures
        sum(sizes.push(last)) == sum(sizes) + last,
{
    assert(sizes.push(last).drop_last() =~= sizes);
}

/// The sum of two sequences laid end to end is the sum of their sums.
pub proof fn lemma_sum_concat(a: Seq<nat>, b: Seq<nat>)
    ensures
        sum(a + b) == sum(a) + sum(b),
    decreases b.len(),
{
    if b.len() == 0 {
        assert(a + b =~= a);
    } else {
        lemma_sum_concat(a, b.drop_last());
        assert((a + b).drop_last() =~= a + b.drop_last());
    }
}

/// A prefix sums to no more than the whole.
pub proof fn lemma_sum_prefix(sizes: Seq<nat>, n: int)
    requires
        0 <= n <= sizes.len(),
    ensures
        sum(sizes.take(n)) <= sum(sizes),
        n < sizes.len() ==> sum(sizes.take(n + 1)) == sum(sizes.take(n)) + sizes[n],
{
    lemma_sum_concat(sizes.take(n), sizes.skip(n));
    assert(sizes.take(n) + sizes.skip(n) =~= sizes);
    if n < sizes.len() {
        assert(sizes.take(n + 1) =~= sizes.take(n).push(sizes[n]));
        lemma_sum_push(sizes.take(n), sizes[n]);
    }
}

/// Every child, hidden or not, contributes its whole size to its parent:
/// without it the parent would be smaller by exactly that much.
pub proof fn lemma_child_contributes(dir: EntryView, i: int)
    requires
        dir.kind is Dir,
        0 <= i < dir.children().len(),
    ensures
        dir.size() == total(dir.children().remove(i)) + dir.children()[i].size(),
        dir.children()[i].size() <= dir.size(),
{
    let children = dir.children();
    let all = sizes(children);
    lemma_dir_size(dir);
    lemma_sum_concat(all.take(i), all.skip(i));
    assert(all.take(i) + all.skip(i) =~= all);
    lemma_sum_concat(seq![all[i]], all.skip(i + 1));
    assert(seq![all[i]] + all.skip(i + 1) =~= all.skip(i));
    lemma_sum_push(Seq::<nat>::empty(), all[i]);
    assert(Seq::<nat>::empty().push(all[i]) =~= seq![all[i]]);
    lemma_sum_concat(all.take(i), all.skip(i + 1));
    assert(sizes(children.remove(i)) =~= all.take(i) + all.skip(i + 1));
}

/// The sum over a sequence of entries with one more at the end.
pub proof fn lemma_total_push(entries: Seq<EntryView>, last: EntryView)
    ensures
        total(entries.push(last)) == total(entries) + last.size(),
{
    lemma_sum_push(sizes(entries), last.size());
    assert(sizes(entries.push(last)) =~= sizes(entries).push(last.size()));
}

/// Whether `entry` is a node of `tree` at `level`, the root of `tree` being
/// at `depth` and each child one level below its parent.
pub open spec fn occurs(tree: EntryView, depth: nat, entry: EntryView, level: nat) -> bool
    decreases tree, 0nat,
{
    (level == depth && entry == tree) || match tree.kind {
        KindView::File(_) => false,
        KindView::Dir(children) => occurs_first(children, children.len(), depth + 1, entry, level),
    }
}

/// Whether `entry` is a node at `level` of one of the first `n` trees, whose
/// roots are at `depth`.
pub open spec fn occurs_first(
    trees: Seq<EntryView>,
    n: nat,
    depth: nat,
    entry: EntryView,
    level: nat,
) -> bool
    decreases trees, n,
{
    0 < n <= trees.len() && (occurs_first(trees, (n - 1) as nat, depth, entry, level) || occurs(
        trees[n - 1],
        depth,
        entry,
        level,
    ))
}

proof fn lemma_total_first_grows(entries: Seq<EntryView>, i: nat, n: nat)
    requires
        i <= n <= entries.len(),
    ensures
        total_first(entries, i) <= total_first(entries, n),
    decreases n,
{
    if i < n {
        lemma_total_first_grows(entries, i, (n - 1) as nat);
    }
}

/// Every node of a tree, hidden or not and however deep, is counted in the
/// size of the tree: no node is larger than a tree that holds it, and none
/// lies above the root.
pub proof fn lemma_node_is_counted(tree: EntryView, depth: nat, entry: EntryView, level: nat)
    requires
        occurs(tree, depth, entry, level),
    ensures
        entry.size() <= tree.size(),
        depth <= level,
    decreases tree, 0nat,
{
    if !(level == depth && entry == tree) {
        match tree.kind {
            KindView::File(_) => {},
            KindView::Dir(children) => {
                lemma_node_is_counted_first(children, children.len(), depth + 1, entry, level);
            },
        }
    }
}

proof fn lemma_node_is_counted_first(
    trees: Seq<EntryView>,
    n: nat,
    depth: nat,
    entry: EntryView,
    level: nat,
)
    requires
        occurs_first(trees, n, depth, entry, level),
    ensures
        entry.size() <= total_first(trees, n),
        depth <= level,
    decreases trees, n,
{
    if occurs_first(trees, (n - 1) as nat, depth, entry, level) {
        lemma_node_is_counted_first(trees, (n - 1) as nat, depth, entry, level);
    } else {
        lemma_node_is_counted(trees[n - 1], depth, entry, level);
    }
}

impl Entry {
    #[verifier::type_invariant]
    spec fn fits(&self) -> bool {
        self@.size() <= u64::MAX
    }

    /// A file entry with its on-disk size.
    pub fn file(path: String, hidden: bool, size: u64) -> (entry: Entry)
        ensures
            entry@ == (EntryView { path: path@, hidden, kind: KindView::File(size as nat) }),
    {
        Entry { path, hidden, kind: EntryKind::File(size) }
    }

    /// A directory entry that owns `children`, in the order given.
    pub fn dir(path: String, hidden: bool, children: Vec<Entry>) -> (entry: Entry)
        requires
            total(views(children@)) <= u64::MAX,
        ensures
            entry@ == (EntryView { path: path@, hidden, kind: KindView::Dir(views(children@)) }),
    {
        let ghost model = EntryView { path: path@, hidden, kind: KindView::Dir(views(children@)) };
        proof {
            lemma_dir_size(model);
        }
        let ghost shape = Entry { path, hidden, kind: EntryKind::Dir(children) };
        proof {
            lemma_view(shape);
        }
        Entry { path, hidden, kind: EntryKind::Dir(children) }
    }

    /// The path this entry was built for.
    pub fn path(&self) -> (path: &str)
        ensures
            path@ == self@.path,
    {
        self.path.as_str()
    }

    /// Whether the entry was marked hidden when it was built.
    pub fn is_hidden(&self) -> (hidden: bool)
        ensures
            hidden == self@.hidden,
    {
        self.hidden
    }

    /// Whether the entry is a directory.
    pub fn is_dir(&self) -> (dir: bool)
        ensures
            dir == (self@.kind is Dir),
    {
        match &self.kind {
            EntryKind::File(_) => false,
            EntryKind::Dir(_) => true,
        }
    }

    /// What the entry is, with its size or its children.
    pub fn kind(&self) -> (kind: &EntryKind)
        ensures
            kind_view(*kind) == self@.kind,
    {
        proof {
            lemma_view(*self);
        }
        &self.kind
    }

    /// Takes the entry apart into its path, its hidden flag and its kind.
    pub fn into_parts(self) -> (parts: (String, bool, EntryKind))
        ensures
            parts.0@ == self@.path,
            parts.1 == self@.hidden,
            kind_view(parts.2) == self@.kind,
            self@.size() <= u64::MAX,
    {
        proof {
            use_type_invariant(&self);
        }
        proof {
            lemma_view(self);
        }
        (self.path, self.hidden, self.kind)
    }

    /// The aggregate size: a file's own size, or the sum over a directory's
    /// children, computed afresh on every call.
    pub fn size(&self) -> (size: u64)
        ensures
            size == self@.size(),
        decreases self@,
    {
        proof {
            use_type_invariant(self);
        }
        match &self.kind {
            EntryKind::File(n) => *n,
            EntryKind::Dir(children) => {
                let ghost all = sizes(views(children@));
                proof {
                    lemma_view(*self);
                    lemma_dir_size(self@);
                }
                let mut size: u64 = 0;
                let mut i: usize = 0;
                while i < children.len()
                    invariant
                        i <= children.len(),
                        all == sizes(views(children@)),
                        self@.kind == KindView::Dir(views(children@)),
                        size == sum(all.take(i as int)),
                        sum(all) <= u64::MAX,
                    decreases children.len() - i,
                {
                    assert(children[i as int]@ == self@.children()[i as int]);
                    let child_size = children[i].size();
                    proof {
                        lemma_sum_prefix(all, i as int);
                        lemma_sum_prefix(all, i as int + 1);
                    }
                    size = size + child_size;
                    i = i + 1;
                }
                proof {
                    assert(all.take(i as int) =~= all);
                }
                size
            },
        }
    }
}

} // verus!
