//! The tree builder: from what the filesystem answered for each path to the
//! entry tree. Asking the filesystem is the caller's part; a `Probe` holds
//! the answers, and `build` decides what becomes of them.

use crate::entry::{lemma_total_push, total, views, Entry, EntryView, KindView};
use crate::matcher::{HiddenMarker, IgnoreMatcher};
use vstd::prelude::*;

verus! {

/// The number of bytes in one block of a block count.
pub const BLOCK_BYTES: u64 = 512;

/// What the platform's size oracle read for a regular file.
#[derive(Clone, Copy, Debug)]
pub enum SizeReading {
    /// The number of blocks allocated to the file, each of `BLOCK_BYTES` bytes.
    Blocks(u64),
    /// The answer to an allocation-size query: `None` where the file could
    /// not be opened or the query failed.
    Allocation(Option<u64>),
}

/// What resolving a path gave, without following a symlink.
#[derive(Debug)]
pub enum Node {
    /// The metadata could not be resolved.
    Missing,
    /// A regular file, with what the size oracle read.
    File(SizeReading),
    /// A directory, with the probes of its children in the order they were
    /// listed, or `None` where it could not be listed.
    Dir(Option<Vec<Probe>>),
    /// Anything else: a symlink, a device, a socket, a pipe.
    Other,
}

/// The answers of the filesystem for one path and for what lies below it.
#[derive(Debug)]
pub struct Probe {
    pub path: String,
    pub marker: HiddenMarker,
    pub node: Node,
}

/// The on-disk size that a reading stands for: the block count times
/// `BLOCK_BYTES`, the allocation size, or 0 where the query failed.
pub open spec fn on_disk_size(reading: SizeReading) -> nat {
    match reading {
        SizeReading::Blocks(blocks) => blocks as nat * BLOCK_BYTES as nat,
        SizeReading::Allocation(Some(bytes)) => bytes as nat,
        SizeReading::Allocation(None) => 0,
    }
}

/// The bytes that a probe accounts for: those of a file, those below a
/// directory that could be listed, none for anything else.
pub open spec fn weight(probe: Probe) -> nat
    decreases probe, 0nat,
{
    match probe.node {
        Node::File(reading) => on_disk_size(reading),
        Node::Dir(Some(children)) => weight_first(children, children.len() as nat),
        _ => 0,
    }
}

/// The bytes that the first `n` probes account for.
pub open spec fn weight_first(probes: Vec<Probe>, n: nat) -> nat
    decreases probes, n,
{
    if n == 0 || n > probes.len() {
        0
    } else {
        weight_first(probes, (n - 1) as nat) + weight(probes[n - 1])
    }
}

/// The entry that a probe gives: none where the metadata could not be
/// resolved, where the node is neither a file nor a directory, and where a
/// directory could not be listed. A file keeps its on-disk size. A directory
/// keeps the entries of its children, in their order, those that give none
/// left out. The hidden flag is what the matcher says of the path.
pub open spec fn built(probe: Probe, matcher: IgnoreMatcher) -> Option<EntryView>
    decreases probe, 0nat,
{
    match probe.node {
        Node::Missing => None,
        Node::Other => None,
        Node::File(reading) => Some(
            EntryView {
                path: probe.path@,
                hidden: matcher.hides(probe.path@, false, probe.marker),
                kind: KindView::File(on_disk_size(reading)),
            },
        ),
        Node::Dir(None) => None,
        Node::Dir(Some(children)) => Some(
            EntryView {
                path: probe.path@,
                hidden: matcher.hides(probe.path@, true, probe.marker),
                kind: KindView::Dir(built_first(children, children.len() as nat, matcher)),
            },
        ),
    }
}

/// The entries that the first `n` probes give, in their order.
pub open spec fn built_first(probes: Vec<Probe>, n: nat, matcher: IgnoreMatcher) -> Seq<EntryView>
    decreases probes, n,
{
    if n == 0 || n > probes.len() {
        Seq::empty()
    } else {
        let before = built_first(probes, (n - 1) as nat, matcher);
        match built(probes[n - 1], matcher) {
            Some(entry) => before.push(entry),
            None => before,
        }
    }
}

/// Whether `result` is what building `probe` gives.
pub open spec fn is_built(probe: Probe, matcher: IgnoreMatcher, result: Option<Entry>) -> bool {
    match result {
        Some(entry) => built(probe, matcher) == Some(entry@),
        None => built(probe, matcher) is None,
    }
}

proof fn lemma_weight_first(probes: Vec<Probe>, i: nat, n: nat)
    requires
        i <= n <= probes.len(),
    ensures
        weight_first(probes, i) <= weight_first(probes, n),
        i < n ==> weight_first(probes, i) + weight(probes[i as int]) <= weight_first(probes, n),
    decreases n,
{
    if i < n {
        lemma_weight_first(probes, i, (n - 1) as nat);
    }
}

proof fn lemma_built_size(probe: Probe, matcher: IgnoreMatcher)
    ensures
        match built(probe, matcher) {
            Some(entry) => entry.size() == weight(probe),
            None => weight(probe) == 0,
        },
    decreases probe, 0nat,
{
    match probe.node {
        Node::Dir(Some(children)) => {
            lemma_built_first_total(children, children.len() as nat, matcher);
            crate::entry::lemma_dir_size(built(probe, matcher)->0);
        },
        _ => {},
    }
}

proof fn lemma_built_first_total(probes: Vec<Probe>, n: nat, matcher: IgnoreMatcher)
    ensures
        total(built_first(probes, n, matcher)) == weight_first(probes, n),
    decreases probes, n,
{
    if n == 0 || n > probes.len() {
        assert(crate::entry::sizes(Seq::<EntryView>::empty()) =~= Seq::<nat>::empty());
    } else {
        lemma_built_first_total(probes, (n - 1) as nat, matcher);
        lemma_built_size(probes[n - 1], matcher);
        match built(probes[n - 1], matcher) {
            Some(entry) => {
                lemma_total_push(built_first(probes, (n - 1) as nat, matcher), entry);
            },
            None => {},
        }
    }
}

/// Building is a function of the probe and the matcher: two results for the
/// same probe and matcher are both absent, or are entries of the same shape
/// and so of the same aggregate size.
pub proof fn lemma_same_probe_same_tree(
    probe: Probe,
    matcher: IgnoreMatcher,
    first: Option<Entry>,
    second: Option<Entry>,
)
    requires
        is_built(probe, matcher, first),
        is_built(probe, matcher, second),
    ensures
        first is Some == second is Some,
        first is Some ==> first->0@ == second->0@ && first->0@.size() == second->0@.size(),
{
}

/// Hiding changes what is shown, never what is counted: whatever the
/// matchers hide, a probe gives an entry under one exactly when it does
/// under the other, and of the same aggregate size, the bytes that the probe
/// accounts for.
pub proof fn lemma_hidden_still_counted(probe: Probe, one: IgnoreMatcher, other: IgnoreMatcher)
    ensures
        built(probe, one) is Some == built(probe, other) is Some,
        built(probe, one) is Some ==> built(probe, one)->0.size() == weight(probe) && built(
            probe,
            other,
        )->0.size() == weight(probe),
{
    lemma_built_size(probe, one);
    lemma_built_size(probe, other);
}

/// The on-disk size of a reading, or `None` where it does not fit in 64 bits.
pub fn checked_size(reading: SizeReading) -> (size: Option<u64>)
    ensures
        match size {
            Some(bytes) => bytes == on_disk_size(reading),
            None => on_disk_size(reading) > u64::MAX,
        },
{
    match reading {
        SizeReading::Blocks(blocks) => blocks.checked_mul(BLOCK_BYTES),
        SizeReading::Allocation(Some(bytes)) => Some(bytes),
        SizeReading::Allocation(None) => Some(0),
    }
}

/// The bytes that a probe accounts for, or `None` where they do not fit in 64 bits.
pub fn checked_weight(probe: &Probe) -> (bytes: Option<u64>)
    ensures
        match bytes {
            Some(bytes) => bytes == weight(*probe),
            None => weight(*probe) > u64::MAX,
        },
    decreases probe,
{
    match &probe.node {
        Node::File(reading) => checked_size(*reading),
        Node::Dir(Some(children)) => {
            let mut bytes: u64 = 0;
            let mut i: usize = 0;
            while i < children.len()
                invariant
                    i <= children.len(),
                    probe.node == Node::Dir(Some(*children)),
                    bytes == weight_first(*children, i as nat),
                decreases children.len() - i,
            {
                proof {
                    lemma_weight_first(*children, i as nat, children.len() as nat);
                    assert(children[i as int] == probe.node->Dir_0->Some_0[i as int]);
                }
                let below = match checked_weight(&children[i]) {
                    Some(below) => below,
                    None => {
                        return None;
                    },
                };
                bytes = match bytes.checked_add(below) {
                    Some(sum) => sum,
                    None => {
                        return None;
                    },
                };
                i = i + 1;
            }
            Some(bytes)
        },
        _ => Some(0),
    }
}

/// Whether the bytes that a probe accounts for fit in 64 bits.
pub fn fits(probe: &Probe) -> (fits: bool)
    ensures
        fits == (weight(*probe) <= u64::MAX),
{
    checked_weight(probe).is_some()
}

/// Builds the entry tree of a probe.
pub fn build(probe: &Probe, matcher: &IgnoreMatcher) -> (entry: Option<Entry>)
    requires
        weight(*probe) <= u64::MAX,
    ensures
        is_built(*probe, *matcher, entry),
        entry matches Some(e) ==> e@.size() == weight(*probe),
    decreases probe,
{
    proof {
        lemma_built_size(*probe, *matcher);
    }
    match &probe.node {
        Node::Missing => None,
        Node::Other => None,
        Node::Dir(None) => None,
        Node::File(reading) => {
            let hidden = matcher.is_hidden(probe.path.as_str(), false, probe.marker);
            let size = match reading {
                SizeReading::Blocks(blocks) => *blocks * BLOCK_BYTES,
                SizeReading::Allocation(Some(bytes)) => *bytes,
                SizeReading::Allocation(None) => 0,
            };
            Some(Entry::file(probe.path.clone(), hidden, size))
        },
        Node::Dir(Some(children)) => {
            let hidden = matcher.is_hidden(probe.path.as_str(), true, probe.marker);
            let mut entries: Vec<Entry> = Vec::new();
            let mut i: usize = 0;
            assert(views(entries@) =~= built_first(*children, 0, *matcher));
            while i < children.len()
                invariant
                    i <= children.len(),
                    probe.node == Node::Dir(Some(*children)),
                    weight_first(*children, children.len() as nat) <= u64::MAX,
                    views(entries@) == built_first(*children, i as nat, *matcher),
                decreases children.len() - i,
            {
                let ghost before = views(entries@);
                proof {
                    lemma_weight_first(*children, i as nat, children.len() as nat);
                    assert(children[i as int] == probe.node->Dir_0->Some_0[i as int]);
                }
                match build(&children[i], matcher) {
                    Some(entry) => {
                        entries.push(entry);
                        assert(views(entries@) =~= before.push(entry@));
                    },
                    None => {},
                }
                i = i + 1;
            }
            proof {
                lemma_built_first_total(*children, children.len() as nat, *matcher);
            }
            Some(Entry::dir(probe.path.clone(), hidden, entries))
        },
    }
}

} // verus!
