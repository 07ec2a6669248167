//! B+ trees over the pages of a pager.

use vstd::prelude::*;

use crate::common::bytes::{copy_bytes, slice_vec};
use crate::common::error::{bare, DbError, DbResult, ErrorCode, ErrorView};
use crate::common::ordmap::{Order, OrdKey};
use crate::v2::page::{PageId, PageKind};
use crate::v2::pager::{step, stepped, Pager};
use crate::v2::pager_model::PagerModel;
use crate::v2::tree_shape::{
    lemma_all_entries, lemma_found, lemma_tree_made, lemma_tree_put, lemma_tree_removed,
    lists_contents, tree_became, tree_holds, value_in, Shape,
};
use crate::v2::tree_node::{
    holds, leaf_view, node_at, node_written, read_node, write_node, EntryView, InternalNode,
    LeafEntry, LeafNode, Node, NodeView, TreeKey,
};

verus! {

/// How many entries a leaf holds at most.
pub const LEAF_MAX_ENTRIES: usize = 16;

/// How many keys an internal node holds at most.
pub const INTERNAL_MAX_KEYS: usize = 16;

/// How many pages there can be: no chain of different pages is longer.
pub const MAX_PAGES: u64 = 0x1_0000_0000;

/// The first entry from one on whose key does not come before a key.
pub open spec fn place_from<K: TreeKey>(entries: Seq<EntryView<K::V>>, key: K::V, i: int) -> int
    decreases entries.len() - i,
{
    if i < 0 || i >= entries.len() || !K::before(entries[i].key, key) {
        i
    } else {
        place_from::<K>(entries, key, i + 1)
    }
}

/// The first separator from one on that comes after a key. The child there holds the key.
pub open spec fn child_from<K: TreeKey>(separators: Seq<K::V>, key: K::V, i: int) -> int
    decreases separators.len() - i,
{
    if i < 0 || i >= separators.len() || K::before(key, separators[i]) {
        i
    } else {
        child_from::<K>(separators, key, i + 1)
    }
}

/// The value of the first entry from one on with a key.
pub open spec fn entry_from<K: TreeKey>(entries: Seq<EntryView<K::V>>, key: K::V, i: int) -> Option<
    Seq<u8>,
>
    decreases entries.len() - i,
{
    if i < 0 || i >= entries.len() {
        None
    } else if entries[i].key == key {
        Some(entries[i].value)
    } else {
        entry_from::<K>(entries, key, i + 1)
    }
}

/// The entries of a leaf with a value put under a key.
pub open spec fn entries_put<K: TreeKey>(
    entries: Seq<EntryView<K::V>>,
    key: K::V,
    value: Seq<u8>,
) -> Seq<EntryView<K::V>> {
    let at = place_from::<K>(entries, key, 0);
    if at < entries.len() && entries[at].key == key {
        entries.update(at, EntryView { key, value })
    } else {
        entries.insert(at, EntryView { key, value })
    }
}

/// The leaf below a page that a key belongs to: its entries and the leaf after it.
pub open spec fn leaf_for<K: TreeKey>(m: PagerModel, id: PageId, key: K::V, depth: nat) -> Result<
    NodeView<K::V>,
    ErrorView,
>
    decreases depth,
{
    if depth == 0 {
        Err(bare(ErrorCode::TreeTooDeep))
    } else {
        match node_at::<K>(m, id) {
            Err(e) => Err(e),
            Ok(NodeView::Leaf { entries, next }) => Ok(NodeView::Leaf { entries, next }),
            Ok(NodeView::Internal { separators, children }) => {
                let i = child_from::<K>(separators, key, 0);
                if i < children.len() {
                    leaf_for::<K>(m, children[i], key, (depth - 1) as nat)
                } else {
                    Err(bare(ErrorCode::BrokenNode(id.0)))
                }
            },
        }
    }
}

/// The value of a key in the tree below a page.
pub open spec fn found<K: TreeKey>(m: PagerModel, root: PageId, key: K::V) -> Result<
    Option<Seq<u8>>,
    ErrorView,
> {
    match leaf_for::<K>(m, root, key, MAX_PAGES as nat) {
        Err(e) => Err(e),
        Ok(NodeView::Leaf { entries, next }) => Ok(entry_from::<K>(entries, key, 0)),
        Ok(NodeView::Internal { .. }) => Ok(None),
    }
}

/// The first leaf below a page.
pub open spec fn first_leaf<K: TreeKey>(m: PagerModel, id: PageId, depth: nat) -> Result<
    PageId,
    ErrorView,
>
    decreases depth,
{
    if depth == 0 {
        Err(bare(ErrorCode::TreeTooDeep))
    } else {
        match node_at::<K>(m, id) {
            Err(e) => Err(e),
            Ok(NodeView::Leaf { .. }) => Ok(id),
            Ok(NodeView::Internal { separators, children }) => if children.len() > 0 {
                first_leaf::<K>(m, children[0], (depth - 1) as nat)
            } else {
                Err(bare(ErrorCode::BrokenNode(id.0)))
            },
        }
    }
}

/// The entries of a leaf and of all after it, behind those already there.
pub open spec fn leaves_from<K: TreeKey>(
    m: PagerModel,
    at: Option<PageId>,
    left: nat,
    out: Seq<EntryView<K::V>>,
) -> Result<Seq<EntryView<K::V>>, ErrorView>
    decreases left,
{
    match at {
        None => Ok(out),
        Some(id) => if left == 0 {
            Err(bare(ErrorCode::TreeTooDeep))
        } else {
            match node_at::<K>(m, id) {
                Err(e) => Err(e),
                Ok(NodeView::Leaf { entries, next }) => leaves_from::<K>(
                    m,
                    next,
                    (left - 1) as nat,
                    out + entries,
                ),
                Ok(NodeView::Internal { .. }) => Err(bare(ErrorCode::LeafExpected(id.0))),
            }
        },
    }
}

/// All entries of the tree below a page, in order.
pub open spec fn all_entries<K: TreeKey>(m: PagerModel, root: PageId) -> Result<
    Seq<EntryView<K::V>>,
    ErrorView,
> {
    match first_leaf::<K>(m, root, MAX_PAGES as nat) {
        Err(e) => Err(e),
        Ok(id) => leaves_from::<K>(m, Some(id), MAX_PAGES as nat, Seq::empty()),
    }
}

/// What a node leaves behind where it was split: the key that separates the two halves, and
/// the page of the second.
#[verifier::ext_equal]
pub struct SplitView<A> {
    pub separator_key: A,
    pub right_page_id: PageId,
}

/// The pager once a leaf with entries is written, in two pages where it is too long.
pub open spec fn leaf_put<K: TreeKey>(
    m: PagerModel,
    txn: u64,
    id: PageId,
    entries: Seq<EntryView<K::V>>,
    next: Option<PageId>,
) -> (PagerModel, Result<Option<SplitView<K::V>>, ErrorView>) {
    if entries.len() <= LEAF_MAX_ENTRIES {
        match node_written::<K>(m, txn, id, NodeView::Leaf { entries, next }) {
            (after, Ok(_)) => (after, Ok(None)),
            (after, Err(e)) => (after, Err(e)),
        }
    } else {
        let half = entries.len() / 2;
        match m.allocated(txn, PageKind::Leaf) {
            (a, Err(e)) => (a, Err(e)),
            (a, Ok(new)) => match node_written::<K>(
                a,
                txn,
                id,
                NodeView::Leaf { entries: entries.take(half as int), next: Some(new) },
            ) {
                (b, Err(e)) => (b, Err(e)),
                (b, Ok(_)) => match node_written::<K>(
                    b,
                    txn,
                    new,
                    NodeView::Leaf { entries: entries.skip(half as int), next },
                ) {
                    (c, Err(e)) => (c, Err(e)),
                    (c, Ok(_)) => (
                        c,
                        Ok(
                            Some(
                                SplitView {
                                    separator_key: entries[half as int].key,
                                    right_page_id: new,
                                },
                            ),
                        ),
                    ),
                },
            },
        }
    }
}

/// The pager once an internal node is written, in two pages where it is too long.
pub open spec fn internal_put<K: TreeKey>(
    m: PagerModel,
    txn: u64,
    id: PageId,
    separators: Seq<K::V>,
    children: Seq<PageId>,
) -> (PagerModel, Result<Option<SplitView<K::V>>, ErrorView>) {
    if separators.len() <= INTERNAL_MAX_KEYS {
        match node_written::<K>(m, txn, id, NodeView::Internal { separators, children }) {
            (after, Ok(_)) => (after, Ok(None)),
            (after, Err(e)) => (after, Err(e)),
        }
    } else if children.len() <= separators.len() / 2 + 1 {
        (m, Err(bare(ErrorCode::BrokenNode(id.0))))
    } else {
        let mid = (separators.len() / 2) as int;
        match m.allocated(txn, PageKind::Internal) {
            (a, Err(e)) => (a, Err(e)),
            (a, Ok(new)) => match node_written::<K>(
                a,
                txn,
                id,
                NodeView::Internal {
                    separators: separators.take(mid),
                    children: children.take(mid + 1),
                },
            ) {
                (b, Err(e)) => (b, Err(e)),
                (b, Ok(_)) => match node_written::<K>(
                    b,
                    txn,
                    new,
                    NodeView::Internal {
                        separators: separators.skip(mid + 1),
                        children: children.skip(mid + 1),
                    },
                ) {
                    (c, Err(e)) => (c, Err(e)),
                    (c, Ok(_)) => (
                        c,
                        Ok(
                            Some(
                                SplitView {
                                    separator_key: separators[mid],
                                    right_page_id: new,
                                },
                            ),
                        ),
                    ),
                },
            },
        }
    }
}

/// The pager once a value is put under a key below a page, and how that page was split.
pub open spec fn put_below<K: TreeKey>(
    m: PagerModel,
    txn: u64,
    id: PageId,
    key: K::V,
    value: Seq<u8>,
    depth: nat,
) -> (PagerModel, Result<Option<SplitView<K::V>>, ErrorView>)
    decreases depth,
{
    if depth == 0 {
        (m, Err(bare(ErrorCode::TreeTooDeep)))
    } else {
        match node_at::<K>(m, id) {
            Err(e) => (m, Err(e)),
            Ok(NodeView::Leaf { entries, next }) => leaf_put::<K>(
                m,
                txn,
                id,
                entries_put::<K>(entries, key, value),
                next,
            ),
            Ok(NodeView::Internal { separators, children }) => {
                let i = child_from::<K>(separators, key, 0);
                if i >= children.len() {
                    (m, Err(bare(ErrorCode::BrokenNode(id.0))))
                } else {
                    match put_below::<K>(m, txn, children[i], key, value, (depth - 1) as nat) {
                        (after, Err(e)) => (after, Err(e)),
                        (after, Ok(None)) => (after, Ok(None)),
                        (after, Ok(Some(split))) => internal_put::<K>(
                            after,
                            txn,
                            id,
                            separators.insert(i, split.separator_key),
                            children.insert(i + 1, split.right_page_id),
                        ),
                    }
                }
            },
        }
    }
}

/// The pager once a value is put under a key of a tree, and the root of the tree then.
pub open spec fn tree_put<K: TreeKey>(
    m: PagerModel,
    txn: u64,
    root: PageId,
    key: K::V,
    value: Seq<u8>,
) -> (PagerModel, Result<PageId, ErrorView>) {
    match put_below::<K>(m, txn, root, key, value, MAX_PAGES as nat) {
        (after, Err(e)) => (after, Err(e)),
        (after, Ok(None)) => (after, Ok(root)),
        (after, Ok(Some(split))) => match after.allocated(txn, PageKind::Internal) {
            (a, Err(e)) => (a, Err(e)),
            (a, Ok(new)) => match node_written::<K>(
                a,
                txn,
                new,
                NodeView::Internal {
                    separators: seq![split.separator_key],
                    children: seq![root, split.right_page_id],
                },
            ) {
                (b, Err(e)) => (b, Err(e)),
                (b, Ok(_)) => (b, Ok(new)),
            },
        },
    }
}

/// The pager once a key is taken out of the tree below a page.
pub open spec fn removed_below<K: TreeKey>(
    m: PagerModel,
    txn: u64,
    id: PageId,
    key: K::V,
    depth: nat,
) -> (PagerModel, Result<(), ErrorView>)
    decreases depth,
{
    if depth == 0 {
        (m, Err(bare(ErrorCode::TreeTooDeep)))
    } else {
        match node_at::<K>(m, id) {
            Err(e) => (m, Err(e)),
            Ok(NodeView::Leaf { entries, next }) => {
                let at = place_from::<K>(entries, key, 0);
                if at < entries.len() && entries[at].key == key {
                    node_written::<K>(
                        m,
                        txn,
                        id,
                        NodeView::Leaf { entries: entries.remove(at), next },
                    )
                } else {
                    (m, Ok(()))
                }
            },
            Ok(NodeView::Internal { separators, children }) => {
                let i = child_from::<K>(separators, key, 0);
                if i >= children.len() {
                    (m, Err(bare(ErrorCode::BrokenNode(id.0))))
                } else {
                    removed_below::<K>(m, txn, children[i], key, (depth - 1) as nat)
                }
            },
        }
    }
}

/// The pager once there is a new tree with nothing in it, and its root.
pub open spec fn tree_made<K: TreeKey>(m: PagerModel, txn: u64) -> (
    PagerModel,
    Result<PageId, ErrorView>,
) {
    match m.allocated(txn, PageKind::Leaf) {
        (a, Err(e)) => (a, Err(e)),
        (a, Ok(id)) => match node_written::<K>(
            a,
            txn,
            id,
            NodeView::Leaf { entries: Seq::empty(), next: None },
        ) {
            (b, Err(e)) => (b, Err(e)),
            (b, Ok(_)) => (b, Ok(id)),
        },
    }
}

// ---------------------------------------------------------------------------
// What is read of pages that hold nodes

/// Whether pages of the pager hold nodes.
pub open spec fn kept<K: TreeKey>(m: PagerModel, nodes: Map<PageId, NodeView<K::V>>) -> bool {
    forall|id: PageId| #[trigger]
        nodes.dom().contains(id) ==> holds::<K>(m, id, nodes[id])
}

/// Whether the nodes from one on that a key leads to are read as they are.
pub open spec fn path_read<K: TreeKey>(
    m: PagerModel,
    nodes: Map<PageId, NodeView<K::V>>,
    id: PageId,
    key: K::V,
    depth: nat,
) -> bool
    decreases depth,
{
    depth > 0 && nodes.dom().contains(id) ==> {
        &&& node_at::<K>(m, id) == Ok::<_, ErrorView>(nodes[id])
        &&& match nodes[id] {
            NodeView::Leaf { .. } => true,
            NodeView::Internal { separators, children } => {
                let i = child_from::<K>(separators, key, 0);
                i < children.len() ==> path_read::<K>(
                    m,
                    nodes,
                    children[i],
                    key,
                    (depth - 1) as nat,
                )
            },
        }
    }
}

/// Whether the first nodes of each height, from one on, are read as they are.
pub open spec fn edge_read<K: TreeKey>(
    m: PagerModel,
    nodes: Map<PageId, NodeView<K::V>>,
    id: PageId,
    depth: nat,
) -> bool
    decreases depth,
{
    depth > 0 && nodes.dom().contains(id) ==> {
        &&& node_at::<K>(m, id) == Ok::<_, ErrorView>(nodes[id])
        &&& match nodes[id] {
            NodeView::Leaf { .. } => true,
            NodeView::Internal { separators, children } => children.len() > 0 ==> edge_read::<K>(
                m,
                nodes,
                children[0],
                (depth - 1) as nat,
            ),
        }
    }
}

/// Whether a leaf and those after it are read as they are.
pub open spec fn chain_read<K: TreeKey>(
    m: PagerModel,
    nodes: Map<PageId, NodeView<K::V>>,
    at: Option<PageId>,
    left: nat,
) -> bool
    decreases left,
{
    match at {
        None => true,
        Some(id) => left > 0 && nodes.dom().contains(id) ==> {
            &&& node_at::<K>(m, id) == Ok::<_, ErrorView>(nodes[id])
            &&& match nodes[id] {
                NodeView::Leaf { entries, next } => chain_read::<K>(
                    m,
                    nodes,
                    next,
                    (left - 1) as nat,
                ),
                NodeView::Internal { .. } => true,
            }
        },
    }
}

// ---------------------------------------------------------------------------
// Looking for keys

fn place_of<K: TreeKey>(entries: &Vec<LeafEntry<K>>, key: &K) -> (r: (usize, bool))
    ensures
        r.0 == place_from::<K>(entries.deep_view(), key.deep_view(), 0),
        r.0 <= entries@.len(),
        r.1 == (r.0 < entries@.len() && entries.deep_view()[r.0 as int].key == key.deep_view()),
{
    let mut i: usize = 0;
    while i < entries.len()
        invariant
            i <= entries@.len(),
            place_from::<K>(entries.deep_view(), key.deep_view(), i as int) == place_from::<K>(
                entries.deep_view(),
                key.deep_view(),
                0,
            ),
        decreases entries@.len() - i,
    {
        assert(entries.deep_view()[i as int] == entries@[i as int].deep_view());
        proof {
            K::before_irreflexive(key.deep_view());
        }
        match entries[i].key.compare(key) {
            Order::Less => {},
            Order::Equal => {
                return (i, true);
            },
            Order::Greater => {
                proof {
                    if K::before(entries@[i as int].key.deep_view(), key.deep_view()) {
                        K::before_transitive(
                            entries@[i as int].key.deep_view(),
                            key.deep_view(),
                            entries@[i as int].key.deep_view(),
                        );
                        K::before_irreflexive(entries@[i as int].key.deep_view());
                    }
                }
                return (i, false);
            },
        }
        i = i + 1;
    }
    (i, false)
}

fn child_index<K: TreeKey>(separators: &Vec<K>, key: &K) -> (r: usize)
    ensures
        r == child_from::<K>(separators.deep_view(), key.deep_view(), 0),
        r <= separators@.len(),
{
    let mut i: usize = 0;
    while i < separators.len()
        invariant
            i <= separators@.len(),
            child_from::<K>(separators.deep_view(), key.deep_view(), i as int) == child_from::<K>(
                separators.deep_view(),
                key.deep_view(),
                0,
            ),
        decreases separators@.len() - i,
    {
        assert(separators.deep_view()[i as int] == separators@[i as int].deep_view());
        match key.compare(&separators[i]) {
            Order::Less => {
                return i;
            },
            _ => {},
        }
        i = i + 1;
    }
    i
}

fn lookup<K: TreeKey>(entries: &Vec<LeafEntry<K>>, key: &K) -> (r: Option<Vec<u8>>)
    ensures
        match r {
            Some(v) => entry_from::<K>(entries.deep_view(), key.deep_view(), 0) == Some(v@),
            None => entry_from::<K>(entries.deep_view(), key.deep_view(), 0) is None,
        },
{
    let mut i: usize = 0;
    while i < entries.len()
        invariant
            i <= entries@.len(),
            entry_from::<K>(entries.deep_view(), key.deep_view(), i as int) == entry_from::<K>(
                entries.deep_view(),
                key.deep_view(),
                0,
            ),
        decreases entries@.len() - i,
    {
        assert(entries.deep_view()[i as int] == entries@[i as int].deep_view());
        match entries[i].key.compare(key) {
            Order::Equal => {
                return Some(copy_bytes(&entries[i].value));
            },
            _ => {},
        }
        i = i + 1;
    }
    None
}

/// The model of a leaf or an error.
pub open spec fn leaf_result<K: TreeKey>(r: DbResult<LeafNode<K>>) -> Result<
    NodeView<K::V>,
    ErrorView,
> {
    match r {
        Ok(leaf) => Ok(leaf_view(leaf)),
        Err(e) => Err(e@),
    }
}

fn find_leaf<K: TreeKey>(pager: &Pager, page_id: PageId, key: &K, depth: u64) -> (r: DbResult<
    LeafNode<K>,
>)
    ensures
        leaf_result(r) == leaf_for::<K>(pager@, page_id, key.deep_view(), depth as nat),
        forall|nodes: Map<PageId, NodeView<K::V>>| #[trigger]
            kept::<K>(pager@, nodes) ==> path_read::<K>(
                pager@,
                nodes,
                page_id,
                key.deep_view(),
                depth as nat,
            ),
    decreases depth,
{
    if depth == 0 {
        return Err(DbError::bare(ErrorCode::TreeTooDeep));
    }
    match read_node::<K>(pager, page_id)? {
        Node::Leaf(leaf) => Ok(leaf),
        Node::Internal(node) => {
            let i: usize = child_index(&node.separators, key);
            if i >= node.children.len() {
                return Err(DbError::bare(ErrorCode::BrokenNode(page_id.0)));
            }
            find_leaf(pager, node.children[i], key, depth - 1)
        },
    }
}

fn leftmost_leaf_page<K: TreeKey>(pager: &Pager, page_id: PageId, depth: u64) -> (r: DbResult<PageId>)
    ensures
        match r {
            Ok(id) => first_leaf::<K>(pager@, page_id, depth as nat) == Ok::<_, ErrorView>(id),
            Err(e) => first_leaf::<K>(pager@, page_id, depth as nat) == Err::<PageId, _>(e@),
        },
        forall|nodes: Map<PageId, NodeView<K::V>>| #[trigger]
            kept::<K>(pager@, nodes) ==> edge_read::<K>(pager@, nodes, page_id, depth as nat),
    decreases depth,
{
    if depth == 0 {
        return Err(DbError::bare(ErrorCode::TreeTooDeep));
    }
    match read_node::<K>(pager, page_id)? {
        Node::Leaf(_) => Ok(page_id),
        Node::Internal(node) => {
            if node.children.len() == 0 {
                return Err(DbError::bare(ErrorCode::BrokenNode(page_id.0)));
            }
            leftmost_leaf_page::<K>(pager, node.children[0], depth - 1)
        },
    }
}

// ---------------------------------------------------------------------------
// Changing trees

struct SplitResult<K: TreeKey> {
    separator_key: K,
    right_page_id: PageId,
}

spec fn split_view<K: TreeKey>(s: Option<SplitResult<K>>) -> Option<SplitView<K::V>> {
    match s {
        Some(x) => Some(
            SplitView { separator_key: x.separator_key.deep_view(), right_page_id: x.right_page_id },
        ),
        None => None,
    }
}

fn put_entry<K: TreeKey>(entries: &mut Vec<LeafEntry<K>>, key: K, value: Vec<u8>)
    ensures
        final(entries).deep_view() == entries_put::<K>(
            old(entries).deep_view(),
            key.deep_view(),
            value@,
        ),
{
    let ghost before = entries.deep_view();
    let (at, present): (usize, bool) = place_of(entries, &key);
    let entry = LeafEntry { key, value };
    let ghost view = entry.deep_view();
    if present {
        entries.set(at, entry);
        assert(entries.deep_view() =~= before.update(at as int, view));
    } else {
        entries.insert(at, entry);
        assert(entries.deep_view() =~= before.insert(at as int, view));
    }
}

fn split_entries<K: TreeKey>(entries: Vec<LeafEntry<K>>, at: usize) -> (r: (
    Vec<LeafEntry<K>>,
    Vec<LeafEntry<K>>,
))
    requires
        at <= entries@.len(),
    ensures
        r.0.deep_view() == entries.deep_view().take(at as int),
        r.1.deep_view() == entries.deep_view().skip(at as int),
        r.1@.len() == entries@.len() - at,
{
    let mut left = entries;
    let right = left.split_off(at);
    assert(left.deep_view() =~= entries.deep_view().take(at as int));
    assert(right.deep_view() =~= entries.deep_view().skip(at as int));
    (left, right)
}

fn put_leaf<K: TreeKey>(
    pager: &mut Pager,
    txn_id: u64,
    page_id: PageId,
    entries: Vec<LeafEntry<K>>,
    next: Option<PageId>,
) -> (r: DbResult<Option<SplitResult<K>>>)
    requires
        old(pager)@.sound(),
    ensures
        stepped(
            r,
            |s: Option<SplitResult<K>>| split_view(s),
            final(pager)@,
            leaf_put::<K>(old(pager)@, txn_id, page_id, entries.deep_view(), next),
        ),
        final(pager)@.sound(),
{
    let ghost all = entries.deep_view();
    let count: usize = entries.len();
    if count <= LEAF_MAX_ENTRIES {
        let leaf = Node::Leaf(LeafNode { entries, next });
        write_node(pager, txn_id, page_id, &leaf)?;
        return Ok(None);
    }
    let half: usize = count / 2;
    let (left, right): (Vec<LeafEntry<K>>, Vec<LeafEntry<K>>) = split_entries(entries, half);
    assert(right.deep_view()[0] == all[half as int]);
    assert(right.deep_view()[0] == right@[0].deep_view());
    let separator_key = right[0].key.copy_key();
    let new_page_id = pager.allocate_leaf_page(txn_id)?;
    let first = Node::Leaf(LeafNode { entries: left, next: Some(new_page_id) });
    write_node(pager, txn_id, page_id, &first)?;
    let second = Node::Leaf(LeafNode { entries: right, next });
    write_node(pager, txn_id, new_page_id, &second)?;
    Ok(Some(SplitResult { separator_key, right_page_id: new_page_id }))
}

fn split_keys<K: TreeKey>(keys: Vec<K>, at: usize) -> (r: (Vec<K>, Vec<K>))
    requires
        at <= keys@.len(),
    ensures
        r.0.deep_view() == keys.deep_view().take(at as int),
        r.1.deep_view() == keys.deep_view().skip(at as int),
        r.0@.len() == at,
        r.1@.len() == keys@.len() - at,
{
    let mut left = keys;
    let right = left.split_off(at);
    assert(left.deep_view() =~= keys.deep_view().take(at as int));
    assert(right.deep_view() =~= keys.deep_view().skip(at as int));
    (left, right)
}

fn put_internal<K: TreeKey>(
    pager: &mut Pager,
    txn_id: u64,
    page_id: PageId,
    separators: Vec<K>,
    children: Vec<PageId>,
) -> (r: DbResult<Option<SplitResult<K>>>)
    requires
        old(pager)@.sound(),
    ensures
        stepped(
            r,
            |s: Option<SplitResult<K>>| split_view(s),
            final(pager)@,
            internal_put::<K>(old(pager)@, txn_id, page_id, separators.deep_view(), children@),
        ),
        final(pager)@.sound(),
{
    let ghost all = separators.deep_view();
    let ghost pages = children@;
    let count: usize = separators.len();
    if count <= INTERNAL_MAX_KEYS {
        let node = Node::Internal(InternalNode { separators, children });
        write_node(pager, txn_id, page_id, &node)?;
        return Ok(None);
    }
    let mid: usize = count / 2;
    if children.len() <= mid + 1 {
        return Err(DbError::bare(ErrorCode::BrokenNode(page_id.0)));
    }
    let (front, right_keys): (Vec<K>, Vec<K>) = split_keys(separators, mid + 1);
    let (left_keys, middle): (Vec<K>, Vec<K>) = split_keys(front, mid);
    proof {
        assert(all.take(mid + 1).take(mid as int) =~= all.take(mid as int));
        assert(middle.deep_view()[0] == all[mid as int]);
        assert(middle.deep_view()[0] == middle@[0].deep_view());
    }
    let promoted_key = middle[0].copy_key();
    let mut left_pages = children;
    let right_pages = left_pages.split_off(mid + 1);
    assert(left_pages@ =~= pages.take(mid + 1));
    assert(right_pages@ =~= pages.skip(mid + 1));
    let new_page_id = pager.allocate_internal_page(txn_id)?;
    let first = Node::Internal(InternalNode { separators: left_keys, children: left_pages });
    write_node(pager, txn_id, page_id, &first)?;
    let second = Node::Internal(InternalNode { separators: right_keys, children: right_pages });
    write_node(pager, txn_id, new_page_id, &second)?;
    Ok(Some(SplitResult { separator_key: promoted_key, right_page_id: new_page_id }))
}

fn insert_into_page<K: TreeKey>(
    pager: &mut Pager,
    txn_id: u64,
    page_id: PageId,
    key: K,
    value: Vec<u8>,
    depth: u64,
) -> (r: DbResult<Option<SplitResult<K>>>)
    requires
        old(pager)@.sound(),
    ensures
        stepped(
            r,
            |s: Option<SplitResult<K>>| split_view(s),
            final(pager)@,
            put_below::<K>(
                old(pager)@,
                txn_id,
                page_id,
                key.deep_view(),
                value@,
                depth as nat,
            ),
        ),
        forall|nodes: Map<PageId, NodeView<K::V>>| #[trigger]
            kept::<K>(old(pager)@, nodes) ==> path_read::<K>(
                old(pager)@,
                nodes,
                page_id,
                key.deep_view(),
                depth as nat,
            ),
        final(pager)@.sound(),
    decreases depth,
{
    if depth == 0 {
        return Err(DbError::bare(ErrorCode::TreeTooDeep));
    }
    match read_node::<K>(pager, page_id)? {
        Node::Leaf(leaf) => {
            let mut entries = leaf.entries;
            put_entry(&mut entries, key, value);
            put_leaf(pager, txn_id, page_id, entries, leaf.next)
        },
        Node::Internal(node) => {
            let i: usize = child_index(&node.separators, &key);
            if i >= node.children.len() {
                return Err(DbError::bare(ErrorCode::BrokenNode(page_id.0)));
            }
            match insert_into_page(pager, txn_id, node.children[i], key, value, depth - 1)? {
                None => Ok(None),
                Some(split) => {
                    let ghost keys = node.separators.deep_view();
                    let ghost pages = node.children@;
                    let ghost k = split.separator_key.deep_view();
                    let mut separators = node.separators;
                    separators.insert(i, split.separator_key);
                    assert(separators.deep_view() =~= keys.insert(i as int, k));
                    let mut children = node.children;
                    children.insert(i + 1, split.right_page_id);
                    assert(children@ =~= pages.insert(i + 1, split.right_page_id));
                    put_internal(pager, txn_id, page_id, separators, children)
                },
            }
        },
    }
}

fn delete_from_page<K: TreeKey>(
    pager: &mut Pager,
    txn_id: u64,
    page_id: PageId,
    key: &K,
    depth: u64,
) -> (r: DbResult<()>)
    requires
        old(pager)@.sound(),
    ensures
        step(
            r,
            final(pager)@,
            removed_below::<K>(old(pager)@, txn_id, page_id, key.deep_view(), depth as nat),
        ),
        forall|nodes: Map<PageId, NodeView<K::V>>| #[trigger]
            kept::<K>(old(pager)@, nodes) ==> path_read::<K>(
                old(pager)@,
                nodes,
                page_id,
                key.deep_view(),
                depth as nat,
            ),
        final(pager)@.sound(),
    decreases depth,
{
    if depth == 0 {
        return Err(DbError::bare(ErrorCode::TreeTooDeep));
    }
    match read_node::<K>(pager, page_id)? {
        Node::Leaf(leaf) => {
            let (at, present): (usize, bool) = place_of(&leaf.entries, key);
            if !present {
                return Ok(());
            }
            let ghost before = leaf.entries.deep_view();
            let mut entries = leaf.entries;
            entries.remove(at);
            assert(entries.deep_view() =~= before.remove(at as int));
            let node = Node::Leaf(LeafNode { entries, next: leaf.next });
            write_node(pager, txn_id, page_id, &node)
        },
        Node::Internal(node) => {
            let i: usize = child_index(&node.separators, key);
            if i >= node.children.len() {
                return Err(DbError::bare(ErrorCode::BrokenNode(page_id.0)));
            }
            delete_from_page(pager, txn_id, node.children[i], key, depth - 1)
        },
    }
}

/// The model of entries or an error.
pub open spec fn entries_result<K: TreeKey>(r: DbResult<Vec<LeafEntry<K>>>) -> Result<
    Seq<EntryView<K::V>>,
    ErrorView,
> {
    match r {
        Ok(v) => Ok(v.deep_view()),
        Err(e) => Err(e@),
    }
}

/// The model of an optional value or an error.
pub open spec fn value_result(r: DbResult<Option<Vec<u8>>>) -> Result<Option<Seq<u8>>, ErrorView> {
    match r {
        Ok(Some(v)) => Ok(Some(v@)),
        Ok(None) => Ok(None),
        Err(e) => Err(e@),
    }
}

/// The value of a key in a tree.
pub fn tree_get<K: TreeKey>(pager: &Pager, root: PageId, key: &K) -> (r: DbResult<Option<Vec<u8>>>)
    ensures
        value_result(r) == found::<K>(pager@, root, key.deep_view()),
        forall|pages: Set<PageId>, c: Map<K::V, Seq<u8>>| #[trigger]
            tree_holds::<K>(pager@, root, pages, c) ==> value_result(r) == Ok::<_, ErrorView>(
                value_in(c, key.deep_view()),
            ),
{
    let leaf = find_leaf(pager, root, key, MAX_PAGES);
    proof {
        assert forall|pages: Set<PageId>, c: Map<K::V, Seq<u8>>| #[trigger]
            tree_holds::<K>(pager@, root, pages, c) implies found::<K>(pager@, root, key.deep_view())
            == Ok::<_, ErrorView>(value_in(c, key.deep_view())) by {
            let s = choose|s: Shape<K::V>| #[trigger]
                s.is_tree::<K>(pager@, root) && s.nodes.dom() == pages && s.contents() == c;
            assert(kept::<K>(pager@, s.nodes));
            lemma_found::<K>(s, pager@, root, key.deep_view());
        }
    }
    let leaf = leaf?;
    Ok(lookup(&leaf.entries, key))
}

/// Puts a value under a key of a tree; hands back its root.
pub fn tree_insert<K: TreeKey>(pager: &mut Pager, txn_id: u64, root: PageId, key: K, value: &[u8]) -> (r:
    DbResult<PageId>)
    requires
        old(pager)@.sound(),
    ensures
        step(r, final(pager)@, tree_put::<K>(old(pager)@, txn_id, root, key.deep_view(), value@)),
        forall|pages: Set<PageId>, c: Map<K::V, Seq<u8>>| #[trigger]
            tree_holds::<K>(old(pager)@, root, pages, c) && r is Ok ==> tree_became::<K>(
                    old(pager)@,
                    pages,
                    final(pager)@,
                r->Ok_0,
                c.insert(key.deep_view(), value@),
            ),
        forall|pages: Set<PageId>, c: Map<K::V, Seq<u8>>| #[trigger]
            tree_holds::<K>(old(pager)@, root, pages, c) && r is Ok && c.dom().contains(
                key.deep_view(),
            ) ==> r->Ok_0 == root,
        final(pager)@.sound(),
{
    let ghost start = pager@;
    let copy = slice_vec(value, 0, value.len());
    assert(copy@ =~= value@);
    let ghost k = key.deep_view();
    let done = insert_into_page(pager, txn_id, root, key, copy, MAX_PAGES);
    proof {
        let model = tree_put::<K>(start, txn_id, root, k, value@);
        assert forall|pages: Set<PageId>, c: Map<K::V, Seq<u8>>| #[trigger]
            tree_holds::<K>(start, root, pages, c) && model.1 is Ok implies tree_became::<K>(
            start,
            pages,
            model.0,
            model.1->Ok_0,
            c.insert(k, value@),
        ) && (c.dom().contains(k) ==> model.1->Ok_0 == root) by {
            let s = choose|s: Shape<K::V>| #[trigger]
                s.is_tree::<K>(start, root) && s.nodes.dom() == pages && s.contents() == c;
            assert(kept::<K>(start, s.nodes));
            lemma_tree_put::<K>(s, start, txn_id, root, k, value@);
        }
    }
    match done? {
        None => Ok(root),
        Some(split) => {
            let new_root = pager.allocate_internal_page(txn_id)?;
            let ghost k = split.separator_key.deep_view();
            let mut separators: Vec<K> = Vec::new();
            separators.push(split.separator_key);
            assert(separators.deep_view() =~= seq![k]);
            let mut children: Vec<PageId> = Vec::new();
            children.push(root);
            children.push(split.right_page_id);
            assert(children@ =~= seq![root, split.right_page_id]);
            let node = Node::Internal(InternalNode { separators, children });
            write_node(pager, txn_id, new_root, &node)?;
            Ok(new_root)
        },
    }
}

/// Takes a key out of a tree.
pub fn tree_delete<K: TreeKey>(pager: &mut Pager, txn_id: u64, root: PageId, key: &K) -> (r:
    DbResult<()>)
    requires
        old(pager)@.sound(),
    ensures
        step(
            r,
            final(pager)@,
            removed_below::<K>(old(pager)@, txn_id, root, key.deep_view(), MAX_PAGES as nat),
        ),
        forall|pages: Set<PageId>, c: Map<K::V, Seq<u8>>| #[trigger]
            tree_holds::<K>(old(pager)@, root, pages, c) && r is Ok ==> tree_became::<K>(
                    old(pager)@,
                    pages,
                    final(pager)@,
                root,
                c.remove(key.deep_view()),
            ),
        final(pager)@.sound(),
{
    let ghost start = pager@;
    let r = delete_from_page(pager, txn_id, root, key, MAX_PAGES);
    proof {
        assert forall|pages: Set<PageId>, c: Map<K::V, Seq<u8>>| #[trigger]
            tree_holds::<K>(start, root, pages, c) && r is Ok implies tree_became::<K>(
            start,
            pages,
            pager@,
            root,
            c.remove(key.deep_view()),
        ) by {
            let s = choose|s: Shape<K::V>| #[trigger]
                s.is_tree::<K>(start, root) && s.nodes.dom() == pages && s.contents() == c;
            assert(kept::<K>(start, s.nodes));
            lemma_tree_removed::<K>(s, start, txn_id, root, key.deep_view());
        }
    }
    r
}

/// Makes a tree with nothing in it; hands back its root.
pub fn tree_create<K: TreeKey>(pager: &mut Pager, txn_id: u64) -> (r: DbResult<PageId>)
    requires
        old(pager)@.sound(),
    ensures
        step(r, final(pager)@, tree_made::<K>(old(pager)@, txn_id)),
        r is Ok && 2 <= old(pager)@.meta.page_count ==> tree_became::<K>(
                old(pager)@,
                Set::<PageId>::empty(),
                final(pager)@, r->Ok_0, Map::<K::V, Seq<u8>>::empty()),
        final(pager)@.sound(),
{
    proof {
        if tree_made::<K>(pager@, txn_id).1 is Ok && 2 <= pager@.meta.page_count {
            lemma_tree_made::<K>(pager@, txn_id);
        }
    }
    let root = pager.allocate_leaf_page(txn_id)?;
    let entries: Vec<LeafEntry<K>> = Vec::new();
    assert(entries.deep_view() =~= Seq::<EntryView<K::V>>::empty());
    let leaf = Node::Leaf(LeafNode { entries, next: None });
    write_node(pager, txn_id, root, &leaf)?;
    Ok(root)
}

/// All entries of a tree, in order.
pub fn tree_scan<K: TreeKey>(pager: &Pager, root: PageId) -> (r: DbResult<Vec<LeafEntry<K>>>)
    ensures
        entries_result(r) == all_entries::<K>(pager@, root),
        forall|pages: Set<PageId>, c: Map<K::V, Seq<u8>>| #[trigger]
            tree_holds::<K>(pager@, root, pages, c) ==> r is Ok && lists_contents::<K>(
                r->Ok_0.deep_view(),
                c,
            ),
{
    let r = scan_chain::<K>(pager, root);
    proof {
        assert forall|pages: Set<PageId>, c: Map<K::V, Seq<u8>>| #[trigger]
            tree_holds::<K>(pager@, root, pages, c) implies r is Ok && lists_contents::<K>(
            r->Ok_0.deep_view(),
            c,
        ) by {
            let s = choose|s: Shape<K::V>| #[trigger]
                s.is_tree::<K>(pager@, root) && s.nodes.dom() == pages && s.contents() == c;
            assert(kept::<K>(pager@, s.nodes));
            lemma_all_entries::<K>(s, pager@, root);
        }
    }
    r
}

fn scan_chain<K: TreeKey>(pager: &Pager, root: PageId) -> (r: DbResult<Vec<LeafEntry<K>>>)
    ensures
        entries_result(r) == all_entries::<K>(pager@, root),
        forall|nodes: Map<PageId, NodeView<K::V>>| #[trigger]
            kept::<K>(pager@, nodes) ==> {
                &&& edge_read::<K>(pager@, nodes, root, MAX_PAGES as nat)
                &&& first_leaf::<K>(pager@, root, MAX_PAGES as nat) matches Ok(first)
                    ==> chain_read::<K>(pager@, nodes, Some(first), MAX_PAGES as nat)
            },
{
    let first: PageId = leftmost_leaf_page::<K>(pager, root, MAX_PAGES)?;
    let mut current: Option<PageId> = Some(first);
    let mut out: Vec<LeafEntry<K>> = Vec::new();
    assert(out.deep_view() =~= Seq::<EntryView<K::V>>::empty());
    let mut left: u64 = MAX_PAGES;
    loop
        invariant
            leaves_from::<K>(pager@, current, left as nat, out.deep_view()) == all_entries::<K>(
                pager@,
                root,
            ),
            first_leaf::<K>(pager@, root, MAX_PAGES as nat) == Ok::<PageId, ErrorView>(first),
            forall|nodes: Map<PageId, NodeView<K::V>>| #[trigger]
                kept::<K>(pager@, nodes) ==> edge_read::<K>(pager@, nodes, root, MAX_PAGES as nat),
            forall|nodes: Map<PageId, NodeView<K::V>>| #[trigger]
                kept::<K>(pager@, nodes) ==> (chain_read::<K>(pager@, nodes, current, left as nat)
                    ==> chain_read::<K>(pager@, nodes, Some(first), MAX_PAGES as nat)),
        decreases left,
    {
        let id = match current {
            None => {
                return Ok(out);
            },
            Some(id) => id,
        };
        if left == 0 {
            return Err(DbError::bare(ErrorCode::TreeTooDeep));
        }
        match read_node::<K>(pager, id)? {
            Node::Internal(_) => {
                return Err(DbError::bare(ErrorCode::LeafExpected(id.0)));
            },
            Node::Leaf(leaf) => {
                let ghost before = out.deep_view();
                let mut entries = leaf.entries;
                let ghost more = entries.deep_view();
                out.append(&mut entries);
                assert(out.deep_view() =~= before + more);
                current = leaf.next;
            },
        }
        left = left - 1;
    }
}

} // verus!
