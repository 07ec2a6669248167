//! The shape of a tree over pages: which node each page holds, how high it stands, and which
//! keys belong below it.

use vstd::prelude::*;

use crate::common::error::ErrorView;
use crate::common::ordmap::OrdKey;
use crate::v2::page::{PageId, PageKind};
use crate::v2::pager_model::PagerModel;
use crate::v2::tree::{
    all_entries, chain_read, child_from, edge_read, entries_put, entry_from, first_leaf, found,
    internal_put, leaf_for, leaf_put, leaves_from, path_read, place_from, put_below, removed_below,
    tree_made, tree_put, SplitView, INTERNAL_MAX_KEYS, LEAF_MAX_ENTRIES, MAX_PAGES,
};
use crate::v2::tree_node::{holds, node_written, EntryView, NodeView, TreeKey};

verus! {

/// Where a page stands in a tree: how far above the leaves, and from which key on and up to
/// which key it holds keys.
pub struct Place<A> {
    pub height: nat,
    pub low: Option<A>,
    pub high: Option<A>,
}

/// The nodes of a tree by page, and where each stands.
#[verifier::ext_equal]
pub struct Shape<A> {
    pub nodes: Map<PageId, NodeView<A>>,
    pub places: Map<PageId, Place<A>>,
    pub height: nat,
}

/// Whether a key belongs to a place.
pub open spec fn belongs<K: TreeKey>(p: Place<K::V>, key: K::V) -> bool {
    &&& match p.low {
        None => true,
        Some(low) => low == key || K::before(low, key),
    }
    &&& match p.high {
        None => true,
        Some(high) => K::before(key, high),
    }
}

/// Whether keys are strictly ascending.
pub open spec fn keys_rise<K: TreeKey>(keys: Seq<K::V>) -> bool {
    forall|i: int, j: int|
        #![trigger keys[i], keys[j]]
        0 <= i < j < keys.len() ==> K::before(keys[i], keys[j])
}

/// Whether the keys of entries are strictly ascending.
pub open spec fn entries_rise<K: TreeKey>(entries: Seq<EntryView<K::V>>) -> bool {
    forall|i: int, j: int|
        #![trigger entries[i], entries[j]]
        0 <= i < j < entries.len() ==> K::before(entries[i].key, entries[j].key)
}

/// The place of a child of a node.
pub open spec fn child_place<A>(p: Place<A>, separators: Seq<A>, i: int) -> Place<A> {
    Place {
        height: (p.height - 1) as nat,
        low: if i == 0 {
            p.low
        } else {
            Some(separators[i - 1])
        },
        high: if i == separators.len() {
            p.high
        } else {
            Some(separators[i])
        },
    }
}

impl<A> Shape<A> {
    /// Whether a node is in order at a place.
    pub open spec fn in_order<K: TreeKey<V = A>>(self, n: NodeView<A>, p: Place<A>) -> bool {
        match n {
            NodeView::Leaf { entries, next } => {
                &&& p.height == 0
                &&& entries.len() <= LEAF_MAX_ENTRIES
                &&& entries_rise::<K>(entries)
                &&& forall|i: int|
                    0 <= i < entries.len() ==> belongs::<K>(p, (#[trigger] entries[i]).key)
                &&& match (p.high, next) {
                    (None, None) => true,
                    (Some(high), Some(id)) => {
                        &&& self.places.dom().contains(id)
                        &&& self.places[id].height == 0
                        &&& self.places[id].low == Some(high)
                    },
                    _ => false,
                }
            },
            NodeView::Internal { separators, children } => {
                &&& p.height > 0
                &&& children.len() == separators.len() + 1
                &&& keys_rise::<K>(separators)
                &&& forall|i: int|
                    0 <= i < separators.len() ==> belongs::<K>(p, #[trigger] separators[i])
                        && p.low != Some(separators[i])
                &&& forall|i: int|
                    0 <= i < children.len() ==> {
                        &&& self.places.dom().contains(#[trigger] children[i])
                        &&& self.places[children[i]] == child_place(p, separators, i)
                    }
            },
        }
    }

    /// Whether the pages of the pager hold the nodes. The first two pages are for other things.
    pub open spec fn stored<K: TreeKey<V = A>>(self, m: PagerModel) -> bool {
        forall|id: PageId| #[trigger]
            self.nodes.dom().contains(id) ==> holds::<K>(m, id, self.nodes[id]) && 2 <= id.0
                < m.meta.page_count
    }

    /// Whether no key belongs to two pages of the same height, and to each page some key
    /// belongs.
    pub open spec fn apart<K: TreeKey<V = A>>(self) -> bool {
        &&& forall|a: PageId, b: PageId, k: A|
            #![trigger belongs::<K>(self.places[a], k), belongs::<K>(self.places[b], k)]
            self.places.dom().contains(a) && self.places.dom().contains(b) && self.places[a].height
                == self.places[b].height && belongs::<K>(self.places[a], k) && belongs::<K>(
                self.places[b],
                k,
            ) ==> a == b
        &&& forall|a: PageId| #[trigger]
            self.places.dom().contains(a) ==> exists|k: A| belongs::<K>(self.places[a], k)
    }

    /// Whether a tree is in order, but for the page that a key belongs to at a height.
    pub open spec fn sound_but<K: TreeKey<V = A>>(self, m: PagerModel, height: nat, key: A) -> bool {
        &&& self.nodes.dom() == self.places.dom()
        &&& self.nodes.dom().finite()
        &&& self.stored::<K>(m)
        &&& self.apart::<K>()
        &&& forall|id: PageId| #[trigger]
            self.nodes.dom().contains(id) && !(self.places[id].height == height && belongs::<K>(
                self.places[id],
                key,
            )) ==> self.in_order::<K>(self.nodes[id], self.places[id])
    }

    /// Whether all nodes are in order.
    pub open spec fn sound<K: TreeKey<V = A>>(self, m: PagerModel) -> bool {
        &&& self.nodes.dom() == self.places.dom()
        &&& self.nodes.dom().finite()
        &&& self.stored::<K>(m)
        &&& self.apart::<K>()
        &&& forall|id: PageId| #[trigger]
            self.nodes.dom().contains(id) ==> self.in_order::<K>(self.nodes[id], self.places[id])
    }

    /// Whether the pages below a root are this tree.
    pub open spec fn is_tree<K: TreeKey<V = A>>(self, m: PagerModel, root: PageId) -> bool {
        &&& self.sound::<K>(m)
        &&& self.nodes.dom().contains(root)
        &&& self.places[root] == (Place::<A> { height: self.height, low: None, high: None })
        &&& self.height < self.nodes.dom().len()
        &&& forall|id: PageId| #[trigger]
            self.nodes.dom().contains(id) ==> self.places[id].height <= self.height
    }

    /// Whether a key has a value in the tree.
    pub open spec fn has(self, key: A, value: Seq<u8>) -> bool {
        exists|id: PageId, i: int| #[trigger] self.entry_at(id, i, key, value)
    }

    /// Whether an entry of a leaf is a key with a value.
    pub open spec fn entry_at(self, id: PageId, i: int, key: A, value: Seq<u8>) -> bool {
        &&& self.nodes.dom().contains(id)
        &&& match self.nodes[id] {
            NodeView::Leaf { entries, next } => 0 <= i < entries.len() && entries[i] == (EntryView {
                key,
                value,
            }),
            NodeView::Internal { .. } => false,
        }
    }

    /// What the tree holds: each key with its value.
    pub open spec fn contents(self) -> Map<A, Seq<u8>> {
        Map::new(
            |key: A| exists|value: Seq<u8>| self.has(key, value),
            |key: A| choose|value: Seq<u8>| self.has(key, value),
        )
    }
}

/// The laws of an order, for all keys.
proof fn lemma_order<K: OrdKey>()
    ensures
        forall|a: K::V| !#[trigger] K::before(a, a),
        forall|a: K::V, b: K::V, c: K::V|
            #![trigger K::before(a, b), K::before(b, c)]
            K::before(a, b) && K::before(b, c) ==> K::before(a, c),
        forall|a: K::V, b: K::V| #[trigger] K::before(a, b) ==> !K::before(b, a),
        forall|a: K::V, b: K::V|
            #![trigger K::before(a, b)]
            K::before(a, b) || a == b || K::before(b, a),
{
    assert forall|a: K::V| !#[trigger] K::before(a, a) by {
        K::before_irreflexive(a);
    }
    assert forall|a: K::V, b: K::V, c: K::V|
        #![trigger K::before(a, b), K::before(b, c)]
        K::before(a, b) && K::before(b, c) implies K::before(a, c) by {
        K::before_transitive(a, b, c);
    }
    assert forall|a: K::V, b: K::V|
        #![trigger K::before(a, b)]
        K::before(a, b) || a == b || K::before(b, a) by {
        K::before_total(a, b);
    }
    assert forall|a: K::V, b: K::V| #[trigger] K::before(a, b) implies !K::before(b, a) by {
        if K::before(b, a) {
            K::before_transitive(a, b, a);
            K::before_irreflexive(a);
        }
    }
}

proof fn lemma_child_from<K: TreeKey>(separators: Seq<K::V>, key: K::V, i: int)
    requires
        0 <= i <= separators.len(),
    ensures
        i <= child_from::<K>(separators, key, i) <= separators.len(),
        forall|j: int|
            i <= j < child_from::<K>(separators, key, i) ==> !K::before(
                key,
                #[trigger] separators[j],
            ),
        child_from::<K>(separators, key, i) < separators.len() ==> K::before(
            key,
            separators[child_from::<K>(separators, key, i)],
        ),
    decreases separators.len() - i,
{
    if i < separators.len() && !K::before(key, separators[i]) {
        lemma_child_from::<K>(separators, key, i + 1);
    }
}

proof fn lemma_place_from<K: TreeKey>(entries: Seq<EntryView<K::V>>, key: K::V, i: int)
    requires
        0 <= i <= entries.len(),
    ensures
        i <= place_from::<K>(entries, key, i) <= entries.len(),
        forall|j: int|
            i <= j < place_from::<K>(entries, key, i) ==> K::before(
                (#[trigger] entries[j]).key,
                key,
            ),
        place_from::<K>(entries, key, i) < entries.len() ==> !K::before(
            entries[place_from::<K>(entries, key, i)].key,
            key,
        ),
    decreases entries.len() - i,
{
    if i < entries.len() && K::before(entries[i].key, key) {
        lemma_place_from::<K>(entries, key, i + 1);
    }
}

proof fn lemma_entry_from<K: TreeKey>(entries: Seq<EntryView<K::V>>, key: K::V, i: int)
    requires
        0 <= i <= entries.len(),
        entries_rise::<K>(entries),
    ensures
        match entry_from::<K>(entries, key, i) {
            Some(v) => exists|j: int|
                i <= j < entries.len() && #[trigger] entries[j] == (EntryView { key, value: v }),
            None => forall|j: int| i <= j < entries.len() ==> (#[trigger] entries[j]).key != key,
        },
    decreases entries.len() - i,
{
    if i < entries.len() {
        if entries[i].key == key {
            assert(entries[i] == (EntryView { key, value: entries[i].value }));
        } else {
            lemma_entry_from::<K>(entries, key, i + 1);
        }
    }
}

/// The child that a key leads to is the one whose place it belongs to.
proof fn lemma_child_belongs<K: TreeKey>(p: Place<K::V>, separators: Seq<K::V>, key: K::V)
    requires
        belongs::<K>(p, key),
    ensures
        ({
            let i = child_from::<K>(separators, key, 0);
            0 <= i <= separators.len() && belongs::<K>(child_place(p, separators, i), key)
        }),
{
    lemma_order::<K>();
    lemma_child_from::<K>(separators, key, 0);
    let i = child_from::<K>(separators, key, 0);
    if i > 0 {
        assert(!K::before(key, separators[i - 1]));
        K::before_total(key, separators[i - 1]);
    }
}

/// A key that belongs to the place of a child belongs to the place of its parent.
proof fn lemma_parent_belongs<K: TreeKey>(p: Place<K::V>, separators: Seq<K::V>, i: int, key: K::V)
    requires
        0 <= i <= separators.len(),
        belongs::<K>(child_place(p, separators, i), key),
        forall|j: int|
            0 <= j < separators.len() ==> belongs::<K>(p, #[trigger] separators[j]),
    ensures
        belongs::<K>(p, key),
{
    lemma_order::<K>();
    if i > 0 {
        assert(belongs::<K>(p, separators[i - 1]));
    }
    if i < separators.len() {
        assert(belongs::<K>(p, separators[i]));
    }
}

/// The leaf that a key leads to.
proof fn lemma_leaf_for<K: TreeKey>(
    s: Shape<K::V>,
    m: PagerModel,
    id: PageId,
    key: K::V,
    depth: nat,
) -> (leaf: PageId)
    requires
        s.sound::<K>(m),
        s.nodes.dom().contains(id),
        belongs::<K>(s.places[id], key),
        s.places[id].height < depth,
        path_read::<K>(m, s.nodes, id, key, depth),
    ensures
        s.nodes.dom().contains(leaf),
        s.nodes[leaf] is Leaf,
        s.places[leaf].height == 0,
        belongs::<K>(s.places[leaf], key),
        leaf_for::<K>(m, id, key, depth) == Ok::<_, ErrorView>(s.nodes[leaf]),
    decreases depth,
{
    match s.nodes[id] {
        NodeView::Leaf { .. } => id,
        NodeView::Internal { separators, children } => {
            assert(s.in_order::<K>(s.nodes[id], s.places[id]));
            lemma_child_belongs::<K>(s.places[id], separators, key);
            let i = child_from::<K>(separators, key, 0);
            assert(s.places.dom().contains(children[i]));
            lemma_leaf_for::<K>(s, m, children[i], key, (depth - 1) as nat)
        },
    }
}

/// A key has at most one value, and it is in the leaf that the key belongs to.
proof fn lemma_has_at<K: TreeKey>(s: Shape<K::V>, m: PagerModel, leaf: PageId, key: K::V)
    requires
        s.sound::<K>(m),
        s.nodes.dom().contains(leaf),
        s.nodes[leaf] is Leaf,
        belongs::<K>(s.places[leaf], key),
    ensures
        match entry_from::<K>(s.nodes[leaf]->entries, key, 0) {
            Some(v) => s.has(key, v) && forall|w: Seq<u8>| #[trigger] s.has(key, w) ==> w == v,
            None => forall|w: Seq<u8>| !#[trigger] s.has(key, w),
        },
{
    lemma_order::<K>();
    let entries = s.nodes[leaf]->entries;
    assert(s.in_order::<K>(s.nodes[leaf], s.places[leaf]));
    lemma_entry_from::<K>(entries, key, 0);
    match entry_from::<K>(entries, key, 0) {
        Some(v) => {
            let j = choose|j: int|
                0 <= j < entries.len() && #[trigger] entries[j] == (EntryView { key, value: v });
            assert(s.entry_at(leaf, j, key, v));
        },
        None => {},
    }
    assert forall|w: Seq<u8>| #[trigger] s.has(key, w) implies exists|j: int|
        0 <= j < entries.len() && #[trigger] entries[j] == (EntryView { key, value: w }) by {
        let (id, i) = choose|id: PageId, i: int| #[trigger] s.entry_at(id, i, key, w);
        assert(s.in_order::<K>(s.nodes[id], s.places[id]));
        assert(belongs::<K>(s.places[id], s.nodes[id]->entries[i].key));
        assert(id == leaf);
        assert(entries[i] == (EntryView { key, value: w }));
    }
}

/// What the tree below a root holds under a key.
pub open spec fn value_in<A>(contents: Map<A, Seq<u8>>, key: A) -> Option<Seq<u8>> {
    if contents.dom().contains(key) {
        Some(contents[key])
    } else {
        None
    }
}

/// Looking for a key finds what the tree holds.
pub proof fn lemma_found<K: TreeKey>(s: Shape<K::V>, m: PagerModel, root: PageId, key: K::V)
    requires
        s.is_tree::<K>(m, root),
        path_read::<K>(m, s.nodes, root, key, MAX_PAGES as nat),
    ensures
        found::<K>(m, root, key) == Ok::<_, ErrorView>(value_in(s.contents(), key)),
{
    lemma_few_pages(s.nodes.dom());
    let leaf = lemma_leaf_for::<K>(s, m, root, key, MAX_PAGES as nat);
    lemma_has_at::<K>(s, m, leaf, key);
}

/// There are no more pages than page numbers.
proof fn lemma_few_pages(pages: Set<PageId>)
    requires
        pages.finite(),
    ensures
        pages.len() <= MAX_PAGES,
{
    let numbers = pages.map(|p: PageId| p.0 as int);
    vstd::set_lib::lemma_int_range(0, MAX_PAGES as int);
    let all = vstd::set_lib::set_int_range(0, MAX_PAGES as int);
    assert(numbers.subset_of(all));
    vstd::set_lib::lemma_len_subset(numbers, all);
    assert(pages.len() == numbers.len()) by {
        vstd::set_lib::lemma_map_size(pages, numbers, |p: PageId| p.0 as int);
    }
}

/// A key has at most one value.
proof fn lemma_one_value<K: TreeKey>(s: Shape<K::V>, m: PagerModel, key: K::V, v: Seq<u8>, w: Seq<u8>)
    requires
        s.sound::<K>(m),
        s.has(key, v),
        s.has(key, w),
    ensures
        v == w,
{
    let (id, i) = choose|id: PageId, i: int| #[trigger] s.entry_at(id, i, key, v);
    assert(s.in_order::<K>(s.nodes[id], s.places[id]));
    assert(belongs::<K>(s.places[id], s.nodes[id]->entries[i].key));
    lemma_has_at::<K>(s, m, id, key);
}

/// Two trees hold the same but for one key.
proof fn lemma_contents_put<K: TreeKey>(
    s: Shape<K::V>,
    m: PagerModel,
    t: Shape<K::V>,
    n: PagerModel,
    key: K::V,
    value: Seq<u8>,
)
    requires
        s.sound::<K>(m),
        t.sound::<K>(n),
        forall|k: K::V, v: Seq<u8>| #[trigger]
            t.has(k, v) <==> (k == key && v == value) || (k != key && s.has(k, v)),
    ensures
        t.contents() == s.contents().insert(key, value),
{
    let a = t.contents();
    let b = s.contents().insert(key, value);
    assert forall|k: K::V| a.dom().contains(k) == b.dom().contains(k) by {
        if a.dom().contains(k) {
            let v = choose|v: Seq<u8>| t.has(k, v);
            assert(t.has(k, v));
            if k != key {
                assert(s.has(k, v));
            }
        }
        if b.dom().contains(k) {
            if k == key {
                assert(t.has(k, value));
            } else {
                let v = choose|v: Seq<u8>| s.has(k, v);
                assert(t.has(k, v));
            }
        }
    }
    assert forall|k: K::V| a.dom().contains(k) implies a[k] == b[k] by {
        let v = choose|v: Seq<u8>| t.has(k, v);
        assert(t.has(k, v));
        if k != key {
            let w = choose|w: Seq<u8>| s.has(k, w);
            assert(s.has(k, v));
            lemma_one_value::<K>(s, m, k, v, w);
        }
    }
    assert(a =~= b);
}

/// Two trees hold the same but for one key that one of them lacks.
proof fn lemma_contents_removed<K: TreeKey>(
    s: Shape<K::V>,
    m: PagerModel,
    t: Shape<K::V>,
    n: PagerModel,
    key: K::V,
)
    requires
        s.sound::<K>(m),
        t.sound::<K>(n),
        forall|k: K::V, v: Seq<u8>| #[trigger] t.has(k, v) <==> k != key && s.has(k, v),
    ensures
        t.contents() == s.contents().remove(key),
{
    let a = t.contents();
    let b = s.contents().remove(key);
    assert forall|k: K::V| a.dom().contains(k) == b.dom().contains(k) by {
        if a.dom().contains(k) {
            let v = choose|v: Seq<u8>| t.has(k, v);
            assert(s.has(k, v));
        }
        if b.dom().contains(k) {
            let v = choose|v: Seq<u8>| s.has(k, v);
            assert(t.has(k, v));
        }
    }
    assert forall|k: K::V| a.dom().contains(k) implies a[k] == b[k] by {
        let v = choose|v: Seq<u8>| t.has(k, v);
        assert(t.has(k, v));
        let w = choose|w: Seq<u8>| s.has(k, w);
        assert(s.has(k, v));
        lemma_one_value::<K>(s, m, k, v, w);
    }
    assert(a =~= b);
}

// ---------------------------------------------------------------------------
// Writing pages

proof fn lemma_written<K: TreeKey>(m: PagerModel, txn: u64, id: PageId, n: NodeView<K::V>)
    requires
        node_written::<K>(m, txn, id, n).1 is Ok,
    ensures
        holds::<K>(node_written::<K>(m, txn, id, n).0, id, n),
        id.0 < m.meta.page_count,
        node_written::<K>(m, txn, id, n).0.meta.page_count == m.meta.page_count,
        forall|x: PageId|
            x != id ==> #[trigger] node_written::<K>(m, txn, id, n).0.read(x) == m.read(x),
{
}

proof fn lemma_allocated(m: PagerModel, txn: u64, kind: PageKind)
    requires
        m.allocated(txn, kind).1 is Ok,
    ensures
        m.allocated(txn, kind).1->Ok_0.0 == m.meta.page_count,
        m.allocated(txn, kind).0.meta.page_count == m.meta.page_count + 1,
        forall|x: PageId|
            x.0 != m.meta.page_count ==> #[trigger] m.allocated(txn, kind).0.read(x) == m.read(x),
{
}

/// Whether what was done to the pages of a tree left all other pages as they were: the tree
/// grew by new pages alone.
pub open spec fn grown(m: PagerModel, before: Set<PageId>, after: PagerModel, now: Set<PageId>) -> bool {
    &&& before.subset_of(now)
    &&& m.meta.page_count <= after.meta.page_count
    &&& forall|x: PageId| #[trigger]
        now.contains(x) && !before.contains(x) ==> x.0 >= m.meta.page_count
    &&& forall|x: PageId|
        x.0 < m.meta.page_count && !before.contains(x) ==> #[trigger] after.read(x) == m.read(x)
}

/// A tree that grew twice grew.
pub proof fn lemma_grown_twice(
    a: PagerModel,
    first: Set<PageId>,
    b: PagerModel,
    second: Set<PageId>,
    c: PagerModel,
    third: Set<PageId>,
)
    requires
        grown(a, first, b, second),
        grown(b, second, c, third),
    ensures
        grown(a, first, c, third),
{
    assert forall|x: PageId| x.0 < a.meta.page_count && !first.contains(x) implies #[trigger] c.read(x)
        == a.read(x) by {
        assert(!second.contains(x));
        assert(b.read(x) == a.read(x));
    }
    assert forall|x: PageId| #[trigger] third.contains(x) && !first.contains(x) implies x.0
        >= a.meta.page_count by {
        if second.contains(x) {
            assert(x.0 >= a.meta.page_count);
        }
    }
}

/// A tree of which one page was written, and to which one page was added.
proof fn lemma_grown_by_page(
    m: PagerModel,
    pages: Set<PageId>,
    a: PagerModel,
    b: PagerModel,
    after: PagerModel,
    id: PageId,
    new: PageId,
)
    requires
        pages.contains(id),
        new.0 == m.meta.page_count,
        a.meta.page_count == m.meta.page_count + 1,
        b.meta.page_count == a.meta.page_count,
        after.meta.page_count == b.meta.page_count,
        forall|x: PageId| x.0 != m.meta.page_count ==> #[trigger] a.read(x) == m.read(x),
        forall|x: PageId| x != id ==> #[trigger] b.read(x) == a.read(x),
        forall|x: PageId| x != new ==> #[trigger] after.read(x) == b.read(x),
    ensures
        grown(m, pages, after, pages.insert(new)),
{
    assert forall|x: PageId| x.0 < m.meta.page_count && !pages.contains(x) implies #[trigger] after.read(
        x,
    ) == m.read(x) by {
        assert(after.read(x) == b.read(x));
        assert(b.read(x) == a.read(x));
        assert(a.read(x) == m.read(x));
    }
}

// ---------------------------------------------------------------------------
// Putting a value under a key

/// Whether a list of entries has a key with a value.
pub open spec fn listed<A>(entries: Seq<EntryView<A>>, key: A, value: Seq<u8>) -> bool {
    exists|j: int| 0 <= j < entries.len() && #[trigger] entries[j] == (EntryView { key, value })
}

proof fn lemma_entries_put<K: TreeKey>(
    entries: Seq<EntryView<K::V>>,
    key: K::V,
    value: Seq<u8>,
    p: Place<K::V>,
)
    requires
        entries_rise::<K>(entries),
        belongs::<K>(p, key),
        forall|i: int| 0 <= i < entries.len() ==> belongs::<K>(p, (#[trigger] entries[i]).key),
    ensures
        ({
            let e = entries_put::<K>(entries, key, value);
            &&& entries_rise::<K>(e)
            &&& e.len() <= entries.len() + 1
            &&& forall|i: int| 0 <= i < e.len() ==> belongs::<K>(p, (#[trigger] e[i]).key)
            &&& forall|k: K::V, v: Seq<u8>| #[trigger]
                listed(e, k, v) <==> (k == key && v == value) || (k != key && listed(entries, k, v))
        }),
{
    lemma_order::<K>();
    lemma_place_from::<K>(entries, key, 0);
    let at = place_from::<K>(entries, key, 0);
    let e = entries_put::<K>(entries, key, value);
    let present = at < entries.len() && entries[at].key == key;
    if at < entries.len() && !present {
        K::before_total(entries[at].key, key);
    }
    assert forall|j: int| at < j < entries.len() implies K::before(
        key,
        (#[trigger] entries[j]).key,
    ) by {
        assert(K::before(entries[at].key, entries[j].key));
    }
    assert(e[at] == (EntryView { key, value }));
    if present {
        assert forall|j: int| 0 <= j < e.len() && j != at implies #[trigger] e[j] == entries[j] by {}
    } else {
        assert forall|j: int| 0 <= j < at implies #[trigger] e[j] == entries[j] by {}
        assert forall|j: int| at < j < e.len() implies #[trigger] e[j] == entries[j - 1] by {}
    }
    assert forall|i: int, j: int| #![trigger e[i], e[j]] 0 <= i < j < e.len() implies K::before(
        e[i].key,
        e[j].key,
    ) by {}
    assert forall|k: K::V, v: Seq<u8>| #[trigger] listed(e, k, v) <==> (k == key && v == value) || (k
        != key && listed(entries, k, v)) by {
        if listed(e, k, v) {
            let j = choose|j: int|
                0 <= j < e.len() && #[trigger] e[j] == (EntryView { key: k, value: v });
            if j != at {
                if present || j < at {
                    assert(entries[j] == e[j]);
                } else {
                    assert(entries[j - 1] == e[j]);
                }
            }
        }
        if k == key && v == value {
            assert(e[at] == (EntryView { key: k, value: v }));
        }
        if k != key && listed(entries, k, v) {
            let j = choose|j: int|
                0 <= j < entries.len() && #[trigger] entries[j] == (EntryView { key: k, value: v });
            if present || j < at {
                assert(e[j] == entries[j]);
            } else {
                assert(e[j + 1] == entries[j]);
            }
        }
    }
}

/// Whether an entry stands in a page that is new or is a certain one.
pub open spec fn newly<A>(
    s: Shape<A>,
    t: Shape<A>,
    id: PageId,
    key: A,
    value: Seq<u8>,
) -> bool {
    exists|x: PageId, i: int| #[trigger]
        t.entry_at(x, i, key, value) && (x == id || !s.nodes.dom().contains(x))
}

proof fn lemma_has_put<K: TreeKey>(
    s: Shape<K::V>,
    m: PagerModel,
    t: Shape<K::V>,
    id: PageId,
    after: Seq<EntryView<K::V>>,
    key: K::V,
    value: Seq<u8>,
)
    requires
        s.sound::<K>(m),
        s.nodes.dom().contains(id),
        s.nodes[id] is Leaf,
        belongs::<K>(s.places[id], key),
        forall|k: K::V, v: Seq<u8>| #[trigger]
            listed(after, k, v) <==> (k == key && v == value) || (k != key && listed(
                s.nodes[id]->entries,
                k,
                v,
            )),
        forall|x: PageId| #[trigger]
            s.nodes.dom().contains(x) ==> t.nodes.dom().contains(x) && (x != id ==> t.nodes[x]
                == s.nodes[x]),
        forall|k: K::V, v: Seq<u8>| #[trigger] newly(s, t, id, k, v) <==> listed(after, k, v),
    ensures
        forall|k: K::V, v: Seq<u8>| #[trigger]
            t.has(k, v) <==> (k == key && v == value) || (k != key && s.has(k, v)),
{
    let entries = s.nodes[id]->entries;
    assert(s.in_order::<K>(s.nodes[id], s.places[id]));
    assert forall|k: K::V, v: Seq<u8>| #[trigger] t.has(k, v) <==> (k == key && v == value) || (k
        != key && s.has(k, v)) by {
        if t.has(k, v) {
            let (x, i) = choose|x: PageId, i: int| #[trigger] t.entry_at(x, i, k, v);
            if x == id || !s.nodes.dom().contains(x) {
                assert(newly(s, t, id, k, v));
                assert(listed(after, k, v));
                if k != key {
                    let j = choose|j: int|
                        0 <= j < entries.len() && #[trigger] entries[j] == (EntryView {
                            key: k,
                            value: v,
                        });
                    assert(s.entry_at(id, j, k, v));
                }
            } else {
                assert(s.entry_at(x, i, k, v));
                assert(s.in_order::<K>(s.nodes[x], s.places[x]));
                assert(belongs::<K>(s.places[x], s.nodes[x]->entries[i].key));
            }
        }
        if k == key && v == value {
            assert(listed(after, k, v));
            assert(newly(s, t, id, k, v));
            let (x, i) = choose|x: PageId, i: int| #[trigger]
                t.entry_at(x, i, k, v) && (x == id || !s.nodes.dom().contains(x));
            assert(t.entry_at(x, i, k, v));
        }
        if k != key && s.has(k, v) {
            let (x, i) = choose|x: PageId, i: int| #[trigger] s.entry_at(x, i, k, v);
            if x == id {
                assert(entries[i] == (EntryView { key: k, value: v }));
                assert(listed(entries, k, v));
                assert(listed(after, k, v));
                assert(newly(s, t, id, k, v));
                let (y, j) = choose|y: PageId, j: int| #[trigger]
                    t.entry_at(y, j, k, v) && (y == id || !s.nodes.dom().contains(y));
                assert(t.entry_at(y, j, k, v));
            } else {
                assert(t.entry_at(x, i, k, v));
            }
        }
    }
}

/// What holds of a tree once a value is put under a key below a page.
pub open spec fn put_done<K: TreeKey>(
    s: Shape<K::V>,
    t: Shape<K::V>,
    after: PagerModel,
    id: PageId,
    key: K::V,
    value: Seq<u8>,
    split: Option<SplitView<K::V>>,
) -> bool {
    let p = s.places[id];
    &&& s.nodes.dom().subset_of(t.nodes.dom())
    &&& forall|k: K::V, v: Seq<u8>| #[trigger]
        t.has(k, v) <==> (k == key && v == value) || (k != key && s.has(k, v))
    &&& forall|x: PageId| #[trigger]
        s.nodes.dom().contains(x) ==> t.places[x].height == s.places[x].height
    &&& forall|x: PageId| #[trigger]
        s.nodes.dom().contains(x) && s.places[x].height > p.height ==> t.nodes[x] == s.nodes[x]
    &&& forall|x: PageId| #[trigger]
        s.nodes.dom().contains(x) && s.places[x].height >= p.height && x != id ==> t.places[x]
            == s.places[x]
    &&& match split {
        None => {
            &&& t.sound::<K>(after)
            &&& t.places[id] == p
            &&& forall|x: PageId| #[trigger]
                t.nodes.dom().contains(x) && !s.nodes.dom().contains(x) ==> t.places[x].height
                    < p.height
        },
        Some(split) => {
            &&& t.sound_but::<K>(after, p.height + 1, key)
            &&& !s.nodes.dom().contains(split.right_page_id)
            &&& t.nodes.dom().contains(split.right_page_id)
            &&& belongs::<K>(p, split.separator_key)
            &&& p.low != Some(split.separator_key)
            &&& t.places[id] == (Place { high: Some(split.separator_key), ..p })
            &&& t.places[split.right_page_id] == (Place { low: Some(split.separator_key), ..p })
            &&& forall|x: PageId| #[trigger]
                t.nodes.dom().contains(x) && !s.nodes.dom().contains(x) && x
                    != split.right_page_id ==> t.places[x].height < p.height
        },
    }
}

/// Places stay apart where one is divided at a key.
proof fn lemma_divided_apart<K: TreeKey>(
    s: Shape<K::V>,
    t: Shape<K::V>,
    id: PageId,
    new: PageId,
    key: K::V,
    left_key: K::V,
)
    requires
        s.apart::<K>(),
        s.places.dom().contains(id),
        !s.places.dom().contains(new),
        belongs::<K>(s.places[id], key),
        belongs::<K>(Place { high: Some(key), ..s.places[id] }, left_key),
        t.places == s.places.insert(id, Place { high: Some(key), ..s.places[id] }).insert(
            new,
            Place { low: Some(key), ..s.places[id] },
        ),
    ensures
        t.apart::<K>(),
{
    lemma_order::<K>();
    let p = s.places[id];
    let left = Place { high: Some(key), ..p };
    let right = Place { low: Some(key), ..p };
    assert forall|k: K::V| belongs::<K>(left, k) implies belongs::<K>(p, k) && !belongs::<K>(
        right,
        k,
    ) by {}
    assert forall|k: K::V| belongs::<K>(right, k) implies belongs::<K>(p, k) by {}
    assert forall|a: PageId, b: PageId, k: K::V|
        #![trigger belongs::<K>(t.places[a], k), belongs::<K>(t.places[b], k)]
        t.places.dom().contains(a) && t.places.dom().contains(b) && t.places[a].height
            == t.places[b].height && belongs::<K>(t.places[a], k) && belongs::<K>(
            t.places[b],
            k,
        ) implies a == b by {
        let oa = if a == new {
            id
        } else {
            a
        };
        let ob = if b == new {
            id
        } else {
            b
        };
        assert(belongs::<K>(s.places[oa], k));
        assert(belongs::<K>(s.places[ob], k));
        assert(oa == ob);
    }
    assert forall|a: PageId| #[trigger] t.places.dom().contains(a) implies exists|k: K::V|
        belongs::<K>(t.places[a], k) by {
        if a == new {
            assert(belongs::<K>(t.places[a], key));
        } else if a == id {
            assert(belongs::<K>(t.places[a], left_key));
        } else {
            assert(s.places.dom().contains(a));
            let k = choose|k: K::V| belongs::<K>(s.places[a], k);
            assert(belongs::<K>(t.places[a], k));
        }
    }
}

/// Nodes stay in order where the place of one is divided, but for its parent.
proof fn lemma_divided_order<K: TreeKey>(
    s: Shape<K::V>,
    t: Shape<K::V>,
    id: PageId,
    new: PageId,
    key: K::V,
    x: PageId,
    sought: K::V,
)
    requires
        s.places.dom().contains(id),
        s.places.dom().contains(x),
        !s.places.dom().contains(new),
        x != id,
        belongs::<K>(s.places[id], sought),
        s.in_order::<K>(s.nodes[x], s.places[x]),
        !(s.places[x].height == s.places[id].height + 1 && belongs::<K>(s.places[x], sought)),
        t.places == s.places.insert(id, Place { high: Some(key), ..s.places[id] }).insert(
            new,
            Place { low: Some(key), ..s.places[id] },
        ),
    ensures
        t.in_order::<K>(s.nodes[x], t.places[x]),
{
    match s.nodes[x] {
        NodeView::Leaf { .. } => {},
        NodeView::Internal { separators, children } => {
            let p = s.places[x];
            assert forall|i: int| 0 <= i < children.len() implies {
                &&& t.places.dom().contains(#[trigger] children[i])
                &&& t.places[children[i]] == child_place(p, separators, i)
            } by {
                assert(s.places.dom().contains(children[i]));
                if children[i] == id {
                    lemma_parent_belongs::<K>(p, separators, i, sought);
                }
            }
        },
    }
}

#[verifier::spinoff_prover]
#[verifier::rlimit(60)]
proof fn lemma_leaf_put<K: TreeKey>(
    s: Shape<K::V>,
    m: PagerModel,
    txn: u64,
    id: PageId,
    key: K::V,
    value: Seq<u8>,
) -> (t: Shape<K::V>)
    requires
        s.sound::<K>(m),
        s.nodes.dom().contains(id),
        s.nodes[id] is Leaf,
        belongs::<K>(s.places[id], key),
        leaf_put::<K>(
            m,
            txn,
            id,
            entries_put::<K>(s.nodes[id]->entries, key, value),
            s.nodes[id]->next,
        ).1 is Ok,
    ensures
        ({
            let (after, r) = leaf_put::<K>(
                m,
                txn,
                id,
                entries_put::<K>(s.nodes[id]->entries, key, value),
                s.nodes[id]->next,
            );
            &&& put_done::<K>(s, t, after, id, key, value, r->Ok_0)
            &&& grown(m, s.nodes.dom(), after, t.nodes.dom())
        }),
        t.height == s.height,
{
    lemma_order::<K>();
    let p = s.places[id];
    let entries = s.nodes[id]->entries;
    let next = s.nodes[id]->next;
    assert(s.in_order::<K>(s.nodes[id], p));
    let e = entries_put::<K>(entries, key, value);
    lemma_entries_put::<K>(entries, key, value, p);
    let (after, r) = leaf_put::<K>(m, txn, id, e, next);
    if e.len() <= LEAF_MAX_ENTRIES {
        let n = NodeView::Leaf { entries: e, next };
        let t = Shape { nodes: s.nodes.insert(id, n), ..s };
        lemma_written::<K>(m, txn, id, n);
        assert(t.nodes.dom() =~= s.nodes.dom());
        assert forall|x: PageId| #[trigger] t.nodes.dom().contains(x) implies holds::<K>(
            after,
            x,
            t.nodes[x],
        ) && 2 <= x.0 < after.meta.page_count by {
            if x != id {
                assert(s.nodes.dom().contains(x));
                assert(after.read(x) == m.read(x));
            }
        }
        assert forall|x: PageId| #[trigger] t.nodes.dom().contains(x) implies t.in_order::<K>(
            t.nodes[x],
            t.places[x],
        ) by {
            assert(s.in_order::<K>(s.nodes[x], s.places[x]));
        }
        assert(t.apart::<K>());
        assert forall|k: K::V, v: Seq<u8>| #[trigger] newly(s, t, id, k, v) <==> listed(e, k, v) by {
            if newly(s, t, id, k, v) {
                let (x, i) = choose|x: PageId, i: int| #[trigger]
                    t.entry_at(x, i, k, v) && (x == id || !s.nodes.dom().contains(x));
                assert(e[i] == (EntryView { key: k, value: v }));
            }
            if listed(e, k, v) {
                let j = choose|j: int|
                    0 <= j < e.len() && #[trigger] e[j] == (EntryView { key: k, value: v });
                assert(t.entry_at(id, j, k, v));
            }
        }
        lemma_has_put::<K>(s, m, t, id, e, key, value);
        assert(grown(m, s.nodes.dom(), after, t.nodes.dom()));
        t
    } else {
        let half = (e.len() / 2) as int;
        let sep = e[half].key;
        let (a, ra) = m.allocated(txn, PageKind::Leaf);
        let new = ra->Ok_0;
        lemma_allocated(m, txn, PageKind::Leaf);
        let left = NodeView::Leaf { entries: e.take(half), next: Some(new) };
        let right = NodeView::Leaf { entries: e.skip(half), next };
        let b = node_written::<K>(a, txn, id, left).0;
        lemma_written::<K>(a, txn, id, left);
        lemma_written::<K>(b, txn, new, right);
        assert(!s.nodes.dom().contains(new));
        lemma_grown_by_page(m, s.nodes.dom(), a, b, after, id, new);
        let t = Shape {
            nodes: s.nodes.insert(id, left).insert(new, right),
            places: s.places.insert(id, Place { high: Some(sep), ..p }).insert(
                new,
                Place { low: Some(sep), ..p },
            ),
            ..s
        };
        assert(t.nodes.dom() =~= s.nodes.dom().insert(new));
        assert(t.nodes.dom() =~= t.places.dom());
        assert forall|x: PageId| #[trigger] t.nodes.dom().contains(x) implies holds::<K>(
            after,
            x,
            t.nodes[x],
        ) && 2 <= x.0 < after.meta.page_count by {
            if x != id && x != new {
                assert(s.nodes.dom().contains(x));
                assert(a.read(x) == m.read(x));
                assert(b.read(x) == a.read(x));
                assert(after.read(x) == b.read(x));
            }
            if x == id {
                assert(after.read(x) == b.read(x));
            }
        }
        assert(K::before(e[0].key, e[half].key));
        assert(belongs::<K>(p, e[0].key));
        assert(belongs::<K>(p, e[half].key));
        assert(belongs::<K>(Place { high: Some(sep), ..p }, e[0].key));
        lemma_divided_apart::<K>(s, t, id, new, sep, e[0].key);
        assert(t.in_order::<K>(left, t.places[id])) by {
            let l = e.take(half);
            assert forall|i: int| 0 <= i < l.len() implies belongs::<K>(
                t.places[id],
                (#[trigger] l[i]).key,
            ) by {
                assert(l[i] == e[i]);
                assert(belongs::<K>(p, e[i].key));
                assert(K::before(e[i].key, e[half].key));
            }
            assert forall|i: int, j: int|
                #![trigger l[i], l[j]]
                0 <= i < j < l.len() implies K::before(l[i].key, l[j].key) by {
                assert(K::before(e[i].key, e[j].key));
            }
        }
        assert(t.in_order::<K>(right, t.places[new])) by {
            let q = e.skip(half);
            assert forall|i: int| 0 <= i < q.len() implies belongs::<K>(
                t.places[new],
                (#[trigger] q[i]).key,
            ) by {
                assert(q[i] == e[half + i]);
                assert(belongs::<K>(p, e[half + i].key));
                if i > 0 {
                    assert(K::before(e[half].key, e[half + i].key));
                }
            }
            assert forall|i: int, j: int|
                #![trigger q[i], q[j]]
                0 <= i < j < q.len() implies K::before(q[i].key, q[j].key) by {
                assert(K::before(e[half + i].key, e[half + j].key));
            }
        }
        assert forall|x: PageId| #[trigger]
            t.nodes.dom().contains(x) && !(t.places[x].height == p.height + 1 && belongs::<K>(
                t.places[x],
                key,
            )) implies t.in_order::<K>(t.nodes[x], t.places[x]) by {
            if x != id && x != new {
                assert(s.in_order::<K>(s.nodes[x], s.places[x]));
                lemma_divided_order::<K>(s, t, id, new, sep, x, key);
            }
        }
        assert forall|k: K::V, v: Seq<u8>| #[trigger] newly(s, t, id, k, v) <==> listed(e, k, v) by {
            if newly(s, t, id, k, v) {
                let (x, i) = choose|x: PageId, i: int| #[trigger]
                    t.entry_at(x, i, k, v) && (x == id || !s.nodes.dom().contains(x));
                if x == id {
                    assert(e[i] == (EntryView { key: k, value: v }));
                } else {
                    assert(x == new);
                    assert(e[half + i] == (EntryView { key: k, value: v }));
                }
            }
            if listed(e, k, v) {
                let j = choose|j: int|
                    0 <= j < e.len() && #[trigger] e[j] == (EntryView { key: k, value: v });
                if j < half {
                    assert(t.entry_at(id, j, k, v));
                } else {
                    assert(t.entry_at(new, j - half, k, v));
                }
            }
        }
        lemma_has_put::<K>(s, m, t, id, e, key, value);
        t
    }
}

/// A node whose child was divided is in order once it names both halves.
proof fn lemma_child_divided<K: TreeKey>(
    t: Shape<K::V>,
    p: Place<K::V>,
    separators: Seq<K::V>,
    children: Seq<PageId>,
    i: int,
    split: SplitView<K::V>,
)
    requires
        p.height > 0,
        children.len() == separators.len() + 1,
        keys_rise::<K>(separators),
        forall|j: int|
            0 <= j < separators.len() ==> belongs::<K>(p, #[trigger] separators[j]) && p.low
                != Some(separators[j]),
        0 <= i < children.len(),
        forall|j: int|
            0 <= j < children.len() && j != i ==> {
                &&& t.places.dom().contains(#[trigger] children[j])
                &&& t.places[children[j]] == child_place(p, separators, j)
            },
        belongs::<K>(child_place(p, separators, i), split.separator_key),
        child_place(p, separators, i).low != Some(split.separator_key),
        t.places.dom().contains(children[i]),
        t.places.dom().contains(split.right_page_id),
        t.places[children[i]] == (Place {
            high: Some(split.separator_key),
            ..child_place(p, separators, i)
        }),
        t.places[split.right_page_id] == (Place {
            low: Some(split.separator_key),
            ..child_place(p, separators, i)
        }),
    ensures
        t.in_order::<K>(
            NodeView::Internal {
                separators: separators.insert(i, split.separator_key),
                children: children.insert(i + 1, split.right_page_id),
            },
            p,
        ),
{
    lemma_order::<K>();
    let key = split.separator_key;
    let seps = separators.insert(i, key);
    let pages = children.insert(i + 1, split.right_page_id);
    lemma_parent_belongs::<K>(p, separators, i, key);
    assert forall|j: int| 0 <= j < i implies #[trigger] seps[j] == separators[j] by {}
    assert(seps[i] == key);
    assert forall|j: int| i < j < seps.len() implies #[trigger] seps[j] == separators[j - 1] by {}
    assert forall|j: int| 0 <= j < i implies K::before(#[trigger] separators[j], key) by {
        if j < i - 1 {
            assert(K::before(separators[j], separators[i - 1]));
        }
    }
    assert forall|j: int| i <= j < separators.len() implies K::before(
        key,
        #[trigger] separators[j],
    ) by {
        if j > i {
            assert(K::before(separators[i], separators[j]));
        }
    }
    assert forall|a: int, b: int| #![trigger seps[a], seps[b]] 0 <= a < b < seps.len() implies K::before(
        seps[a],
        seps[b],
    ) by {}
    assert forall|j: int| 0 <= j < seps.len() implies belongs::<K>(p, #[trigger] seps[j]) && p.low
        != Some(seps[j]) by {
        if j == i {
            if i > 0 {
                assert(belongs::<K>(p, separators[i - 1]));
            }
        }
    }
    assert forall|j: int| 0 <= j < pages.len() implies {
        &&& t.places.dom().contains(#[trigger] pages[j])
        &&& t.places[pages[j]] == child_place(p, seps, j)
    } by {
        if j < i {
            assert(pages[j] == children[j]);
            assert(child_place(p, seps, j) == child_place(p, separators, j));
        } else if j == i {
            assert(pages[j] == children[j]);
        } else if j == i + 1 {
            assert(pages[j] == split.right_page_id);
        } else {
            assert(pages[j] == children[j - 1]);
            assert(child_place(p, seps, j) == child_place(p, separators, j - 1));
        }
    }
}

/// A node that is in order can be divided at a separator.
proof fn lemma_node_divided<K: TreeKey>(
    t: Shape<K::V>,
    p: Place<K::V>,
    separators: Seq<K::V>,
    children: Seq<PageId>,
    mid: int,
)
    requires
        t.in_order::<K>(NodeView::Internal { separators, children }, p),
        0 <= mid < separators.len(),
    ensures
        t.in_order::<K>(
            NodeView::Internal { separators: separators.take(mid), children: children.take(mid + 1) },
            Place { high: Some(separators[mid]), ..p },
        ),
        t.in_order::<K>(
            NodeView::Internal {
                separators: separators.skip(mid + 1),
                children: children.skip(mid + 1),
            },
            Place { low: Some(separators[mid]), ..p },
        ),
{
    lemma_order::<K>();
    let key = separators[mid];
    assert(belongs::<K>(p, key));
    let left = Place { high: Some(key), ..p };
    let right = Place { low: Some(key), ..p };
    let (sl, cl) = (separators.take(mid), children.take(mid + 1));
    let (sr, cr) = (separators.skip(mid + 1), children.skip(mid + 1));
    assert forall|j: int| 0 <= j < sl.len() implies belongs::<K>(left, #[trigger] sl[j]) && left.low
        != Some(sl[j]) by {
        assert(sl[j] == separators[j]);
        assert(belongs::<K>(p, separators[j]));
        assert(K::before(separators[j], separators[mid]));
    }
    assert forall|a: int, b: int| #![trigger sl[a], sl[b]] 0 <= a < b < sl.len() implies K::before(
        sl[a],
        sl[b],
    ) by {
        assert(K::before(separators[a], separators[b]));
    }
    assert forall|j: int| 0 <= j < cl.len() implies {
        &&& t.places.dom().contains(#[trigger] cl[j])
        &&& t.places[cl[j]] == child_place(left, sl, j)
    } by {
        assert(cl[j] == children[j]);
        assert(child_place(left, sl, j) == child_place(p, separators, j));
    }
    assert forall|j: int| 0 <= j < sr.len() implies belongs::<K>(right, #[trigger] sr[j]) && right.low
        != Some(sr[j]) by {
        assert(sr[j] == separators[mid + 1 + j]);
        assert(belongs::<K>(p, separators[mid + 1 + j]));
        assert(K::before(separators[mid], separators[mid + 1 + j]));
    }
    assert forall|a: int, b: int| #![trigger sr[a], sr[b]] 0 <= a < b < sr.len() implies K::before(
        sr[a],
        sr[b],
    ) by {
        assert(K::before(separators[mid + 1 + a], separators[mid + 1 + b]));
    }
    assert forall|j: int| 0 <= j < cr.len() implies {
        &&& t.places.dom().contains(#[trigger] cr[j])
        &&& t.places[cr[j]] == child_place(right, sr, j)
    } by {
        assert(cr[j] == children[mid + 1 + j]);
        assert(child_place(right, sr, j) == child_place(p, separators, mid + 1 + j));
    }
}

#[verifier::spinoff_prover]
#[verifier::rlimit(60)]
proof fn lemma_internal_put<K: TreeKey>(
    s: Shape<K::V>,
    c: Shape<K::V>,
    m: PagerModel,
    txn: u64,
    id: PageId,
    key: K::V,
    value: Seq<u8>,
    split: SplitView<K::V>,
    old_model: PagerModel,
) -> (t: Shape<K::V>)
    requires
        s.sound::<K>(old_model),
        s.nodes.dom().contains(id),
        s.nodes[id] is Internal,
        belongs::<K>(s.places[id], key),
        grown(old_model, s.nodes.dom(), m, c.nodes.dom()),
        ({
            let i = child_from::<K>(s.nodes[id]->separators, key, 0);
            &&& put_done::<K>(s, c, m, s.nodes[id]->children[i], key, value, Some(split))
            &&& internal_put::<K>(
                m,
                txn,
                id,
                s.nodes[id]->separators.insert(i, split.separator_key),
                s.nodes[id]->children.insert(i + 1, split.right_page_id),
            ).1 is Ok
        }),
    ensures
        ({
            let i = child_from::<K>(s.nodes[id]->separators, key, 0);
            let (after, r) = internal_put::<K>(
                m,
                txn,
                id,
                s.nodes[id]->separators.insert(i, split.separator_key),
                s.nodes[id]->children.insert(i + 1, split.right_page_id),
            );
            &&& put_done::<K>(s, t, after, id, key, value, r->Ok_0)
            &&& grown(old_model, s.nodes.dom(), after, t.nodes.dom())
        }),
        t.height == c.height,
{
    lemma_order::<K>();
    let p = s.places[id];
    let separators = s.nodes[id]->separators;
    let children = s.nodes[id]->children;
    assert(s.in_order::<K>(s.nodes[id], p));
    lemma_child_belongs::<K>(p, separators, key);
    let i = child_from::<K>(separators, key, 0);
    let child = children[i];
    assert(s.places.dom().contains(child));
    assert(s.nodes.dom().contains(child));
    assert(s.places[child] == child_place(p, separators, i));
    let seps = separators.insert(i, split.separator_key);
    let pages = children.insert(i + 1, split.right_page_id);
    assert(c.places[id] == p);
    assert forall|j: int| 0 <= j < children.len() && j != i implies {
        &&& c.places.dom().contains(#[trigger] children[j])
        &&& c.places[children[j]] == child_place(p, separators, j)
    } by {
        assert(s.places.dom().contains(children[j]));
        assert(s.nodes.dom().contains(children[j]));
        assert(children[j] != child) by {
            if children[j] == child {
                assert(child_place(p, separators, j) == child_place(p, separators, i));
                if i < j {
                    assert(separators[j - 1] == separators[j - 1]);
                    if i > 0 {
                        assert(K::before(separators[i - 1], separators[j - 1]));
                    }
                } else {
                    if j > 0 {
                        assert(K::before(separators[j - 1], separators[i - 1]));
                    }
                }
            }
        }
    }
    lemma_child_divided::<K>(c, p, separators, children, i, split);
    let whole = NodeView::Internal { separators: seps, children: pages };
    assert(c.in_order::<K>(whole, p));
    let (after, r) = internal_put::<K>(m, txn, id, seps, pages);
    assert forall|x: PageId| #[trigger] c.nodes.dom().contains(x) && x != id implies c.in_order::<K>(
        c.nodes[x],
        c.places[x],
    ) by {
        if c.places[x].height == s.places[child].height + 1 && belongs::<K>(c.places[x], key) {
            assert(belongs::<K>(c.places[id], key));
        }
    }
    if seps.len() <= INTERNAL_MAX_KEYS {
        let t = Shape { nodes: c.nodes.insert(id, whole), ..c };
        lemma_written::<K>(m, txn, id, whole);
        assert(t.nodes.dom() =~= c.nodes.dom());
        assert forall|x: PageId| #[trigger] t.nodes.dom().contains(x) implies holds::<K>(
            after,
            x,
            t.nodes[x],
        ) && 2 <= x.0 < after.meta.page_count by {
            if x != id {
                assert(c.nodes.dom().contains(x));
                assert(after.read(x) == m.read(x));
            }
        }
        assert forall|x: PageId| #[trigger] t.nodes.dom().contains(x) implies t.in_order::<K>(
            t.nodes[x],
            t.places[x],
        ) by {
            if x != id {
                assert(c.in_order::<K>(c.nodes[x], c.places[x]));
            }
        }
        assert(t.apart::<K>());
        lemma_same_entries::<K>(c, t, id);
        assert(grown(m, c.nodes.dom(), after, c.nodes.dom()));
        lemma_grown_twice(old_model, s.nodes.dom(), m, c.nodes.dom(), after, c.nodes.dom());
        t
    } else {
        let mid = (seps.len() / 2) as int;
        let sep = seps[mid];
        let (a, ra) = m.allocated(txn, PageKind::Internal);
        let new = ra->Ok_0;
        lemma_allocated(m, txn, PageKind::Internal);
        let left = NodeView::Internal {
            separators: seps.take(mid),
            children: pages.take(mid + 1),
        };
        let right = NodeView::Internal {
            separators: seps.skip(mid + 1),
            children: pages.skip(mid + 1),
        };
        let b = node_written::<K>(a, txn, id, left).0;
        lemma_written::<K>(a, txn, id, left);
        lemma_written::<K>(b, txn, new, right);
        assert(!c.nodes.dom().contains(new));
        assert(!s.nodes.dom().contains(new));
        lemma_grown_by_page(m, c.nodes.dom(), a, b, after, id, new);
        lemma_grown_twice(
            old_model,
            s.nodes.dom(),
            m,
            c.nodes.dom(),
            after,
            c.nodes.dom().insert(new),
        );
        lemma_node_divided::<K>(c, p, seps, pages, mid);
        let lp = Place { high: Some(sep), ..p };
        let rp = Place { low: Some(sep), ..p };
        let t = Shape {
            nodes: c.nodes.insert(id, left).insert(new, right),
            places: c.places.insert(id, lp).insert(new, rp),
            ..c
        };
        assert(t.nodes.dom() =~= c.nodes.dom().insert(new));
        assert(t.nodes.dom() =~= t.places.dom());
        assert forall|x: PageId| #[trigger] t.nodes.dom().contains(x) implies holds::<K>(
            after,
            x,
            t.nodes[x],
        ) && 2 <= x.0 < after.meta.page_count by {
            if x != id && x != new {
                assert(c.nodes.dom().contains(x));
                assert(a.read(x) == m.read(x));
                assert(b.read(x) == a.read(x));
                assert(after.read(x) == b.read(x));
            }
            if x == id {
                assert(after.read(x) == b.read(x));
            }
        }
        let first = pages[0];
        assert(c.places.dom().contains(first));
        let k0 = choose|k: K::V| belongs::<K>(c.places[first], k);
        assert(pages.take(mid + 1)[0] == first);
        assert(c.places[first] == child_place(lp, seps.take(mid), 0));
        assert forall|j: int| 0 <= j < seps.take(mid).len() implies belongs::<K>(
            lp,
            #[trigger] seps.take(mid)[j],
        ) by {}
        lemma_parent_belongs::<K>(lp, seps.take(mid), 0, k0);
        assert(belongs::<K>(p, sep));
        lemma_divided_apart::<K>(c, t, id, new, sep, k0);
        assert(t.in_order::<K>(left, lp)) by {
            let q = pages.take(mid + 1);
            assert forall|j: int| 0 <= j < q.len() implies {
                &&& t.places.dom().contains(#[trigger] q[j])
                &&& t.places[q[j]] == child_place(lp, seps.take(mid), j)
            } by {
                assert(c.places.dom().contains(q[j]));
                assert(c.places[q[j]].height == (p.height - 1) as nat);
                assert(q[j] != id);
            }
        }
        assert(t.in_order::<K>(right, rp)) by {
            let q = pages.skip(mid + 1);
            assert forall|j: int| 0 <= j < q.len() implies {
                &&& t.places.dom().contains(#[trigger] q[j])
                &&& t.places[q[j]] == child_place(rp, seps.skip(mid + 1), j)
            } by {
                assert(c.places.dom().contains(q[j]));
                assert(c.places[q[j]].height == (p.height - 1) as nat);
                assert(q[j] != id);
            }
        }
        assert forall|x: PageId| #[trigger]
            t.nodes.dom().contains(x) && !(t.places[x].height == p.height + 1 && belongs::<K>(
                t.places[x],
                key,
            )) implies t.in_order::<K>(t.nodes[x], t.places[x]) by {
            if x != id && x != new {
                assert(c.nodes.dom().contains(x));
                assert(c.in_order::<K>(c.nodes[x], c.places[x]));
                lemma_divided_order::<K>(c, t, id, new, sep, x, key);
            }
        }
        lemma_same_entries::<K>(c, t, id);
        t
    }
}

/// A tree in which only a node above the leaves is another, and nodes above the leaves are
/// added, holds the same.
proof fn lemma_same_entries<K: TreeKey>(s: Shape<K::V>, t: Shape<K::V>, id: PageId)
    requires
        s.nodes.dom().contains(id) ==> s.nodes[id] is Internal,
        t.nodes.dom().contains(id) ==> t.nodes[id] is Internal,
        forall|x: PageId| #[trigger]
            s.nodes.dom().contains(x) && x != id ==> t.nodes.dom().contains(x) && t.nodes[x]
                == s.nodes[x],
        forall|x: PageId| #[trigger]
            t.nodes.dom().contains(x) && !s.nodes.dom().contains(x) ==> t.nodes[x] is Internal,
    ensures
        forall|k: K::V, v: Seq<u8>| #[trigger] t.has(k, v) == s.has(k, v),
{
    assert forall|k: K::V, v: Seq<u8>| #[trigger] t.has(k, v) == s.has(k, v) by {
        if t.has(k, v) {
            let (x, i) = choose|x: PageId, i: int| #[trigger] t.entry_at(x, i, k, v);
            assert(s.entry_at(x, i, k, v));
        }
        if s.has(k, v) {
            let (x, i) = choose|x: PageId, i: int| #[trigger] s.entry_at(x, i, k, v);
            assert(t.entry_at(x, i, k, v));
        }
    }
}

proof fn lemma_put_below<K: TreeKey>(
    s: Shape<K::V>,
    m: PagerModel,
    txn: u64,
    id: PageId,
    key: K::V,
    value: Seq<u8>,
    depth: nat,
) -> (t: Shape<K::V>)
    requires
        s.sound::<K>(m),
        s.nodes.dom().contains(id),
        belongs::<K>(s.places[id], key),
        s.places[id].height < depth,
        path_read::<K>(m, s.nodes, id, key, depth),
        put_below::<K>(m, txn, id, key, value, depth).1 is Ok,
    ensures
        ({
            let (after, r) = put_below::<K>(m, txn, id, key, value, depth);
            &&& put_done::<K>(s, t, after, id, key, value, r->Ok_0)
            &&& grown(m, s.nodes.dom(), after, t.nodes.dom())
        }),
        t.height == s.height,
    decreases depth,
{
    assert(s.in_order::<K>(s.nodes[id], s.places[id]));
    match s.nodes[id] {
        NodeView::Leaf { entries, next } => lemma_leaf_put::<K>(s, m, txn, id, key, value),
        NodeView::Internal { separators, children } => {
            lemma_child_belongs::<K>(s.places[id], separators, key);
            let i = child_from::<K>(separators, key, 0);
            assert(s.places.dom().contains(children[i]));
            let c = lemma_put_below::<K>(s, m, txn, children[i], key, value, (depth - 1) as nat);
            let (after, r) = put_below::<K>(m, txn, children[i], key, value, (depth - 1) as nat);
            match r->Ok_0 {
                None => c,
                Some(split) => lemma_internal_put::<K>(
                    s,
                    c,
                    after,
                    txn,
                    id,
                    key,
                    value,
                    split,
                    m,
                ),
            }
        },
    }
}

/// Putting a value under a key that is there already divides no page.
proof fn lemma_put_known<K: TreeKey>(
    s: Shape<K::V>,
    m: PagerModel,
    txn: u64,
    id: PageId,
    key: K::V,
    value: Seq<u8>,
    depth: nat,
)
    requires
        s.sound::<K>(m),
        s.nodes.dom().contains(id),
        belongs::<K>(s.places[id], key),
        s.places[id].height < depth,
        path_read::<K>(m, s.nodes, id, key, depth),
        put_below::<K>(m, txn, id, key, value, depth).1 is Ok,
        exists|v: Seq<u8>| s.has(key, v),
    ensures
        put_below::<K>(m, txn, id, key, value, depth).1->Ok_0 is None,
    decreases depth,
{
    assert(s.in_order::<K>(s.nodes[id], s.places[id]));
    match s.nodes[id] {
        NodeView::Leaf { entries, next } => {
            lemma_order::<K>();
            lemma_has_at::<K>(s, m, id, key);
            lemma_entry_from::<K>(entries, key, 0);
            lemma_place_from::<K>(entries, key, 0);
            let at = place_from::<K>(entries, key, 0);
            let j = choose|j: int| 0 <= j < entries.len() && (#[trigger] entries[j]).key == key;
            assert(0 <= j < entries.len() && entries[j].key == key);
            if at < j {
                assert(K::before(entries[at].key, entries[j].key));
            }
        },
        NodeView::Internal { separators, children } => {
            lemma_child_belongs::<K>(s.places[id], separators, key);
            let i = child_from::<K>(separators, key, 0);
            assert(s.places.dom().contains(children[i]));
            lemma_put_known::<K>(s, m, txn, children[i], key, value, (depth - 1) as nat);
        },
    }
}

/// Whether the pages below a root are a tree that holds certain keys with their values.
pub open spec fn tree_holds<K: TreeKey>(
    m: PagerModel,
    root: PageId,
    pages: Set<PageId>,
    contents: Map<K::V, Seq<u8>>,
) -> bool {
    exists|s: Shape<K::V>| #[trigger]
        s.is_tree::<K>(m, root) && s.nodes.dom() == pages && s.contents() == contents
}

/// Whether a tree on some pages became one that holds certain keys with their values, and all
/// other pages are as they were.
pub open spec fn tree_became<K: TreeKey>(
    m: PagerModel,
    pages: Set<PageId>,
    after: PagerModel,
    root: PageId,
    contents: Map<K::V, Seq<u8>>,
) -> bool {
    exists|now: Set<PageId>| #[trigger]
        grown(m, pages, after, now) && tree_holds::<K>(after, root, now, contents)
}

/// A tree stays what it is where another tree grew that has no page of it.
pub proof fn lemma_tree_kept<K: TreeKey>(
    m: PagerModel,
    other: Set<PageId>,
    after: PagerModel,
    now: Set<PageId>,
    root: PageId,
    pages: Set<PageId>,
    contents: Map<K::V, Seq<u8>>,
)
    requires
        tree_holds::<K>(m, root, pages, contents),
        grown(m, other, after, now),
        pages.disjoint(other),
    ensures
        tree_holds::<K>(after, root, pages, contents),
        pages.disjoint(now),
{
    let s = choose|s: Shape<K::V>| #[trigger]
        s.is_tree::<K>(m, root) && s.nodes.dom() == pages && s.contents() == contents;
    assert forall|x: PageId| #[trigger] s.nodes.dom().contains(x) implies holds::<K>(
        after,
        x,
        s.nodes[x],
    ) && 2 <= x.0 < after.meta.page_count by {
        assert(holds::<K>(m, x, s.nodes[x]));
        assert(!other.contains(x));
        assert(after.read(x) == m.read(x));
    }
    assert(s.is_tree::<K>(after, root));
    assert forall|x: PageId| #[trigger] pages.contains(x) implies !now.contains(x) by {
        assert(s.nodes.dom().contains(x));
        assert(holds::<K>(m, x, s.nodes[x]));
        assert(!other.contains(x));
    }
}

/// A tree stays what it is where its pages stay.
pub proof fn lemma_tree_same<K: TreeKey>(
    m: PagerModel,
    after: PagerModel,
    root: PageId,
    pages: Set<PageId>,
    contents: Map<K::V, Seq<u8>>,
)
    requires
        tree_holds::<K>(m, root, pages, contents),
        m.meta.page_count <= after.meta.page_count,
        forall|x: PageId|
            2 <= x.0 && #[trigger] m.read(x) is Ok ==> after.read(x) == m.read(x),
    ensures
        tree_holds::<K>(after, root, pages, contents),
{
    let s = choose|s: Shape<K::V>| #[trigger]
        s.is_tree::<K>(m, root) && s.nodes.dom() == pages && s.contents() == contents;
    assert forall|x: PageId| #[trigger] s.nodes.dom().contains(x) implies holds::<K>(
        after,
        x,
        s.nodes[x],
    ) && 2 <= x.0 < after.meta.page_count by {
        assert(holds::<K>(m, x, s.nodes[x]));
        assert(m.read(x) is Ok);
    }
    assert(s.is_tree::<K>(after, root));
}

/// Putting a value under a key leaves a tree that holds it, and otherwise what it held.
#[verifier::spinoff_prover]
#[verifier::rlimit(60)]
pub proof fn lemma_tree_put<K: TreeKey>(
    s: Shape<K::V>,
    m: PagerModel,
    txn: u64,
    root: PageId,
    key: K::V,
    value: Seq<u8>,
)
    requires
        s.is_tree::<K>(m, root),
        path_read::<K>(m, s.nodes, root, key, MAX_PAGES as nat),
        tree_put::<K>(m, txn, root, key, value).1 is Ok,
    ensures
        tree_became::<K>(
            m,
            s.nodes.dom(),
            tree_put::<K>(m, txn, root, key, value).0,
            tree_put::<K>(m, txn, root, key, value).1->Ok_0,
            s.contents().insert(key, value),
        ),
        s.contents().dom().contains(key) ==> tree_put::<K>(m, txn, root, key, value).1->Ok_0
            == root,
{
    lemma_few_pages(s.nodes.dom());
    if s.contents().dom().contains(key) {
        lemma_put_known::<K>(s, m, txn, root, key, value, MAX_PAGES as nat);
    }
    let c = lemma_put_below::<K>(s, m, txn, root, key, value, MAX_PAGES as nat);
    let (middle, r) = put_below::<K>(m, txn, root, key, value, MAX_PAGES as nat);
    vstd::set_lib::lemma_len_subset(s.nodes.dom(), c.nodes.dom());
    let (after, new_root) = tree_put::<K>(m, txn, root, key, value);
    match r->Ok_0 {
        None => {
            assert(c.is_tree::<K>(after, root));
            lemma_contents_put::<K>(s, m, c, after, key, value);
            assert(tree_holds::<K>(
                after,
                root,
                c.nodes.dom(),
                s.contents().insert(key, value),
            ));
        },
        Some(split) => {
            let (a, ra) = middle.allocated(txn, PageKind::Internal);
            let new = ra->Ok_0;
            lemma_allocated(middle, txn, PageKind::Internal);
            let n = NodeView::Internal {
                separators: seq![split.separator_key],
                children: seq![root, split.right_page_id],
            };
            lemma_written::<K>(a, txn, new, n);
            let top = Place::<K::V> { height: s.height + 1, low: None, high: None };
            let t = Shape {
                nodes: c.nodes.insert(new, n),
                places: c.places.insert(new, top),
                height: s.height + 1,
            };
            assert(!c.nodes.dom().contains(new));
            assert(t.nodes.dom() =~= t.places.dom());
            assert(t.nodes.dom() =~= c.nodes.dom().insert(new));
            assert forall|x: PageId| #[trigger] t.nodes.dom().contains(x) implies holds::<K>(
                after,
                x,
                t.nodes[x],
            ) && 2 <= x.0 < after.meta.page_count by {
                if x != new {
                    assert(c.nodes.dom().contains(x));
                    assert(a.read(x) == middle.read(x));
                    assert(after.read(x) == a.read(x));
                }
            }
            assert forall|x: PageId| #[trigger] c.nodes.dom().contains(x) implies c.places[x].height
                <= s.height by {
                if s.nodes.dom().contains(x) {
                    assert(c.places[x].height == s.places[x].height);
                }
            }
            assert(t.apart::<K>()) by {
                assert forall|x: PageId, y: PageId, k: K::V|
                    #![trigger belongs::<K>(t.places[x], k), belongs::<K>(t.places[y], k)]
                    t.places.dom().contains(x) && t.places.dom().contains(y) && t.places[x].height
                        == t.places[y].height && belongs::<K>(t.places[x], k) && belongs::<K>(
                        t.places[y],
                        k,
                    ) implies x == y by {
                    if x != new && y != new {
                        assert(belongs::<K>(c.places[x], k));
                        assert(belongs::<K>(c.places[y], k));
                    } else if x != y {
                        let other = if x == new {
                            y
                        } else {
                            x
                        };
                        assert(c.nodes.dom().contains(other));
                    }
                }
                assert forall|x: PageId| #[trigger] t.places.dom().contains(x) implies exists|
                    k: K::V,
                |
                    belongs::<K>(t.places[x], k) by {
                    if x == new {
                        assert(belongs::<K>(t.places[x], key));
                    } else {
                        assert(c.places.dom().contains(x));
                        let k = choose|k: K::V| belongs::<K>(c.places[x], k);
                        assert(belongs::<K>(t.places[x], k));
                    }
                }
            }
            assert(t.in_order::<K>(n, top)) by {
                let seps = seq![split.separator_key];
                let pages = seq![root, split.right_page_id];
                assert forall|j: int| 0 <= j < pages.len() implies {
                    &&& t.places.dom().contains(#[trigger] pages[j])
                    &&& t.places[pages[j]] == child_place(top, seps, j)
                } by {
                    if j == 0 {
                        assert(pages[j] == root);
                    } else {
                        assert(pages[j] == split.right_page_id);
                    }
                }
            }
            assert forall|x: PageId| #[trigger] t.nodes.dom().contains(x) implies t.in_order::<K>(
                t.nodes[x],
                t.places[x],
            ) by {
                if x != new {
                    assert(c.nodes.dom().contains(x));
                    assert(c.places[x].height <= s.height);
                    assert(c.in_order::<K>(c.nodes[x], c.places[x]));
                    match c.nodes[x] {
                        NodeView::Leaf { .. } => {},
                        NodeView::Internal { separators, children } => {
                            assert forall|j: int| 0 <= j < children.len() implies {
                                &&& t.places.dom().contains(#[trigger] children[j])
                                &&& t.places[children[j]] == child_place(
                                    c.places[x],
                                    separators,
                                    j,
                                )
                            } by {
                                assert(c.places.dom().contains(children[j]));
                            }
                        },
                    }
                }
            }
            lemma_same_entries::<K>(c, t, new);
            assert(t.is_tree::<K>(after, new));
            lemma_contents_put::<K>(s, m, t, after, key, value);
            assert(tree_holds::<K>(after, new, t.nodes.dom(), s.contents().insert(key, value)));
            assert forall|x: PageId|
                x.0 < middle.meta.page_count && !c.nodes.dom().contains(x) implies #[trigger] after.read(
                x,
            ) == middle.read(x) by {
                assert(after.read(x) == a.read(x));
                assert(a.read(x) == middle.read(x));
            }
            assert(grown(middle, c.nodes.dom(), after, t.nodes.dom()));
            lemma_grown_twice(m, s.nodes.dom(), middle, c.nodes.dom(), after, t.nodes.dom());
        },
    }
}

// ---------------------------------------------------------------------------
// Taking a key out

proof fn lemma_leaf_removed<K: TreeKey>(
    s: Shape<K::V>,
    m: PagerModel,
    txn: u64,
    id: PageId,
    key: K::V,
) -> (t: Shape<K::V>)
    requires
        s.sound::<K>(m),
        s.nodes.dom().contains(id),
        s.nodes[id] is Leaf,
        belongs::<K>(s.places[id], key),
        ({
            let entries = s.nodes[id]->entries;
            let at = place_from::<K>(entries, key, 0);
            &&& at < entries.len()
            &&& entries[at].key == key
            &&& node_written::<K>(
                m,
                txn,
                id,
                NodeView::Leaf { entries: entries.remove(at), next: s.nodes[id]->next },
            ).1 is Ok
        }),
    ensures
        ({
            let entries = s.nodes[id]->entries;
            let at = place_from::<K>(entries, key, 0);
            let after = node_written::<K>(
                m,
                txn,
                id,
                NodeView::Leaf { entries: entries.remove(at), next: s.nodes[id]->next },
            ).0;
            t.sound::<K>(after)
        }),
        t.height == s.height,
        t.places == s.places,
        t.nodes.dom() == s.nodes.dom(),
        forall|k: K::V, v: Seq<u8>| #[trigger] t.has(k, v) <==> k != key && s.has(k, v),
{
    lemma_order::<K>();
    let entries = s.nodes[id]->entries;
    let next = s.nodes[id]->next;
    assert(s.in_order::<K>(s.nodes[id], s.places[id]));
    lemma_place_from::<K>(entries, key, 0);
    let at = place_from::<K>(entries, key, 0);
    let e = entries.remove(at);
    let n = NodeView::Leaf { entries: e, next };
    let after = node_written::<K>(m, txn, id, n).0;
    lemma_written::<K>(m, txn, id, n);
    let t = Shape { nodes: s.nodes.insert(id, n), ..s };
    assert(t.nodes.dom() =~= s.nodes.dom());
    assert forall|x: PageId| #[trigger] t.nodes.dom().contains(x) implies holds::<K>(
        after,
        x,
        t.nodes[x],
    ) && 2 <= x.0 < after.meta.page_count by {
        if x != id {
            assert(s.nodes.dom().contains(x));
            assert(after.read(x) == m.read(x));
        }
    }
    assert forall|j: int| 0 <= j < e.len() implies #[trigger] e[j] == if j < at {
        entries[j]
    } else {
        entries[j + 1]
    } by {}
    assert(t.in_order::<K>(n, t.places[id]));
    assert forall|x: PageId| #[trigger] t.nodes.dom().contains(x) implies t.in_order::<K>(
        t.nodes[x],
        t.places[x],
    ) by {
        assert(s.in_order::<K>(s.nodes[x], s.places[x]));
    }
    assert(t.apart::<K>());
    assert forall|k: K::V, v: Seq<u8>| #[trigger] t.has(k, v) <==> k != key && s.has(k, v) by {
        if t.has(k, v) {
            let (x, i) = choose|x: PageId, i: int| #[trigger] t.entry_at(x, i, k, v);
            if x == id {
                let j = if i < at {
                    i
                } else {
                    i + 1
                };
                assert(entries[j] == e[i]);
                assert(s.entry_at(id, j, k, v));
                if j < at {
                    assert(K::before(entries[j].key, entries[at].key));
                } else {
                    assert(K::before(entries[at].key, entries[j].key));
                }
            } else {
                assert(s.entry_at(x, i, k, v));
                assert(s.in_order::<K>(s.nodes[x], s.places[x]));
                assert(belongs::<K>(s.places[x], s.nodes[x]->entries[i].key));
            }
        }
        if k != key && s.has(k, v) {
            let (x, i) = choose|x: PageId, i: int| #[trigger] s.entry_at(x, i, k, v);
            if x == id {
                if i < at {
                    assert(e[i] == entries[i]);
                    assert(t.entry_at(id, i, k, v));
                } else {
                    assert(e[i - 1] == entries[i]);
                    assert(t.entry_at(id, i - 1, k, v));
                }
            } else {
                assert(t.entry_at(x, i, k, v));
            }
        }
    }
    t
}

proof fn lemma_removed_below<K: TreeKey>(
    s: Shape<K::V>,
    m: PagerModel,
    txn: u64,
    id: PageId,
    key: K::V,
    depth: nat,
) -> (t: Shape<K::V>)
    requires
        s.sound::<K>(m),
        s.nodes.dom().contains(id),
        belongs::<K>(s.places[id], key),
        s.places[id].height < depth,
        path_read::<K>(m, s.nodes, id, key, depth),
        removed_below::<K>(m, txn, id, key, depth).1 is Ok,
    ensures
        t.sound::<K>(removed_below::<K>(m, txn, id, key, depth).0),
        t.height == s.height,
        t.places == s.places,
        t.nodes.dom() == s.nodes.dom(),
        grown(
            m,
            s.nodes.dom(),
            removed_below::<K>(m, txn, id, key, depth).0,
            s.nodes.dom(),
        ),
        forall|k: K::V, v: Seq<u8>| #[trigger] t.has(k, v) <==> k != key && s.has(k, v),
    decreases depth,
{
    lemma_order::<K>();
    assert(s.in_order::<K>(s.nodes[id], s.places[id]));
    match s.nodes[id] {
        NodeView::Leaf { entries, next } => {
            let at = place_from::<K>(entries, key, 0);
            if at < entries.len() && entries[at].key == key {
                lemma_leaf_removed::<K>(s, m, txn, id, key)
            } else {
                lemma_place_from::<K>(entries, key, 0);
                lemma_has_at::<K>(s, m, id, key);
                lemma_entry_from::<K>(entries, key, 0);
                if at < entries.len() {
                    K::before_total(entries[at].key, key);
                }
                assert forall|j: int| 0 <= j < entries.len() implies (#[trigger] entries[j]).key
                    != key by {
                    if j > at {
                        assert(K::before(entries[at].key, entries[j].key));
                    }
                }
                s
            }
        },
        NodeView::Internal { separators, children } => {
            lemma_child_belongs::<K>(s.places[id], separators, key);
            let i = child_from::<K>(separators, key, 0);
            assert(s.places.dom().contains(children[i]));
            lemma_removed_below::<K>(s, m, txn, children[i], key, (depth - 1) as nat)
        },
    }
}

/// Taking a key out leaves a tree that holds what it held, but for the key.
pub proof fn lemma_tree_removed<K: TreeKey>(
    s: Shape<K::V>,
    m: PagerModel,
    txn: u64,
    root: PageId,
    key: K::V,
)
    requires
        s.is_tree::<K>(m, root),
        path_read::<K>(m, s.nodes, root, key, MAX_PAGES as nat),
        removed_below::<K>(m, txn, root, key, MAX_PAGES as nat).1 is Ok,
    ensures
        tree_became::<K>(
            m,
            s.nodes.dom(),
            removed_below::<K>(m, txn, root, key, MAX_PAGES as nat).0,
            root,
            s.contents().remove(key),
        ),
{
    lemma_few_pages(s.nodes.dom());
    let t = lemma_removed_below::<K>(s, m, txn, root, key, MAX_PAGES as nat);
    let after = removed_below::<K>(m, txn, root, key, MAX_PAGES as nat).0;
    assert(t.is_tree::<K>(after, root));
    lemma_contents_removed::<K>(s, m, t, after, key);
    assert(tree_holds::<K>(after, root, s.nodes.dom(), s.contents().remove(key)));
}

/// A new tree holds nothing.
pub proof fn lemma_tree_made<K: TreeKey>(m: PagerModel, txn: u64)
    requires
        2 <= m.meta.page_count,
        tree_made::<K>(m, txn).1 is Ok,
    ensures
        tree_became::<K>(
            m,
            Set::<PageId>::empty(),
            tree_made::<K>(m, txn).0,
            tree_made::<K>(m, txn).1->Ok_0,
            Map::<K::V, Seq<u8>>::empty(),
        ),
{
    let (a, ra) = m.allocated(txn, PageKind::Leaf);
    let id = ra->Ok_0;
    let n = NodeView::<K::V>::Leaf { entries: Seq::empty(), next: None };
    lemma_allocated(m, txn, PageKind::Leaf);
    lemma_written::<K>(a, txn, id, n);
    let after = tree_made::<K>(m, txn).0;
    let p = Place::<K::V> { height: 0, low: None, high: None };
    let s = Shape::<K::V> {
        nodes: Map::<PageId, NodeView<K::V>>::empty().insert(id, n),
        places: Map::<PageId, Place<K::V>>::empty().insert(id, p),
        height: 0,
    };
    assert(s.nodes.dom() =~= Set::<PageId>::empty().insert(id));
    assert(s.places.dom() =~= s.nodes.dom());
    assert(s.in_order::<K>(n, p));
    let k: K::V = arbitrary();
    assert(belongs::<K>(s.places[id], k));
    assert(s.is_tree::<K>(after, id));
    assert(s.contents() =~= Map::<K::V, Seq<u8>>::empty());
    assert(tree_holds::<K>(after, id, s.nodes.dom(), Map::<K::V, Seq<u8>>::empty()));
    assert forall|x: PageId| x.0 < m.meta.page_count implies #[trigger] after.read(x) == m.read(x) by {
        assert(after.read(x) == a.read(x));
        assert(a.read(x) == m.read(x));
    }
    assert(grown(m, Set::<PageId>::empty(), after, s.nodes.dom()));
}

// ---------------------------------------------------------------------------
// Going through all entries

/// Whether a leaf lies before a key.
pub open spec fn ends_by<K: TreeKey>(p: Place<K::V>, key: Option<K::V>) -> bool {
    match (p.high, key) {
        (Some(high), Some(k)) => high == k || K::before(high, k),
        _ => false,
    }
}

/// Whether a leaf lies behind another, or is that one.
pub open spec fn starts_from<K: TreeKey>(p: Place<K::V>, key: Option<K::V>) -> bool {
    match (p.low, key) {
        (_, None) => true,
        (None, Some(_)) => false,
        (Some(low), Some(k)) => low == k || K::before(k, low),
    }
}

/// What has been gathered from leaves.
pub open spec fn gathered<K: TreeKey>(s: Shape<K::V>, seen: Set<PageId>, out: Seq<EntryView<K::V>>) -> bool {
    &&& entries_rise::<K>(out)
    &&& forall|k: K::V, v: Seq<u8>| #[trigger]
        listed(out, k, v) <==> exists|x: PageId, i: int| #[trigger]
            s.entry_at(x, i, k, v) && seen.contains(x)
}

/// Two pages of a height where one begins within the other are the same.
proof fn lemma_begins_within<K: TreeKey>(s: Shape<K::V>, x: PageId, y: PageId)
    requires
        s.apart::<K>(),
        s.places.dom().contains(x),
        s.places.dom().contains(y),
        s.places[x].height == s.places[y].height,
        starts_from::<K>(s.places[x], s.places[y].low),
        !(match (s.places[y].high, s.places[x].low) {
            (Some(high), Some(low)) => high == low || K::before(high, low),
            _ => false,
        }),
    ensures
        x == y,
{
    lemma_order::<K>();
    let kx = choose|k: K::V| belongs::<K>(s.places[x], k);
    let ky = choose|k: K::V| belongs::<K>(s.places[y], k);
    assert(belongs::<K>(s.places[x], kx));
    assert(belongs::<K>(s.places[y], ky));
    match s.places[x].low {
        Some(low) => {
            assert(belongs::<K>(s.places[x], low));
            match s.places[y].high {
                Some(high) => {
                    K::before_total(high, low);
                },
                None => {},
            }
            assert(belongs::<K>(s.places[y], low));
        },
        None => {
            K::before_total(kx, ky);
            if belongs::<K>(s.places[y], kx) {
            } else {
                match s.places[y].high {
                    Some(high) => {
                        K::before_total(kx, high);
                    },
                    None => {},
                }
                assert(belongs::<K>(s.places[x], ky));
            }
        },
    }
}

#[verifier::spinoff_prover]
#[verifier::rlimit(60)]
proof fn lemma_leaves<K: TreeKey>(
    s: Shape<K::V>,
    m: PagerModel,
    id: PageId,
    left: nat,
    seen: Set<PageId>,
    out: Seq<EntryView<K::V>>,
) -> (all: Seq<EntryView<K::V>>)
    requires
        s.sound::<K>(m),
        s.nodes.dom().contains(id),
        s.places[id].height == 0,
        chain_read::<K>(m, s.nodes, Some(id), left),
        seen.finite(),
        seen.len() + left == MAX_PAGES,
        forall|x: PageId| #[trigger]
            seen.contains(x) ==> s.nodes.dom().contains(x) && s.places[x].height == 0
                && ends_by::<K>(s.places[x], s.places[id].low),
        forall|x: PageId| #[trigger]
            s.nodes.dom().contains(x) && s.places[x].height == 0 && !seen.contains(x)
                ==> starts_from::<K>(s.places[x], s.places[id].low),
        gathered::<K>(s, seen, out),
    ensures
        leaves_from::<K>(m, Some(id), left, out) == Ok::<_, ErrorView>(all),
        entries_rise::<K>(all),
        forall|k: K::V, v: Seq<u8>| #[trigger] listed(all, k, v) <==> s.has(k, v),
    decreases left,
{
    lemma_order::<K>();
    let p = s.places[id];
    assert(s.in_order::<K>(s.nodes[id], p));
    let entries = s.nodes[id]->entries;
    let next = s.nodes[id]->next;
    let ki = choose|k: K::V| belongs::<K>(p, k);
    assert(belongs::<K>(p, ki));
    assert(!seen.contains(id)) by {
        if seen.contains(id) {
            assert(ends_by::<K>(p, p.low));
        }
    }
    let more = seen.insert(id);
    assert(more.subset_of(s.nodes.dom()));
    vstd::set_lib::lemma_len_subset(more, s.nodes.dom());
    lemma_few_pages(s.nodes.dom());
    assert(left > 0);
    let longer = out + entries;
    assert forall|i: int| 0 <= i < out.len() implies match p.low {
        Some(low) => K::before((#[trigger] out[i]).key, low),
        None => false,
    } by {
        let e = out[i];
        assert(listed(out, e.key, e.value));
        let (x, j) = choose|x: PageId, j: int| #[trigger]
            s.entry_at(x, j, e.key, e.value) && seen.contains(x);
        assert(s.in_order::<K>(s.nodes[x], s.places[x]));
        assert(belongs::<K>(s.places[x], s.nodes[x]->entries[j].key));
    }
    assert(entries_rise::<K>(longer)) by {
        assert forall|i: int, j: int|
            #![trigger longer[i], longer[j]]
            0 <= i < j < longer.len() implies K::before(longer[i].key, longer[j].key) by {
            if j < out.len() {
                assert(K::before(out[i].key, out[j].key));
            } else if i >= out.len() {
                assert(K::before(entries[i - out.len()].key, entries[j - out.len()].key));
            } else {
                assert(belongs::<K>(p, entries[j - out.len()].key));
                assert(longer[i] == out[i]);
            }
        }
    }
    assert(gathered::<K>(s, more, longer)) by {
        assert forall|k: K::V, v: Seq<u8>| #[trigger] listed(longer, k, v) <==> exists|
            x: PageId,
            i: int,
        | #[trigger]
            s.entry_at(x, i, k, v) && more.contains(x) by {
            if listed(longer, k, v) {
                let j = choose|j: int|
                    0 <= j < longer.len() && #[trigger] longer[j] == (EntryView {
                        key: k,
                        value: v,
                    });
                if j < out.len() {
                    assert(out[j] == (EntryView { key: k, value: v }));
                    assert(listed(out, k, v));
                    let (x, i) = choose|x: PageId, i: int| #[trigger]
                        s.entry_at(x, i, k, v) && seen.contains(x);
                    assert(s.entry_at(x, i, k, v) && more.contains(x));
                } else {
                    assert(s.entry_at(id, j - out.len(), k, v));
                }
            }
            if exists|x: PageId, i: int| #[trigger] s.entry_at(x, i, k, v) && more.contains(x) {
                let (x, i) = choose|x: PageId, i: int| #[trigger]
                    s.entry_at(x, i, k, v) && more.contains(x);
                if x == id {
                    assert(longer[out.len() + i] == (EntryView { key: k, value: v }));
                } else {
                    assert(seen.contains(x));
                    assert(listed(out, k, v));
                    let j = choose|j: int|
                        0 <= j < out.len() && #[trigger] out[j] == (EntryView { key: k, value: v });
                    assert(longer[j] == (EntryView { key: k, value: v }));
                }
            }
        }
    }
    match next {
        None => {
            assert forall|k: K::V, v: Seq<u8>| #[trigger] listed(longer, k, v) <==> s.has(k, v) by {
                if s.has(k, v) {
                    let (x, i) = choose|x: PageId, i: int| #[trigger] s.entry_at(x, i, k, v);
                    assert(s.in_order::<K>(s.nodes[x], s.places[x]));
                    if !seen.contains(x) {
                        assert(starts_from::<K>(s.places[x], p.low));
                        lemma_begins_within::<K>(s, x, id);
                    }
                    assert(s.entry_at(x, i, k, v) && more.contains(x));
                }
                if listed(longer, k, v) {
                    let (x, i) = choose|x: PageId, i: int| #[trigger]
                        s.entry_at(x, i, k, v) && more.contains(x);
                    assert(s.entry_at(x, i, k, v));
                }
            }
            assert(leaves_from::<K>(m, None, (left - 1) as nat, longer) == Ok::<_, ErrorView>(
                longer,
            ));
            longer
        },
        Some(n) => {
            let high = p.high->0;
            assert(s.places[n].low == Some(high));
            assert forall|x: PageId| #[trigger] more.contains(x) implies s.nodes.dom().contains(x)
                && s.places[x].height == 0 && ends_by::<K>(s.places[x], Some(high)) by {
                if x != id {
                    assert(seen.contains(x));
                    assert(ends_by::<K>(s.places[x], p.low));
                    let low = p.low->0;
                    assert(K::before(low, high)) by {
                        assert(low == ki || K::before(low, ki));
                        assert(K::before(ki, high));
                    }
                }
            }
            assert forall|x: PageId| #[trigger]
                s.nodes.dom().contains(x) && s.places[x].height == 0 && !more.contains(
                    x,
                ) implies starts_from::<K>(s.places[x], Some(high)) by {
                assert(starts_from::<K>(s.places[x], p.low));
                if !starts_from::<K>(s.places[x], Some(high)) {
                    match s.places[x].low {
                        Some(low) => {
                            K::before_total(low, high);
                        },
                        None => {},
                    }
                    lemma_begins_within::<K>(s, x, id);
                }
            }
            assert(s.places.dom().contains(n));
            lemma_leaves::<K>(s, m, n, (left - 1) as nat, more, longer)
        },
    }
}

proof fn lemma_first_leaf<K: TreeKey>(s: Shape<K::V>, m: PagerModel, id: PageId, depth: nat) -> (leaf: PageId)
    requires
        s.sound::<K>(m),
        s.nodes.dom().contains(id),
        s.places[id].low is None,
        s.places[id].height < depth,
        edge_read::<K>(m, s.nodes, id, depth),
    ensures
        first_leaf::<K>(m, id, depth) == Ok::<_, ErrorView>(leaf),
        s.nodes.dom().contains(leaf),
        s.places[leaf].height == 0,
        s.places[leaf].low is None,
    decreases depth,
{
    assert(s.in_order::<K>(s.nodes[id], s.places[id]));
    match s.nodes[id] {
        NodeView::Leaf { .. } => id,
        NodeView::Internal { separators, children } => {
            assert(s.places.dom().contains(children[0]));
            assert(s.places[children[0]] == child_place(s.places[id], separators, 0));
            lemma_first_leaf::<K>(s, m, children[0], (depth - 1) as nat)
        },
    }
}

/// Whether entries are what a tree holds, in ascending order of the keys.
pub open spec fn lists_contents<K: TreeKey>(
    entries: Seq<EntryView<K::V>>,
    contents: Map<K::V, Seq<u8>>,
) -> bool {
    &&& entries_rise::<K>(entries)
    &&& forall|k: K::V, v: Seq<u8>| #[trigger]
        listed(entries, k, v) <==> contents.dom().contains(k) && contents[k] == v
}

/// Going through a tree gives what it holds, in ascending order of the keys.
pub proof fn lemma_all_entries<K: TreeKey>(s: Shape<K::V>, m: PagerModel, root: PageId)
    requires
        s.is_tree::<K>(m, root),
        edge_read::<K>(m, s.nodes, root, MAX_PAGES as nat),
        first_leaf::<K>(m, root, MAX_PAGES as nat) matches Ok(first) ==> chain_read::<K>(
            m,
            s.nodes,
            Some(first),
            MAX_PAGES as nat,
        ),
    ensures
        all_entries::<K>(m, root) is Ok,
        lists_contents::<K>(all_entries::<K>(m, root)->Ok_0, s.contents()),
{
    lemma_order::<K>();
    lemma_few_pages(s.nodes.dom());
    let first = lemma_first_leaf::<K>(s, m, root, MAX_PAGES as nat);
    let none = Set::<PageId>::empty();
    let nothing = Seq::<EntryView<K::V>>::empty();
    assert(gathered::<K>(s, none, nothing));
    let all = lemma_leaves::<K>(s, m, first, MAX_PAGES as nat, none, nothing);
    let contents = s.contents();
    assert forall|k: K::V, v: Seq<u8>| #[trigger] listed(all, k, v) <==> contents.dom().contains(k)
        && contents[k] == v by {
        if s.has(k, v) {
            let w = choose|w: Seq<u8>| s.has(k, w);
            lemma_one_value::<K>(s, m, k, v, w);
        }
        if contents.dom().contains(k) && contents[k] == v {
            let w = choose|w: Seq<u8>| s.has(k, w);
            assert(s.has(k, v));
        }
    }
}

} // verus!
