//! Nodes of B+ trees, and how they are stored in pages.

use vstd::prelude::*;

use crate::common::bytes::copy_bytes;
use crate::common::error::{bare, DbError, DbResult, ErrorCode, ErrorView};
use crate::common::json::{
    field, field_from, fields_view, items_view, json_bytes, json_vec, lemma_container_views,
    lemma_same_field, name_items, named, names, record_fields, same_json, search_field, storable,
    Json, JsonValue,
};
use crate::common::ordmap::{Order, OrdKey};
use crate::common::text::{
    lemma_lex_irreflexive, lemma_lex_total, lemma_lex_transitive, lex_before, same_text,
};
use crate::v2::codec::{document, json_number, read_document};
use crate::v2::page::{
    decode_payload, encode_payload_page, header_error, kind_byte, law_payload_page_round_trip,
    page_kind, payload_error, payload_len, payload_page, PageId, PageKind, PAGE_CAPACITY,
};
use crate::v2::pager::{step, Pager};
use crate::v2::pager_model::PagerModel;
use crate::v2::values_json::{
    bytes_json, bytes_to_json, json_byte_list, json_to_bytes, lemma_byte_list_read, tag, tagged,
};

verus! {

/// The key of a tree: it is ordered, and can be stored.
pub trait TreeKey: OrdKey {
    /// The key, written.
    spec fn key_json(k: Self::V) -> Json;

    /// The key that a document stands for.
    spec fn json_key(j: Json) -> Option<Self::V>;

    /// A key that was written is read back.
    proof fn key_read(j: Json, k: Self::V)
        requires
            same_json(j, Self::key_json(k)),
        ensures
            Self::json_key(j) == Some(k),
    ;

    /// A key that was written can be read.
    proof fn key_storable(k: Self::V, depth: int)
        requires
            depth >= 1,
        ensures
            storable(Self::key_json(k), depth),
    ;

    /// Writes the key.
    fn to_json(&self) -> (r: JsonValue)
        ensures
            r@ == Self::key_json(self.deep_view()),
    ;

    /// The key that a document stands for.
    fn from_json(j: &JsonValue) -> (r: Option<Self>)
        ensures
            match r {
                Some(k) => Self::json_key(j@) == Some(k.deep_view()),
                None => Self::json_key(j@) is None,
            },
    ;
}

impl TreeKey for u64 {
    open spec fn key_json(k: u64) -> Json {
        Json::Int(k as int)
    }

    open spec fn json_key(j: Json) -> Option<u64> {
        json_number(Some(j))
    }

    proof fn key_read(j: Json, k: u64) {
    }

    proof fn key_storable(k: u64, depth: int) {
    }

    fn to_json(&self) -> (r: JsonValue) {
        JsonValue::Int(*self as i128)
    }

    fn from_json(j: &JsonValue) -> (r: Option<u64>) {
        match j {
            JsonValue::Int(n) => if 0 <= *n && *n <= u64::MAX as i128 {
                Some(*n as u64)
            } else {
                None
            },
            _ => None,
        }
    }
}

/// The key of an index, written as bytes.
#[derive(Debug)]
pub struct ByteKey {
    pub bytes: Vec<u8>,
}

impl DeepView for ByteKey {
    type V = Seq<u8>;

    open spec fn deep_view(&self) -> Seq<u8> {
        self.bytes@
    }
}

/// Bytes as numbers.
pub open spec fn byte_numbers(b: Seq<u8>) -> Seq<int> {
    Seq::new(b.len(), |i: int| b[i] as int)
}

proof fn lemma_byte_numbers_injective(a: Seq<u8>, b: Seq<u8>)
    requires
        byte_numbers(a) == byte_numbers(b),
    ensures
        a == b,
{
    assert(byte_numbers(a).len() == a.len() && byte_numbers(b).len() == b.len());
    assert forall|i: int| 0 <= i < a.len() implies a[i] == b[i] by {
        assert(byte_numbers(a)[i] == a[i] as int && byte_numbers(b)[i] == b[i] as int);
    }
    assert(a =~= b);
}

impl OrdKey for ByteKey {
    open spec fn before(a: Seq<u8>, b: Seq<u8>) -> bool {
        lex_before(byte_numbers(a), byte_numbers(b))
    }

    proof fn before_irreflexive(a: Seq<u8>) {
        lemma_lex_irreflexive(byte_numbers(a));
    }

    proof fn before_transitive(a: Seq<u8>, b: Seq<u8>, c: Seq<u8>) {
        lemma_lex_transitive(byte_numbers(a), byte_numbers(b), byte_numbers(c));
    }

    proof fn before_total(a: Seq<u8>, b: Seq<u8>) {
        lemma_lex_total(byte_numbers(a), byte_numbers(b));
        if byte_numbers(a) == byte_numbers(b) {
            lemma_byte_numbers_injective(a, b);
        }
    }

    fn compare(&self, other: &Self) -> (r: Order) {
        let (a, b) = (&self.bytes, &other.bytes);
        let ghost x = byte_numbers(a@);
        let ghost y = byte_numbers(b@);
        let mut i: usize = 0;
        while i < a.len() && i < b.len() && a[i] == b[i]
            invariant
                i <= a@.len(),
                i <= b@.len(),
                forall|k: int| 0 <= k < i ==> #[trigger] a@[k] == b@[k],
            decreases a@.len() - i,
        {
            i = i + 1;
        }
        proof {
            assert(x.take(i as int) =~= y.take(i as int));
        }
        if i == a.len() && i == b.len() {
            assert(a@ =~= b@);
            Order::Equal
        } else if i == a.len() {
            assert(crate::common::text::lex_split(x, y, i as int));
            Order::Less
        } else if i == b.len() {
            assert(crate::common::text::lex_split(y, x, i as int));
            Order::Greater
        } else if a[i] < b[i] {
            assert(crate::common::text::lex_split(x, y, i as int));
            Order::Less
        } else {
            assert(crate::common::text::lex_split(y, x, i as int));
            Order::Greater
        }
    }

    fn copy_key(&self) -> (r: Self) {
        ByteKey { bytes: copy_bytes(&self.bytes) }
    }
}

impl TreeKey for ByteKey {
    open spec fn key_json(k: Seq<u8>) -> Json {
        bytes_json(k)
    }

    open spec fn json_key(j: Json) -> Option<Seq<u8>> {
        json_byte_list(j)
    }

    proof fn key_read(j: Json, k: Seq<u8>) {
        lemma_byte_list_read(j, k);
    }

    proof fn key_storable(k: Seq<u8>, depth: int) {
        let items = bytes_json(k)->Array_0;
        assert forall|i: int| 0 <= i < items.len() implies storable(
            #[trigger] items[i],
            depth - 1,
        ) by {}
    }

    fn to_json(&self) -> (r: JsonValue) {
        bytes_to_json(self.bytes.as_slice())
    }

    fn from_json(j: &JsonValue) -> (r: Option<ByteKey>) {
        match json_to_bytes(j) {
            Some(bytes) => Some(ByteKey { bytes }),
            None => None,
        }
    }
}

// ---------------------------------------------------------------------------
// Nodes

/// An entry of a leaf.
pub struct LeafEntry<K: TreeKey> {
    pub key: K,
    pub value: Vec<u8>,
}

/// A leaf: its entries, and the leaf after it.
pub struct LeafNode<K: TreeKey> {
    pub entries: Vec<LeafEntry<K>>,
    pub next: Option<PageId>,
}

/// An internal node: its children, and the keys that separate them.
pub struct InternalNode<K: TreeKey> {
    pub separators: Vec<K>,
    pub children: Vec<PageId>,
}

/// A node of a tree.
pub enum Node<K: TreeKey> {
    Leaf(LeafNode<K>),
    Internal(InternalNode<K>),
}

/// The model of an entry.
#[verifier::ext_equal]
pub struct EntryView<A> {
    pub key: A,
    pub value: Seq<u8>,
}

/// The model of a node.
#[verifier::ext_equal]
pub enum NodeView<A> {
    Leaf { entries: Seq<EntryView<A>>, next: Option<PageId> },
    Internal { separators: Seq<A>, children: Seq<PageId> },
}

impl<K: TreeKey> DeepView for LeafEntry<K> {
    type V = EntryView<K::V>;

    open spec fn deep_view(&self) -> EntryView<K::V> {
        EntryView { key: self.key.deep_view(), value: self.value@ }
    }
}

/// The model of a leaf.
pub open spec fn leaf_view<K: TreeKey>(leaf: LeafNode<K>) -> NodeView<K::V> {
    NodeView::Leaf { entries: leaf.entries.deep_view(), next: leaf.next }
}

/// The model of an internal node.
pub open spec fn internal_view<K: TreeKey>(node: InternalNode<K>) -> NodeView<K::V> {
    NodeView::Internal { separators: node.separators.deep_view(), children: node.children@ }
}

impl<K: TreeKey> View for Node<K> {
    type V = NodeView<K::V>;

    open spec fn view(&self) -> NodeView<K::V> {
        match self {
            Node::Leaf(leaf) => leaf_view(*leaf),
            Node::Internal(node) => internal_view(*node),
        }
    }
}

/// An entry, written.
pub open spec fn entry_json<K: TreeKey>(e: EntryView<K::V>) -> Json {
    Json::Object(seq![("key"@, K::key_json(e.key)), ("value"@, bytes_json(e.value))])
}

/// Entries, written.
pub open spec fn entries_json<K: TreeKey>(entries: Seq<EntryView<K::V>>) -> Json {
    Json::Array(Seq::new(entries.len(), |i: int| entry_json::<K>(entries[i])))
}

/// Keys, written.
pub open spec fn keys_json<K: TreeKey>(keys: Seq<K::V>) -> Json {
    Json::Array(Seq::new(keys.len(), |i: int| K::key_json(keys[i])))
}

/// Numbers of pages, written.
pub open spec fn pages_json(pages: Seq<PageId>) -> Json {
    Json::Array(Seq::new(pages.len(), |i: int| Json::Int(pages[i].0 as int)))
}

/// The number of a page that may be missing, written.
pub open spec fn next_json(next: Option<PageId>) -> Json {
    match next {
        Some(p) => Json::Int(p.0 as int),
        None => Json::Null,
    }
}

/// A node, written.
pub open spec fn node_json<K: TreeKey>(n: NodeView<K::V>) -> Json {
    match n {
        NodeView::Leaf { entries, next } => tagged(
            "Leaf"@,
            Json::Object(
                seq![("entries"@, entries_json::<K>(entries)), ("next"@, next_json(next))],
            ),
        ),
        NodeView::Internal { separators, children } => tagged(
            "Internal"@,
            Json::Object(
                seq![
                    ("separators"@, keys_json::<K>(separators)),
                    ("children"@, pages_json(children)),
                ],
            ),
        ),
    }
}

/// The number of a page that a document stands for.
pub open spec fn json_page(j: Json) -> Option<PageId> {
    match j {
        Json::Int(i) => if 0 <= i <= u32::MAX {
            Some(PageId(i as u32))
        } else {
            None
        },
        _ => None,
    }
}

/// The number of a page that a document stands for, which may be missing.
pub open spec fn json_next(j: Option<Json>) -> Option<Option<PageId>> {
    match j {
        None => Some(None),
        Some(Json::Null) => Some(None),
        Some(x) => match json_page(x) {
            Some(p) => Some(Some(p)),
            None => None,
        },
    }
}

/// The entry that a document stands for.
pub open spec fn json_entry<K: TreeKey>(j: Json) -> Option<EntryView<K::V>> {
    match record_fields(j, seq!["key"@, "value"@]) {
        Some(fields) => match (field(fields, "key"@), field(fields, "value"@)) {
            (Some(k), Some(v)) => match (K::json_key(k), json_byte_list(v)) {
                (Some(key), Some(value)) => Some(EntryView { key, value }),
                _ => None,
            },
            _ => None,
        },
        _ => None,
    }
}

/// The entries that documents stand for, from one on.
pub open spec fn entries_from<K: TreeKey>(
    items: Seq<Json>,
    i: int,
    out: Seq<EntryView<K::V>>,
) -> Option<Seq<EntryView<K::V>>>
    decreases items.len() - i,
{
    if i < 0 || i >= items.len() {
        Some(out)
    } else {
        match json_entry::<K>(items[i]) {
            Some(e) => entries_from::<K>(items, i + 1, out.push(e)),
            None => None,
        }
    }
}

/// The keys that documents stand for, from one on.
pub open spec fn keys_from<K: TreeKey>(items: Seq<Json>, i: int, out: Seq<K::V>) -> Option<
    Seq<K::V>,
>
    decreases items.len() - i,
{
    if i < 0 || i >= items.len() {
        Some(out)
    } else {
        match K::json_key(items[i]) {
            Some(k) => keys_from::<K>(items, i + 1, out.push(k)),
            None => None,
        }
    }
}

/// The numbers of pages that documents stand for, from one on.
pub open spec fn pages_from(items: Seq<Json>, i: int, out: Seq<PageId>) -> Option<Seq<PageId>>
    decreases items.len() - i,
{
    if i < 0 || i >= items.len() {
        Some(out)
    } else {
        match json_page(items[i]) {
            Some(p) => pages_from(items, i + 1, out.push(p)),
            None => None,
        }
    }
}

/// The leaf that fields stand for.
pub open spec fn fields_leaf<K: TreeKey>(fields: Seq<(Seq<char>, Json)>) -> Option<
    NodeView<K::V>,
> {
    match (field(fields, "entries"@), json_next(field(fields, "next"@))) {
        (Some(Json::Array(items)), Some(next)) => match entries_from::<K>(items, 0, Seq::empty()) {
            Some(entries) => Some(NodeView::Leaf { entries, next }),
            None => None,
        },
        _ => None,
    }
}

/// The internal node that fields stand for.
pub open spec fn fields_internal<K: TreeKey>(fields: Seq<(Seq<char>, Json)>) -> Option<
    NodeView<K::V>,
> {
    match (field(fields, "separators"@), field(fields, "children"@)) {
        (Some(Json::Array(keys)), Some(Json::Array(pages))) => match (
            keys_from::<K>(keys, 0, Seq::empty()),
            pages_from(pages, 0, Seq::empty()),
        ) {
            (Some(separators), Some(children)) => Some(
                NodeView::Internal { separators, children },
            ),
            _ => None,
        },
        _ => None,
    }
}

/// The node that a document stands for.
pub open spec fn json_node<K: TreeKey>(j: Json) -> Option<NodeView<K::V>> {
    match j {
        Json::Object(outer) => if outer.len() == 1 {
            if outer[0].0 == "Leaf"@ {
                match record_fields(outer[0].1, seq!["entries"@, "next"@]) {
                    Some(fields) => fields_leaf::<K>(fields),
                    None => None,
                }
            } else if outer[0].0 == "Internal"@ {
                match record_fields(outer[0].1, seq!["separators"@, "children"@]) {
                    Some(fields) => fields_internal::<K>(fields),
                    None => None,
                }
            } else {
                None
            }
        } else {
            None
        },
        _ => None,
    }
}

// ---------------------------------------------------------------------------
// Writing and reading nodes

fn entry_to_json<K: TreeKey>(e: &LeafEntry<K>) -> (r: JsonValue)
    ensures
        r@ == entry_json::<K>(e.deep_view()),
{
    let mut fields: Vec<(String, JsonValue)> = Vec::new();
    fields.push(("key".to_owned(), e.key.to_json()));
    fields.push(("value".to_owned(), bytes_to_json(e.value.as_slice())));
    let r = JsonValue::Object(fields);
    proof {
        lemma_container_views(r);
        assert(fields_view(fields@) =~= entry_json::<K>(e.deep_view())->Object_0);
    }
    r
}

fn entries_to_json<K: TreeKey>(entries: &Vec<LeafEntry<K>>) -> (r: JsonValue)
    ensures
        r@ == entries_json::<K>(entries.deep_view()),
{
    let mut items: Vec<JsonValue> = Vec::new();
    let mut i: usize = 0;
    while i < entries.len()
        invariant
            i <= entries@.len(),
            items@.len() == i,
            forall|k: int|
                0 <= k < i ==> (#[trigger] items@[k])@ == entry_json::<K>(entries@[k].deep_view()),
        decreases entries@.len() - i,
    {
        items.push(entry_to_json(&entries[i]));
        i = i + 1;
    }
    let r = JsonValue::Array(items);
    proof {
        lemma_container_views(r);
        assert(items_view(items@) =~= entries_json::<K>(entries.deep_view())->Array_0);
    }
    r
}

fn keys_to_json<K: TreeKey>(keys: &Vec<K>) -> (r: JsonValue)
    ensures
        r@ == keys_json::<K>(keys.deep_view()),
{
    let mut items: Vec<JsonValue> = Vec::new();
    let mut i: usize = 0;
    while i < keys.len()
        invariant
            i <= keys@.len(),
            items@.len() == i,
            forall|k: int| 0 <= k < i ==> (#[trigger] items@[k])@ == K::key_json(keys@[k].deep_view()),
        decreases keys@.len() - i,
    {
        items.push(keys[i].to_json());
        i = i + 1;
    }
    let r = JsonValue::Array(items);
    proof {
        lemma_container_views(r);
        assert(items_view(items@) =~= keys_json::<K>(keys.deep_view())->Array_0);
    }
    r
}

fn pages_to_json(pages: &Vec<PageId>) -> (r: JsonValue)
    ensures
        r@ == pages_json(pages@),
{
    let mut items: Vec<JsonValue> = Vec::new();
    let mut i: usize = 0;
    while i < pages.len()
        invariant
            i <= pages@.len(),
            items@.len() == i,
            forall|k: int| 0 <= k < i ==> (#[trigger] items@[k])@ == Json::Int(pages@[k].0 as int),
        decreases pages@.len() - i,
    {
        items.push(JsonValue::Int(pages[i].0 as i128));
        i = i + 1;
    }
    let r = JsonValue::Array(items);
    proof {
        lemma_container_views(r);
        assert(items_view(items@) =~= pages_json(pages@)->Array_0);
    }
    r
}

fn two_fields(a: &str, x: JsonValue, b: &str, y: JsonValue) -> (r: JsonValue)
    ensures
        r@ == Json::Object(seq![(a@, x@), (b@, y@)]),
{
    let mut fields: Vec<(String, JsonValue)> = Vec::new();
    fields.push((a.to_owned(), x));
    fields.push((b.to_owned(), y));
    let r = JsonValue::Object(fields);
    proof {
        lemma_container_views(r);
        assert(fields_view(fields@) =~= seq![(a@, x@), (b@, y@)]);
    }
    r
}

fn node_to_json<K: TreeKey>(node: &Node<K>) -> (r: JsonValue)
    ensures
        r@ == node_json::<K>(node@),
{
    match node {
        Node::Leaf(leaf) => {
            let next = match leaf.next {
                Some(p) => JsonValue::Int(p.0 as i128),
                None => JsonValue::Null,
            };
            tag("Leaf", two_fields("entries", entries_to_json(&leaf.entries), "next", next))
        },
        Node::Internal(node) => tag(
            "Internal",
            two_fields(
                "separators",
                keys_to_json(&node.separators),
                "children",
                pages_to_json(&node.children),
            ),
        ),
    }
}

fn page_of_json(j: &JsonValue) -> (r: Option<PageId>)
    ensures
        r == json_page(j@),
{
    match j {
        JsonValue::Int(n) => if 0 <= *n && *n <= u32::MAX as i128 {
            Some(PageId(*n as u32))
        } else {
            None
        },
        _ => None,
    }
}

fn name_two(items: &Vec<JsonValue>, a: &str, b: &str) -> (r: Option<Vec<(String, JsonValue)>>)
    ensures
        match r {
            Some(fields) => items@.len() == 2 && fields_view(fields@) == named(
                seq![a@, b@],
                items_view(items@),
            ),
            None => items@.len() != 2,
        },
{
    if items.len() != 2 {
        return None;
    }
    let mut names: Vec<String> = Vec::new();
    names.push(a.to_owned());
    names.push(b.to_owned());
    assert(names.deep_view() =~= seq![a@, b@]);
    Some(name_items(items, &names))
}

fn entry_of_fields<K: TreeKey>(fields: &Vec<(String, JsonValue)>) -> (r: Option<LeafEntry<K>>)
    ensures
        match r {
            Some(e) => json_entry::<K>(Json::Object(fields_view(fields@))) == Some(e.deep_view()),
            None => json_entry::<K>(Json::Object(fields_view(fields@))) is None,
        },
{
    match (search_field(fields, "key"), search_field(fields, "value")) {
        (Some(a), Some(b)) => match (K::from_json(&fields[a].1), json_to_bytes(&fields[b].1)) {
            (Some(key), Some(value)) => Some(LeafEntry { key, value }),
            _ => None,
        },
        _ => None,
    }
}

fn entry_of_json<K: TreeKey>(j: &JsonValue) -> (r: Option<LeafEntry<K>>)
    ensures
        match r {
            Some(e) => json_entry::<K>(j@) == Some(e.deep_view()),
            None => json_entry::<K>(j@) is None,
        },
{
    proof {
        lemma_container_views(*j);
    }
    match j {
        JsonValue::Object(fields) => entry_of_fields::<K>(fields),
        JsonValue::Array(items) => match name_two(items, "key", "value") {
            Some(fields) => entry_of_fields::<K>(&fields),
            None => None,
        },
        _ => None,
    }
}

fn entries_of_json<K: TreeKey>(items: &Vec<JsonValue>) -> (r: Option<Vec<LeafEntry<K>>>)
    ensures
        match r {
            Some(v) => entries_from::<K>(items_view(items@), 0, Seq::empty()) == Some(
                v.deep_view(),
            ),
            None => entries_from::<K>(items_view(items@), 0, Seq::empty()) is None,
        },
{
    let mut out: Vec<LeafEntry<K>> = Vec::new();
    assert(out.deep_view() =~= Seq::<EntryView<K::V>>::empty());
    let mut i: usize = 0;
    while i < items.len()
        invariant
            i <= items@.len(),
            entries_from::<K>(items_view(items@), i as int, out.deep_view()) == entries_from::<K>(
                items_view(items@),
                0,
                Seq::empty(),
            ),
        decreases items@.len() - i,
    {
        assert(items_view(items@)[i as int] == items@[i as int]@);
        match entry_of_json::<K>(&items[i]) {
            Some(e) => {
                let ghost before = out.deep_view();
                out.push(e);
                assert(out.deep_view() =~= before.push(e.deep_view()));
            },
            None => {
                return None;
            },
        }
        i = i + 1;
    }
    Some(out)
}

fn keys_of_json<K: TreeKey>(items: &Vec<JsonValue>) -> (r: Option<Vec<K>>)
    ensures
        match r {
            Some(v) => keys_from::<K>(items_view(items@), 0, Seq::empty()) == Some(v.deep_view()),
            None => keys_from::<K>(items_view(items@), 0, Seq::empty()) is None,
        },
{
    let mut out: Vec<K> = Vec::new();
    assert(out.deep_view() =~= Seq::<K::V>::empty());
    let mut i: usize = 0;
    while i < items.len()
        invariant
            i <= items@.len(),
            keys_from::<K>(items_view(items@), i as int, out.deep_view()) == keys_from::<K>(
                items_view(items@),
                0,
                Seq::empty(),
            ),
        decreases items@.len() - i,
    {
        assert(items_view(items@)[i as int] == items@[i as int]@);
        match K::from_json(&items[i]) {
            Some(k) => {
                let ghost before = out.deep_view();
                out.push(k);
                assert(out.deep_view() =~= before.push(k.deep_view()));
            },
            None => {
                return None;
            },
        }
        i = i + 1;
    }
    Some(out)
}

fn pages_of_json(items: &Vec<JsonValue>) -> (r: Option<Vec<PageId>>)
    ensures
        match r {
            Some(v) => pages_from(items_view(items@), 0, Seq::empty()) == Some(v@),
            None => pages_from(items_view(items@), 0, Seq::empty()) is None,
        },
{
    let mut out: Vec<PageId> = Vec::new();
    let mut i: usize = 0;
    while i < items.len()
        invariant
            i <= items@.len(),
            pages_from(items_view(items@), i as int, out@) == pages_from(
                items_view(items@),
                0,
                Seq::empty(),
            ),
        decreases items@.len() - i,
    {
        assert(items_view(items@)[i as int] == items@[i as int]@);
        match page_of_json(&items[i]) {
            Some(p) => {
                out.push(p);
            },
            None => {
                return None;
            },
        }
        i = i + 1;
    }
    Some(out)
}

fn leaf_of_fields<K: TreeKey>(fields: &Vec<(String, JsonValue)>) -> (r: Option<Node<K>>)
    ensures
        match r {
            Some(n) => fields_leaf::<K>(fields_view(fields@)) == Some(n@),
            None => fields_leaf::<K>(fields_view(fields@)) is None,
        },
{
    let next: Option<PageId> = match search_field(fields, "next") {
        None => None,
        Some(i) => match &fields[i].1 {
            JsonValue::Null => None,
            other => match page_of_json(other) {
                Some(p) => Some(p),
                None => {
                    return None;
                },
            },
        },
    };
    match search_field(fields, "entries") {
        None => None,
        Some(i) => {
            proof {
                lemma_container_views(fields@[i as int].1);
            }
            match &fields[i].1 {
                JsonValue::Array(items) => match entries_of_json::<K>(items) {
                    Some(entries) => Some(Node::Leaf(LeafNode { entries, next })),
                    None => None,
                },
                _ => None,
            }
        },
    }
}

fn internal_of_fields<K: TreeKey>(fields: &Vec<(String, JsonValue)>) -> (r: Option<Node<K>>)
    ensures
        match r {
            Some(n) => fields_internal::<K>(fields_view(fields@)) == Some(n@),
            None => fields_internal::<K>(fields_view(fields@)) is None,
        },
{
    match (search_field(fields, "separators"), search_field(fields, "children")) {
        (Some(a), Some(b)) => {
            proof {
                lemma_container_views(fields@[a as int].1);
                lemma_container_views(fields@[b as int].1);
            }
            match (&fields[a].1, &fields[b].1) {
                (JsonValue::Array(keys), JsonValue::Array(pages)) => match (
                    keys_of_json::<K>(keys),
                    pages_of_json(pages),
                ) {
                    (Some(separators), Some(children)) => Some(
                        Node::Internal(InternalNode { separators, children }),
                    ),
                    _ => None,
                },
                _ => None,
            }
        },
        _ => None,
    }
}

fn node_of_json<K: TreeKey>(j: &JsonValue) -> (r: Option<Node<K>>)
    ensures
        match r {
            Some(n) => json_node::<K>(j@) == Some(n@),
            None => json_node::<K>(j@) is None,
        },
{
    proof {
        lemma_container_views(*j);
    }
    match j {
        JsonValue::Object(outer) => {
            if outer.len() != 1 {
                return None;
            }
            assert(fields_view(outer@)[0] == (outer@[0].0@, outer@[0].1@));
            proof {
                lemma_container_views(outer@[0].1);
            }
            if same_text(outer[0].0.as_str(), "Leaf") {
                match &outer[0].1 {
                    JsonValue::Object(fields) => leaf_of_fields::<K>(fields),
                    JsonValue::Array(items) => match name_two(items, "entries", "next") {
                        Some(fields) => leaf_of_fields::<K>(&fields),
                        None => None,
                    },
                    _ => None,
                }
            } else if same_text(outer[0].0.as_str(), "Internal") {
                match &outer[0].1 {
                    JsonValue::Object(fields) => internal_of_fields::<K>(fields),
                    JsonValue::Array(items) => match name_two(items, "separators", "children") {
                        Some(fields) => internal_of_fields::<K>(&fields),
                        None => None,
                    },
                    _ => None,
                }
            } else {
                None
            }
        },
        _ => None,
    }
}

// ---------------------------------------------------------------------------
// Reading back what was written

proof fn lemma_entry_read<K: TreeKey>(j: Json, e: EntryView<K::V>)
    requires
        same_json(j, entry_json::<K>(e)),
    ensures
        json_entry::<K>(j) == Some(e),
{
    reveal_strlit("key");
    reveal_strlit("value");
    assert("key"@.len() == 3 && "value"@.len() == 5);
    let x = j->Object_0;
    let y = entry_json::<K>(e)->Object_0;
    assert(names(y)[0] == "key"@ && names(y)[1] == "value"@);
    assert(names(y).no_duplicates());
    reveal_with_fuel(field_from, 3);
    lemma_same_field(x, y, "key"@);
    lemma_same_field(x, y, "value"@);
    K::key_read(field(x, "key"@)->Some_0, e.key);
    lemma_byte_list_read(field(x, "value"@)->Some_0, e.value);
}

proof fn lemma_entries_read<K: TreeKey>(items: Seq<Json>, entries: Seq<EntryView<K::V>>, i: int)
    requires
        0 <= i <= items.len() == entries.len(),
        forall|k: int|
            0 <= k < items.len() ==> same_json(#[trigger] items[k], entry_json::<K>(entries[k])),
    ensures
        entries_from::<K>(items, i, entries.take(i)) == Some(entries),
    decreases items.len() - i,
{
    if i < items.len() {
        lemma_entry_read::<K>(items[i], entries[i]);
        assert(entries.take(i).push(entries[i]) =~= entries.take(i + 1));
        lemma_entries_read::<K>(items, entries, i + 1);
    } else {
        assert(entries.take(i) =~= entries);
    }
}

proof fn lemma_keys_read<K: TreeKey>(items: Seq<Json>, keys: Seq<K::V>, i: int)
    requires
        0 <= i <= items.len() == keys.len(),
        forall|k: int|
            0 <= k < items.len() ==> same_json(#[trigger] items[k], K::key_json(keys[k])),
    ensures
        keys_from::<K>(items, i, keys.take(i)) == Some(keys),
    decreases items.len() - i,
{
    if i < items.len() {
        K::key_read(items[i], keys[i]);
        assert(keys.take(i).push(keys[i]) =~= keys.take(i + 1));
        lemma_keys_read::<K>(items, keys, i + 1);
    } else {
        assert(keys.take(i) =~= keys);
    }
}

proof fn lemma_pages_read(items: Seq<Json>, pages: Seq<PageId>, i: int)
    requires
        0 <= i <= items.len() == pages.len(),
        forall|k: int| 0 <= k < items.len() ==> #[trigger] items[k] == Json::Int(pages[k].0 as int),
    ensures
        pages_from(items, i, pages.take(i)) == Some(pages),
    decreases items.len() - i,
{
    if i < items.len() {
        assert(items[i] == Json::Int(pages[i].0 as int));
        assert(pages.take(i).push(pages[i]) =~= pages.take(i + 1));
        lemma_pages_read(items, pages, i + 1);
    } else {
        assert(pages.take(i) =~= pages);
    }
}

proof fn lemma_node_names()
    ensures
        "Leaf"@ != "Internal"@,
        "entries"@ != "next"@,
        "separators"@ != "children"@,
{
    reveal_strlit("Leaf");
    reveal_strlit("Internal");
    reveal_strlit("entries");
    reveal_strlit("next");
    reveal_strlit("separators");
    reveal_strlit("children");
    assert("Leaf"@.len() == 4 && "Internal"@.len() == 8);
    assert("entries"@.len() == 7 && "next"@.len() == 4);
    assert("separators"@.len() == 10 && "children"@.len() == 8);
}

proof fn lemma_two_names(a: Seq<char>, x: Json, b: Seq<char>, y: Json)
    requires
        a != b,
    ensures
        names(seq![(a, x), (b, y)]).no_duplicates(),
        field(seq![(a, x), (b, y)], a) == Some(x),
        field(seq![(a, x), (b, y)], b) == Some(y),
{
    let f = seq![(a, x), (b, y)];
    assert(names(f)[0] == a && names(f)[1] == b);
    reveal_with_fuel(field_from, 3);
}

/// A node that was written is read back.
pub proof fn lemma_node_read<K: TreeKey>(j: Json, n: NodeView<K::V>)
    requires
        same_json(j, node_json::<K>(n)),
    ensures
        json_node::<K>(j) == Some(n),
{
    lemma_node_names();
    let outer = j->Object_0;
    let y = node_json::<K>(n)->Object_0;
    assert(outer.len() == 1);
    assert(outer[0].0 == y[0].0 && same_json(outer[0].1, y[0].1)) by {
        let k = choose|k: int|
            0 <= k < y.len() && (#[trigger] y[k]).0 == outer[0].0 && same_json(
                outer[0].1,
                y[k].1,
            );
        assert(k == 0);
    }
    let x = outer[0].1->Object_0;
    let z = y[0].1->Object_0;
    match n {
        NodeView::Leaf { entries, next } => {
            lemma_two_names("entries"@, entries_json::<K>(entries), "next"@, next_json(next));
            lemma_same_field(x, z, "entries"@);
            lemma_same_field(x, z, "next"@);
            let items = field(x, "entries"@)->Some_0->Array_0;
            assert forall|k: int| 0 <= k < items.len() implies same_json(
                #[trigger] items[k],
                entry_json::<K>(entries[k]),
            ) by {
                assert(same_json(items[k], entries_json::<K>(entries)->Array_0[k]));
            }
            lemma_entries_read::<K>(items, entries, 0);
            assert(entries.take(0) =~= Seq::empty());
        },
        NodeView::Internal { separators, children } => {
            lemma_two_names(
                "separators"@,
                keys_json::<K>(separators),
                "children"@,
                pages_json(children),
            );
            lemma_same_field(x, z, "separators"@);
            lemma_same_field(x, z, "children"@);
            let keys = field(x, "separators"@)->Some_0->Array_0;
            let pages = field(x, "children"@)->Some_0->Array_0;
            assert forall|k: int| 0 <= k < keys.len() implies same_json(
                #[trigger] keys[k],
                K::key_json(separators[k]),
            ) by {
                assert(same_json(keys[k], keys_json::<K>(separators)->Array_0[k]));
            }
            assert forall|k: int| 0 <= k < pages.len() implies #[trigger] pages[k] == Json::Int(
                children[k].0 as int,
            ) by {
                assert(same_json(pages[k], pages_json(children)->Array_0[k]));
            }
            lemma_keys_read::<K>(keys, separators, 0);
            lemma_pages_read(pages, children, 0);
            assert(separators.take(0) =~= Seq::empty());
            assert(children.take(0) =~= Seq::empty());
        },
    }
}

proof fn lemma_bytes_storable(bytes: Seq<u8>, depth: int)
    requires
        depth >= 1,
    ensures
        storable(bytes_json(bytes), depth),
{
    let items = bytes_json(bytes)->Array_0;
    assert forall|i: int| 0 <= i < items.len() implies storable(#[trigger] items[i], depth - 1) by {}
}

/// A node that was written can be read.
pub proof fn lemma_node_storable<K: TreeKey>(n: NodeView<K::V>)
    ensures
        storable(node_json::<K>(n), 127),
{
    lemma_node_names();
    let outer = node_json::<K>(n)->Object_0;
    let inner = outer[0].1->Object_0;
    match n {
        NodeView::Leaf { entries, next } => {
            let list = entries_json::<K>(entries);
            let items = list->Array_0;
            assert forall|i: int| 0 <= i < items.len() implies storable(
                #[trigger] items[i],
                124,
            ) by {
                let e = entries[i];
                let f = items[i]->Object_0;
                reveal_strlit("key");
                reveal_strlit("value");
                assert("key"@.len() == 3 && "value"@.len() == 5);
                lemma_two_names("key"@, K::key_json(e.key), "value"@, bytes_json(e.value));
                K::key_storable(e.key, 123);
                lemma_bytes_storable(e.value, 123);
                assert forall|k: int| 0 <= k < f.len() implies storable(
                    (#[trigger] f[k]).1,
                    123,
                ) by {}
            }
            assert(storable(list, 125));
            lemma_two_names("entries"@, list, "next"@, next_json(next));
            assert forall|k: int| 0 <= k < inner.len() implies storable(
                (#[trigger] inner[k]).1,
                125,
            ) by {}
        },
        NodeView::Internal { separators, children } => {
            let keys = keys_json::<K>(separators);
            let pages = pages_json(children);
            assert forall|i: int| 0 <= i < keys->Array_0.len() implies storable(
                #[trigger] keys->Array_0[i],
                124,
            ) by {
                K::key_storable(separators[i], 124);
            }
            assert forall|i: int| 0 <= i < pages->Array_0.len() implies storable(
                #[trigger] pages->Array_0[i],
                124,
            ) by {}
            lemma_two_names("separators"@, keys, "children"@, pages);
            assert forall|k: int| 0 <= k < inner.len() implies storable(
                (#[trigger] inner[k]).1,
                125,
            ) by {}
        },
    }
    assert(storable(outer[0].1, 126));
    assert(names(outer).no_duplicates());
}

// ---------------------------------------------------------------------------
// Pages

/// The kind of page that holds a node.
pub open spec fn node_kind<A>(n: NodeView<A>) -> PageKind {
    match n {
        NodeView::Leaf { .. } => PageKind::Leaf,
        NodeView::Internal { .. } => PageKind::Internal,
    }
}

/// The bytes of a node.
pub open spec fn node_bytes<K: TreeKey>(n: NodeView<K::V>) -> Seq<u8> {
    json_bytes(node_json::<K>(n))
}

/// Whether a node fits into a page.
pub open spec fn fits<K: TreeKey>(n: NodeView<K::V>) -> bool {
    node_bytes::<K>(n).len() <= PAGE_CAPACITY
}

/// The page that holds a node.
pub open spec fn node_page<K: TreeKey>(n: NodeView<K::V>) -> Seq<u8> {
    payload_page(node_kind(n), node_bytes::<K>(n))
}

/// The node that a page of a kind holds.
pub open spec fn payload_node<K: TreeKey>(page: Seq<u8>, kind: PageKind) -> Result<
    NodeView<K::V>,
    ErrorView,
> {
    match payload_error(page, kind) {
        Some(e) => Err(e),
        None => match document(page.subrange(16, 16int + payload_len(page))) {
            Err(e) => Err(e),
            Ok(j) => match json_node::<K>(j) {
                Some(n) => Ok(n),
                None => Err(bare(ErrorCode::JsonShape)),
            },
        },
    }
}

/// The node that a page holds.
pub open spec fn page_node<K: TreeKey>(page: Seq<u8>, id: PageId) -> Result<
    NodeView<K::V>,
    ErrorView,
> {
    match header_error(page) {
        Some(e) => Err(e),
        None => if page[4] == kind_byte(PageKind::Leaf) {
            payload_node::<K>(page, PageKind::Leaf)
        } else if page[4] == kind_byte(PageKind::Internal) {
            payload_node::<K>(page, PageKind::Internal)
        } else {
            Err(bare(ErrorCode::NotTreePage { page: id.0, kind: page[4] }))
        },
    }
}

/// The node at a page.
pub open spec fn node_at<K: TreeKey>(m: PagerModel, id: PageId) -> Result<
    NodeView<K::V>,
    ErrorView,
> {
    match m.read(id) {
        Err(e) => Err(e),
        Ok(page) => page_node::<K>(page, id),
    }
}

/// Whether a page of the pager holds a node.
pub open spec fn holds<K: TreeKey>(m: PagerModel, id: PageId, n: NodeView<K::V>) -> bool {
    fits::<K>(n) && m.read(id) == Ok::<_, ErrorView>(node_page::<K>(n))
}

/// The model of a node or an error.
pub open spec fn node_result<K: TreeKey>(r: DbResult<Node<K>>) -> Result<NodeView<K::V>, ErrorView> {
    match r {
        Ok(n) => Ok(n@),
        Err(e) => Err(e@),
    }
}

fn payload_to_node<K: TreeKey>(page: &Vec<u8>, kind: PageKind) -> (r: DbResult<Node<K>>)
    ensures
        node_result(r) == payload_node::<K>(page@, kind),
        forall|n: NodeView<K::V>| #[trigger]
            node_page::<K>(n) == page@ && fits::<K>(n) && node_kind(n) == kind ==> node_result(r)
                == Ok::<_, ErrorView>(n),
{
    let payload = decode_payload(page.as_slice(), kind);
    proof {
        assert forall|n: NodeView<K::V>| #[trigger]
            node_page::<K>(n) == page@ && fits::<K>(n) && node_kind(n) == kind implies payload is Ok
            && payload->Ok_0@ == node_bytes::<K>(n) by {
            law_payload_page_round_trip(kind, node_bytes::<K>(n));
        }
    }
    let payload = payload?;
    let j = read_document(payload.as_slice());
    proof {
        assert forall|n: NodeView<K::V>| #[trigger]
            node_page::<K>(n) == page@ && fits::<K>(n) && node_kind(n) == kind implies j is Ok
            && json_node::<K>(j->Ok_0@) == Some(n) by {
            lemma_node_storable::<K>(n);
            assert(payload@ == json_bytes(node_json::<K>(n)));
            lemma_node_read::<K>(j->Ok_0@, n);
        }
    }
    match node_of_json::<K>(&j?) {
        Some(n) => Ok(n),
        None => Err(DbError::bare(ErrorCode::JsonShape)),
    }
}

/// Reads the node at a page. A node that was written is read back.
pub fn read_node<K: TreeKey>(pager: &Pager, page_id: PageId) -> (r: DbResult<Node<K>>)
    ensures
        node_result(r) == node_at::<K>(pager@, page_id),
        forall|n: NodeView<K::V>| #[trigger]
            holds::<K>(pager@, page_id, n) ==> node_result(r) == Ok::<_, ErrorView>(n),
{
    let page = pager.read_page(page_id)?;
    let kind = page_kind(page.as_slice());
    proof {
        assert forall|n: NodeView<K::V>| #[trigger] holds::<K>(pager@, page_id, n) implies page@
            == node_page::<K>(n) && header_error(page@) is None && page@[4] == kind_byte(
            node_kind(n),
        ) by {
            law_payload_page_round_trip(node_kind(n), node_bytes::<K>(n));
        }
    }
    let kind = kind?;
    match kind {
        PageKind::Leaf => payload_to_node::<K>(&page, PageKind::Leaf),
        PageKind::Internal => payload_to_node::<K>(&page, PageKind::Internal),
        other => Err(
            DbError::bare(ErrorCode::NotTreePage { page: page_id.0, kind: other.to_byte() }),
        ),
    }
}

/// The pager once a transaction has written a node.
pub open spec fn node_written<K: TreeKey>(
    m: PagerModel,
    txn: u64,
    id: PageId,
    n: NodeView<K::V>,
) -> (PagerModel, Result<(), ErrorView>) {
    if fits::<K>(n) {
        m.written(txn, id, node_page::<K>(n))
    } else {
        (m, Err(bare(ErrorCode::PayloadTooLarge(node_bytes::<K>(n).len() as usize))))
    }
}

/// Writes a node for a transaction.
pub fn write_node<K: TreeKey>(pager: &mut Pager, txn_id: u64, page_id: PageId, node: &Node<K>) -> (r:
    DbResult<()>)
    requires
        old(pager)@.sound(),
    ensures
        step(r, final(pager)@, node_written::<K>(old(pager)@, txn_id, page_id, node@)),
        final(pager)@.sound(),
{
    let kind = match node {
        Node::Leaf(_) => PageKind::Leaf,
        Node::Internal(_) => PageKind::Internal,
    };
    let payload = json_vec(&node_to_json(node));
    let page = encode_payload_page(kind, payload.as_slice())?;
    pager.write_page(txn_id, page_id, page)
}

} // verus!
