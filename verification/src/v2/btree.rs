//! The trees that hold the rows of tables and the entries of indexes.

use vstd::prelude::*;

use crate::common::bytes::slice_vec;
use crate::common::error::{DbResult, ErrorView};
use crate::v2::page::PageId;
use crate::v2::pager::{step, Pager};
use crate::v2::tree::{
    all_entries, entries_result, found, removed_below, tree_create, tree_delete, tree_get,
    tree_insert, tree_made, tree_put, tree_scan, value_result, MAX_PAGES,
};
use crate::v2::tree_node::{ByteKey, LeafEntry};
use crate::v2::tree_shape::{lists_contents, tree_became, tree_holds, value_in};

verus! {

/// A tree whose keys are numbers of rows.
#[derive(Debug, Clone, Copy, PartialEq, Eq, Structural)]
pub struct BTree {
    root_page_id: PageId,
}

/// A tree whose keys are bytes.
#[derive(Debug, Clone, Copy, PartialEq, Eq, Structural)]
pub struct IndexTree {
    root_page_id: PageId,
}

impl View for BTree {
    type V = PageId;

    closed spec fn view(&self) -> PageId {
        self.root_page_id
    }
}

impl View for IndexTree {
    type V = PageId;

    closed spec fn view(&self) -> PageId {
        self.root_page_id
    }
}

impl BTree {
    /// Makes a tree, which holds nothing.
    pub fn create(pager: &mut Pager, txn_id: u64) -> (r: DbResult<BTree>)
        requires
            old(pager)@.sound(),
        ensures
            final(pager)@ == tree_made::<u64>(old(pager)@, txn_id).0,
            match r {
                Ok(t) => tree_made::<u64>(old(pager)@, txn_id).1 == Ok::<
                    PageId,
                    ErrorView,
                >(t@),
                Err(e) => tree_made::<u64>(old(pager)@, txn_id).1 == Err::<
                    PageId,
                    ErrorView,
                >(e@),
            },
            r is Ok && 2 <= old(pager)@.meta.page_count ==> tree_became::<u64>(
                old(pager)@,
                Set::<PageId>::empty(),
                final(pager)@,
                r->Ok_0@,
                Map::<u64, Seq<u8>>::empty(),
            ),
            final(pager)@.sound(),
    {
        Ok(BTree { root_page_id: tree_create::<u64>(pager, txn_id)? })
    }

    /// The tree with a root.
    #[must_use]
    pub fn from_root(root_page_id: PageId) -> (r: BTree)
        ensures
            r@ == root_page_id,
    {
        BTree { root_page_id }
    }

    /// The root of the tree.
    #[must_use]
    pub fn root_page_id(&self) -> (r: PageId)
        ensures
            r == self@,
    {
        self.root_page_id
    }

    /// The value of a key. In a tree it is what the tree holds.
    pub fn get(&self, pager: &Pager, key: u64) -> (r: DbResult<Option<Vec<u8>>>)
        ensures
            value_result(r) == found::<u64>(pager@, self@, key),
            forall|pages: Set<PageId>, c: Map<u64, Seq<u8>>| #[trigger]
                tree_holds::<u64>(pager@, self@, pages, c) ==> value_result(r) == Ok::<_, ErrorView>(
                    value_in(c, key),
                ),
    {
        tree_get::<u64>(pager, self.root_page_id, &key)
    }

    /// Puts a value under a key. A tree then holds it, and otherwise what it held. It has another
    /// root only where the key is new.
    pub fn insert(&mut self, pager: &mut Pager, txn_id: u64, key: u64, value: &[u8]) -> (r: DbResult<
        (),
    >)
        requires
            old(pager)@.sound(),
        ensures
            final(pager)@ == tree_put::<u64>(old(pager)@, txn_id, old(self)@, key, value@).0,
            match r {
                Ok(_) => tree_put::<u64>(old(pager)@, txn_id, old(self)@, key, value@).1 == Ok::<
                    PageId,
                    ErrorView,
                >(final(self)@),
                Err(e) => tree_put::<u64>(old(pager)@, txn_id, old(self)@, key, value@).1 == Err::<
                    PageId,
                    ErrorView,
                >(e@) && final(self)@ == old(self)@,
            },
            forall|pages: Set<PageId>, c: Map<u64, Seq<u8>>| #[trigger]
                tree_holds::<u64>(old(pager)@, old(self)@, pages, c) && r is Ok ==> tree_became::<u64>(
                    old(pager)@,
                    pages,
                    final(pager)@,
                    final(self)@,
                    c.insert(key, value@),
                ),
            forall|pages: Set<PageId>, c: Map<u64, Seq<u8>>| #[trigger]
                tree_holds::<u64>(old(pager)@, old(self)@, pages, c) && r is Ok && c.dom().contains(
                    key,
                ) ==> final(self)@ == old(self)@,
            final(pager)@.sound(),
    {
        self.root_page_id = tree_insert::<u64>(pager, txn_id, self.root_page_id, key, value)?;
        Ok(())
    }

    /// All entries. In a tree they are what it holds, in the order of their keys.
    pub fn scan_all(&self, pager: &Pager) -> (r: DbResult<Vec<LeafEntry<u64>>>)
        ensures
            entries_result(r) == all_entries::<u64>(pager@, self@),
            forall|pages: Set<PageId>, c: Map<u64, Seq<u8>>| #[trigger]
                tree_holds::<u64>(pager@, self@, pages, c) ==> r is Ok && lists_contents::<u64>(
                    r->Ok_0.deep_view(),
                    c,
                ),
    {
        tree_scan::<u64>(pager, self.root_page_id)
    }

    /// Takes a key out. A tree then holds what it held, but for the key.
    pub fn delete(&mut self, pager: &mut Pager, txn_id: u64, key: u64) -> (r: DbResult<()>)
        requires
            old(pager)@.sound(),
        ensures
            step(
                r,
                final(pager)@,
                removed_below::<u64>(old(pager)@, txn_id, old(self)@, key, MAX_PAGES as nat),
            ),
            final(self)@ == old(self)@,
            forall|pages: Set<PageId>, c: Map<u64, Seq<u8>>| #[trigger]
                tree_holds::<u64>(old(pager)@, old(self)@, pages, c) && r is Ok ==> tree_became::<u64>(
                    old(pager)@,
                    pages,
                    final(pager)@,
                    old(self)@,
                    c.remove(key),
                ),
            final(pager)@.sound(),
    {
        tree_delete::<u64>(pager, txn_id, self.root_page_id, &key)
    }
}

impl IndexTree {
    /// Makes a tree, which holds nothing.
    pub fn create(pager: &mut Pager, txn_id: u64) -> (r: DbResult<IndexTree>)
        requires
            old(pager)@.sound(),
        ensures
            final(pager)@ == tree_made::<ByteKey>(old(pager)@, txn_id).0,
            match r {
                Ok(t) => tree_made::<ByteKey>(old(pager)@, txn_id).1 == Ok::<
                    PageId,
                    ErrorView,
                >(t@),
                Err(e) => tree_made::<ByteKey>(old(pager)@, txn_id).1 == Err::<
                    PageId,
                    ErrorView,
                >(e@),
            },
            r is Ok && 2 <= old(pager)@.meta.page_count ==> tree_became::<ByteKey>(
                old(pager)@,
                Set::<PageId>::empty(),
                final(pager)@,
                r->Ok_0@,
                Map::<Seq<u8>, Seq<u8>>::empty(),
            ),
            final(pager)@.sound(),
    {
        Ok(IndexTree { root_page_id: tree_create::<ByteKey>(pager, txn_id)? })
    }

    /// The tree with a root.
    #[must_use]
    pub fn from_root(root_page_id: PageId) -> (r: IndexTree)
        ensures
            r@ == root_page_id,
    {
        IndexTree { root_page_id }
    }

    /// The root of the tree.
    #[must_use]
    pub fn root_page_id(&self) -> (r: PageId)
        ensures
            r == self@,
    {
        self.root_page_id
    }

    /// The value of a key. In a tree it is what the tree holds.
    pub fn get(&self, pager: &Pager, key: &[u8]) -> (r: DbResult<Option<Vec<u8>>>)
        ensures
            value_result(r) == found::<ByteKey>(pager@, self@, key@),
            forall|pages: Set<PageId>, c: Map<Seq<u8>, Seq<u8>>| #[trigger]
                tree_holds::<ByteKey>(pager@, self@, pages, c) ==> value_result(r) == Ok::<_, ErrorView>(
                    value_in(c, key@),
                ),
    {
        let copy = ByteKey { bytes: slice_vec(key, 0, key.len()) };
        assert(copy.deep_view() =~= key@);
        tree_get::<ByteKey>(pager, self.root_page_id, &copy)
    }

    /// Puts a value under a key. A tree then holds it, and otherwise what it held. It has another
    /// root only where the key is new.
    pub fn insert(&mut self, pager: &mut Pager, txn_id: u64, key: &[u8], value: &[u8]) -> (r:
        DbResult<()>)
        requires
            old(pager)@.sound(),
        ensures
            final(pager)@ == tree_put::<ByteKey>(old(pager)@, txn_id, old(self)@, key@, value@).0,
            match r {
                Ok(_) => tree_put::<ByteKey>(old(pager)@, txn_id, old(self)@, key@, value@).1
                    == Ok::<PageId, ErrorView>(final(self)@),
                Err(e) => tree_put::<ByteKey>(old(pager)@, txn_id, old(self)@, key@, value@).1
                    == Err::<PageId, ErrorView>(e@) && final(self)@ == old(
                    self,
                )@,
            },
            forall|pages: Set<PageId>, c: Map<Seq<u8>, Seq<u8>>| #[trigger]
                tree_holds::<ByteKey>(old(pager)@, old(self)@, pages, c) && r is Ok ==> tree_became::<ByteKey>(
                    old(pager)@,
                    pages,
                    final(pager)@,
                    final(self)@,
                    c.insert(key@, value@),
                ),
            forall|pages: Set<PageId>, c: Map<Seq<u8>, Seq<u8>>| #[trigger]
                tree_holds::<ByteKey>(old(pager)@, old(self)@, pages, c) && r is Ok && c.dom().contains(
                    key@,
                ) ==> final(self)@ == old(self)@,
            final(pager)@.sound(),
    {
        let copy = ByteKey { bytes: slice_vec(key, 0, key.len()) };
        assert(copy.deep_view() =~= key@);
        self.root_page_id = tree_insert::<ByteKey>(pager, txn_id, self.root_page_id, copy, value)?;
        Ok(())
    }

    /// All entries. In a tree they are what it holds, in the order of their keys.
    pub fn scan_all(&self, pager: &Pager) -> (r: DbResult<Vec<LeafEntry<ByteKey>>>)
        ensures
            entries_result(r) == all_entries::<ByteKey>(pager@, self@),
            forall|pages: Set<PageId>, c: Map<Seq<u8>, Seq<u8>>| #[trigger]
                tree_holds::<ByteKey>(pager@, self@, pages, c) ==> r is Ok && lists_contents::<ByteKey>(
                    r->Ok_0.deep_view(),
                    c,
                ),
    {
        tree_scan::<ByteKey>(pager, self.root_page_id)
    }

    /// Takes a key out. A tree then holds what it held, but for the key.
    pub fn delete(&mut self, pager: &mut Pager, txn_id: u64, key: &[u8]) -> (r: DbResult<()>)
        requires
            old(pager)@.sound(),
        ensures
            step(
                r,
                final(pager)@,
                removed_below::<ByteKey>(old(pager)@, txn_id, old(self)@, key@, MAX_PAGES as nat),
            ),
            final(self)@ == old(self)@,
            forall|pages: Set<PageId>, c: Map<Seq<u8>, Seq<u8>>| #[trigger]
                tree_holds::<ByteKey>(old(pager)@, old(self)@, pages, c) && r is Ok ==> tree_became::<ByteKey>(
                    old(pager)@,
                    pages,
                    final(pager)@,
                    old(self)@,
                    c.remove(key@),
                ),
            final(pager)@.sound(),
    {
        let copy = ByteKey { bytes: slice_vec(key, 0, key.len()) };
        assert(copy.deep_view() =~= key@);
        tree_delete::<ByteKey>(pager, txn_id, self.root_page_id, &copy)
    }
}

} // verus!
