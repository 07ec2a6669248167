//! What writing pages keeps: numbers are only handed out upwards, and pages are whole.

use vstd::prelude::*;

use crate::common::bytes::splice;
use crate::sqlite3::layout::{
    allocated, filled_from, inserted, links_from, overflow_count, overflow_page, overflowed,
    page_built, rendered, CellView, Sheet, SheetsView,
};
use crate::sqlite3::pagination::{leaf_runs, Run};
use crate::sqlite3::trees::{
    cell_sizes, leaf_added, leaf_cells, leaf_sheet, leaves_from, level_added, levels, parent_added,
    parents_from, page_added, tree_built, ChildView, LeafView, TreeKind,
};

verus! {

/// Whether every page has the size of a page.
pub open spec fn sized(s: SheetsView) -> bool {
    forall|p: u64| #[trigger] s.pages.dom().contains(p) ==> s.pages[p].len() == 4096
}

/// What every step keeps: the next number never falls, and pages stay whole.
pub open spec fn grown(a: SheetsView, b: SheetsView) -> bool {
    a.next <= b.next && (sized(a) ==> sized(b))
}

proof fn lemma_inserted_grows(s: SheetsView, page_no: u32, page: Seq<u8>)
    requires
        inserted(s, page_no, page) is Ok,
        page.len() == 4096,
    ensures
        grown(s, inserted(s, page_no, page)->Ok_0),
{
}

proof fn lemma_links_grow(s: SheetsView, bytes: Seq<u8>, first: int, k: int)
    requires
        links_from(s, bytes, first, k) is Ok,
    ensures
        grown(s, links_from(s, bytes, first, k)->Ok_0),
    decreases overflow_count(bytes.len()) - k,
{
    if 0 <= k < overflow_count(bytes.len()) {
        let page = overflow_page(bytes, first, k);
        let next = inserted(s, (first + k) as u32, page)->Ok_0;
        lemma_inserted_grows(s, (first + k) as u32, page);
        lemma_links_grow(next, bytes, first, k + 1);
    }
}

proof fn lemma_rendered_grows(s: SheetsView, c: CellView)
    requires
        rendered(s, c) is Ok,
    ensures
        grown(s, rendered(s, c)->Ok_0.0),
{
    match c {
        CellView::Fixed { .. } => {},
        CellView::Spilling { payload, is_index, .. } => {
            let local = crate::sqlite3::layout::local_len(payload.len() as int, is_index);
            if local < payload.len() {
                let bytes = payload.skip(local);
                let start = SheetsView {
                    next: (s.next + overflow_count(bytes.len())) as u32,
                    pages: s.pages,
                };
                assert(overflowed(s, bytes) is Ok);
                lemma_links_grow(start, bytes, s.next as int, 0);
            }
        },
    }
}

proof fn lemma_filled_grows(
    s: SheetsView,
    sheet: Sheet,
    cells: Seq<CellView>,
    i: int,
    page: Seq<u8>,
    start: int,
    pointers: Seq<int>,
)
    requires
        filled_from(s, sheet, cells, i, page, start, pointers) is Ok,
        page.len() == 4096,
    ensures
        grown(s, filled_from(s, sheet, cells, i, page, start, pointers)->Ok_0.0),
        filled_from(s, sheet, cells, i, page, start, pointers)->Ok_0.1.len() == 4096,
    decreases cells.len() - i,
{
    if 0 <= i < cells.len() {
        lemma_rendered_grows(s, cells[i]);
        let (next, bytes) = rendered(s, cells[i])->Ok_0;
        lemma_filled_grows(
            next,
            sheet,
            cells,
            i + 1,
            splice(page, start - bytes.len(), bytes),
            start - bytes.len(),
            pointers.push(start - bytes.len()),
        );
    }
}

/// Putting cells on a page hands numbers out upwards, and the page is whole.
pub proof fn lemma_page_grows(s: SheetsView, sheet: Sheet, cells: Seq<CellView>)
    requires
        page_built(s, sheet, cells) is Ok,
    ensures
        grown(s, page_built(s, sheet, cells)->Ok_0.0),
        page_built(s, sheet, cells)->Ok_0.1.len() == 4096,
{
    lemma_filled_grows(
        s,
        sheet,
        cells,
        0,
        crate::sqlite3::layout::blank_page(),
        4096,
        Seq::empty(),
    );
}

proof fn lemma_page_added_grows(
    s: SheetsView,
    page_no: u32,
    sheet: Sheet,
    cells: Seq<CellView>,
    row_id: u64,
    separator: Seq<u8>,
)
    requires
        page_added(s, page_no, sheet, cells, row_id, separator) is Ok,
    ensures
        grown(s, page_added(s, page_no, sheet, cells, row_id, separator)->Ok_0.0),
{
    lemma_page_grows(s, sheet, cells);
    let (next, page) = page_built(s, sheet, cells)->Ok_0;
    lemma_inserted_grows(next, page_no, page);
}

proof fn lemma_leaves_grow(
    s: SheetsView,
    kind: TreeKind,
    leaves: Seq<LeafView>,
    runs: Seq<Run>,
    k: int,
    out: Seq<ChildView>,
)
    requires
        leaves_from(s, kind, leaves, runs, k, out) is Ok,
    ensures
        grown(s, leaves_from(s, kind, leaves, runs, k, out)->Ok_0.0),
    decreases runs.len() - k,
{
    if 0 <= k < runs.len() {
        let (s1, page_no) = allocated(s)->Ok_0;
        let run = runs[k];
        lemma_page_added_grows(
            s1,
            page_no,
            leaf_sheet(kind),
            leaf_cells(kind, leaves.subrange(run.0 as int, run.1 as int)),
            leaves[run.1 - 1].row_id,
            leaves[run.1 - 1].separator,
        );
        let (next, child) = leaf_added(s, kind, leaves, run)->Ok_0;
        lemma_leaves_grow(next, kind, leaves, runs, k + 1, out.push(child));
    }
}

proof fn lemma_parents_grow(
    s: SheetsView,
    kind: TreeKind,
    children: Seq<ChildView>,
    runs: Seq<Run>,
    k: int,
    root: u32,
    out: Seq<ChildView>,
)
    requires
        parents_from(s, kind, children, runs, k, root, out) is Ok,
    ensures
        grown(s, parents_from(s, kind, children, runs, k, root, out)->Ok_0.0),
    decreases runs.len() - k,
{
    if 0 <= k < runs.len() {
        let run = runs[k];
        let only = if runs.len() == 1 {
            Some(root)
        } else {
            None
        };
        let (s1, page_no) = match only {
            Some(p) => (s, p),
            None => allocated(s)->Ok_0,
        };
        lemma_page_added_grows(
            s1,
            page_no,
            crate::sqlite3::trees::interior_sheet(kind, children[run.1 - 1].page_no),
            crate::sqlite3::trees::child_cells(
                kind,
                children.subrange(run.0 as int, run.1 - 1),
            ),
            children[run.1 - 1].row_id,
            children[run.1 - 1].separator,
        );
        let (next, child) = parent_added(s, kind, children, run, only)->Ok_0;
        lemma_parents_grow(next, kind, children, runs, k + 1, root, out.push(child));
    }
}

proof fn lemma_levels_grow(s: SheetsView, kind: TreeKind, children: Seq<ChildView>, root: u32)
    requires
        levels(s, kind, children, root) is Ok,
    ensures
        grown(s, levels(s, kind, children, root)->Ok_0),
    decreases children.len(),
{
    if children.len() > 1 {
        let runs = crate::sqlite3::pagination::interior_runs(
            cell_sizes(crate::sqlite3::trees::child_cells(kind, children)),
        )->Ok_0;
        lemma_parents_grow(s, kind, children, runs, 0, root, Seq::empty());
        let (next, parents) = level_added(s, kind, children, root)->Ok_0;
        if parents.len() < children.len() {
            lemma_levels_grow(next, kind, parents, root);
        }
    }
}

/// Writing a tree hands numbers out upwards and keeps pages whole.
pub proof fn lemma_tree_grows(s: SheetsView, kind: TreeKind, leaves: Seq<LeafView>, root: u32)
    requires
        tree_built(s, kind, leaves, root) is Ok,
    ensures
        grown(s, tree_built(s, kind, leaves, root)->Ok_0),
{
    let runs = leaf_runs(cell_sizes(leaf_cells(kind, leaves)))->Ok_0;
    if runs.len() == 1 {
        lemma_page_grows(s, leaf_sheet(kind), leaf_cells(kind, leaves));
        let (next, page) = page_built(s, leaf_sheet(kind), leaf_cells(kind, leaves))->Ok_0;
        lemma_inserted_grows(next, root, page);
    } else {
        lemma_leaves_grow(s, kind, leaves, runs, 0, Seq::empty());
        let (next, children) = leaves_from(s, kind, leaves, runs, 0, Seq::empty())->Ok_0;
        lemma_levels_grow(next, kind, children, root);
    }
}

} // verus!
