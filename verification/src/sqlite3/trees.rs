//! Trees of pages: leaves with rows or keys, and pages above them that lead there.

use vstd::prelude::*;

use crate::common::bytes::{be_bytes, be_vec, copy_bytes};
use crate::sqlite3::layout::{
    allocated, build_page, cell_size, inserted, page_built, size_of_cell, step, Cell, CellView,
    Sheet, Sheets, SheetsView,
};
use crate::sqlite3::pagination::{
    interior_runs, law_interior_runs_follow, law_leaf_runs_cover, leaf_runs,
    paginate_interior_children, paginate_leaf_cells, runs_cover, Run,
};
use crate::sqlite3::reals::{Eval, StopView};
use crate::sqlite3::varint::{encode_varint, varint};

verus! {

/// What a tree holds: rows by their number, or records in their own order.
#[derive(Debug, Clone, Copy, PartialEq, Eq, Structural)]
pub enum TreeKind {
    Table,
    Index,
}

/// A row or a key of a tree. A page above a leaf tells its last row by `row_id`, or its last
/// key by `separator`.
pub struct Leaf {
    pub row_id: u64,
    pub payload: Vec<u8>,
    pub separator: Vec<u8>,
}

/// The model of a row or a key.
pub struct LeafView {
    pub row_id: u64,
    pub payload: Seq<u8>,
    pub separator: Seq<u8>,
}

impl View for Leaf {
    type V = LeafView;

    open spec fn view(&self) -> LeafView {
        LeafView { row_id: self.row_id, payload: self.payload@, separator: self.separator@ }
    }
}

impl DeepView for Leaf {
    type V = LeafView;

    open spec fn deep_view(&self) -> LeafView {
        self@
    }
}

/// A page and the last row or key below it.
pub struct Child {
    pub page_no: u32,
    pub row_id: u64,
    pub separator: Vec<u8>,
}

/// The model of a page below another.
pub struct ChildView {
    pub page_no: u32,
    pub row_id: u64,
    pub separator: Seq<u8>,
}

impl View for Child {
    type V = ChildView;

    open spec fn view(&self) -> ChildView {
        ChildView { page_no: self.page_no, row_id: self.row_id, separator: self.separator@ }
    }
}

impl DeepView for Child {
    type V = ChildView;

    open spec fn deep_view(&self) -> ChildView {
        self@
    }
}

/// The cell of a row or a key.
pub open spec fn leaf_cell(kind: TreeKind, l: LeafView) -> CellView {
    CellView::Spilling {
        before: Seq::empty(),
        after: if kind is Table {
            varint(l.row_id)
        } else {
            Seq::empty()
        },
        payload: l.payload,
        is_index: kind is Index,
    }
}

/// The cell that leads to a page.
pub open spec fn child_cell(kind: TreeKind, c: ChildView) -> CellView {
    match kind {
        TreeKind::Table => CellView::Fixed {
            bytes: be_bytes(c.page_no as nat, 4) + varint(c.row_id),
        },
        TreeKind::Index => CellView::Spilling {
            before: be_bytes(c.page_no as nat, 4),
            after: Seq::empty(),
            payload: c.separator,
            is_index: true,
        },
    }
}

/// The cells of rows or keys.
pub open spec fn leaf_cells(kind: TreeKind, leaves: Seq<LeafView>) -> Seq<CellView> {
    Seq::new(leaves.len(), |i: int| leaf_cell(kind, leaves[i]))
}

/// The cells that lead to pages.
pub open spec fn child_cells(kind: TreeKind, children: Seq<ChildView>) -> Seq<CellView> {
    Seq::new(children.len(), |i: int| child_cell(kind, children[i]))
}

/// The sizes of cells.
pub open spec fn cell_sizes(cells: Seq<CellView>) -> Seq<u128> {
    Seq::new(cells.len(), |i: int| cell_size(cells[i]) as u128)
}

/// The kind of page that rows or keys stand on.
pub open spec fn leaf_sheet(kind: TreeKind) -> Sheet {
    match kind {
        TreeKind::Table => Sheet::LeafTable,
        TreeKind::Index => Sheet::LeafIndex,
    }
}

/// The kind of page that leads to others.
pub open spec fn interior_sheet(kind: TreeKind, rightmost: u32) -> Sheet {
    match kind {
        TreeKind::Table => Sheet::InteriorTable { rightmost },
        TreeKind::Index => Sheet::InteriorIndex { rightmost },
    }
}

/// A page written under a number that was taken for it, and what leads to it.
pub open spec fn page_added(
    s: SheetsView,
    page_no: u32,
    sheet: Sheet,
    cells: Seq<CellView>,
    row_id: u64,
    separator: Seq<u8>,
) -> Result<(SheetsView, ChildView), StopView> {
    match page_built(s, sheet, cells) {
        Err(e) => Err(e),
        Ok((s2, page)) => match inserted(s2, page_no, page) {
            Err(e) => Err(e),
            Ok(s3) => Ok((s3, ChildView { page_no, row_id, separator })),
        },
    }
}

/// The leaf page of a run written, and what leads to it.
pub open spec fn leaf_added(s: SheetsView, kind: TreeKind, leaves: Seq<LeafView>, run: Run) -> Result<
    (SheetsView, ChildView),
    StopView,
> {
    match allocated(s) {
        Err(e) => Err(e),
        Ok((s1, page_no)) => page_added(
            s1,
            page_no,
            leaf_sheet(kind),
            leaf_cells(kind, leaves.subrange(run.0 as int, run.1 as int)),
            leaves[run.1 - 1].row_id,
            leaves[run.1 - 1].separator,
        ),
    }
}

/// Leaf pages written, from one run on, and what leads to them.
pub open spec fn leaves_from(
    s: SheetsView,
    kind: TreeKind,
    leaves: Seq<LeafView>,
    runs: Seq<Run>,
    k: int,
    out: Seq<ChildView>,
) -> Result<(SheetsView, Seq<ChildView>), StopView>
    decreases runs.len() - k,
{
    if k < 0 || k >= runs.len() {
        Ok((s, out))
    } else {
        match leaf_added(s, kind, leaves, runs[k]) {
            Err(e) => Err(e),
            Ok((next, child)) => leaves_from(next, kind, leaves, runs, k + 1, out.push(child)),
        }
    }
}

/// The interior page of a run written, and what leads to it. The only page of a level is the
/// root.
pub open spec fn parent_added(
    s: SheetsView,
    kind: TreeKind,
    children: Seq<ChildView>,
    run: Run,
    root: Option<u32>,
) -> Result<(SheetsView, ChildView), StopView> {
    match (match root {
        Some(page_no) => Ok((s, page_no)),
        None => allocated(s),
    }) {
        Err(e) => Err(e),
        Ok((s1, page_no)) => page_added(
            s1,
            page_no,
            interior_sheet(kind, children[run.1 - 1].page_no),
            child_cells(kind, children.subrange(run.0 as int, run.1 - 1)),
            children[run.1 - 1].row_id,
            children[run.1 - 1].separator,
        ),
    }
}

/// Interior pages written, from one run on, and what leads to them.
pub open spec fn parents_from(
    s: SheetsView,
    kind: TreeKind,
    children: Seq<ChildView>,
    runs: Seq<Run>,
    k: int,
    root: u32,
    out: Seq<ChildView>,
) -> Result<(SheetsView, Seq<ChildView>), StopView>
    decreases runs.len() - k,
{
    if k < 0 || k >= runs.len() {
        Ok((s, out))
    } else {
        match parent_added(
            s,
            kind,
            children,
            runs[k],
            if runs.len() == 1 {
                Some(root)
            } else {
                None
            },
        ) {
            Err(e) => Err(e),
            Ok((next, child)) => parents_from(
                next,
                kind,
                children,
                runs,
                k + 1,
                root,
                out.push(child),
            ),
        }
    }
}

/// The levels above some pages, up to the root.
pub open spec fn levels(s: SheetsView, kind: TreeKind, children: Seq<ChildView>, root: u32) -> Result<
    SheetsView,
    StopView,
>
    decreases children.len(),
{
    if children.len() <= 1 {
        Ok(s)
    } else {
        match level_added(s, kind, children, root) {
            Err(e) => Err(e),
            Ok((next, parents)) => if parents.len() >= children.len() {
                Ok(next)
            } else {
                levels(next, kind, parents, root)
            },
        }
    }
}

/// A tree written: one page where everything fits, or leaves and the levels above them.
pub open spec fn tree_built(s: SheetsView, kind: TreeKind, leaves: Seq<LeafView>, root: u32) -> Result<
    SheetsView,
    StopView,
> {
    match leaf_runs(cell_sizes(leaf_cells(kind, leaves))) {
        Err(e) => Err(e),
        Ok(runs) => if runs.len() == 1 {
            match page_built(s, leaf_sheet(kind), leaf_cells(kind, leaves)) {
                Err(e) => Err(e),
                Ok((next, page)) => inserted(next, root, page),
            }
        } else {
            match leaves_from(s, kind, leaves, runs, 0, Seq::empty()) {
                Err(e) => Err(e),
                Ok((next, children)) => levels(next, kind, children, root),
            }
        },
    }
}

fn cell_of_leaf(kind: TreeKind, l: &Leaf) -> (r: Cell)
    ensures
        r@ == leaf_cell(kind, l@),
{
    match kind {
        TreeKind::Table => Cell::Spilling {
            before: Vec::new(),
            after: encode_varint(l.row_id),
            payload: copy_bytes(&l.payload),
            is_index: false,
        },
        TreeKind::Index => Cell::Spilling {
            before: Vec::new(),
            after: Vec::new(),
            payload: copy_bytes(&l.payload),
            is_index: true,
        },
    }
}

fn cell_of_child(kind: TreeKind, c: &Child) -> (r: Cell)
    ensures
        r@ == child_cell(kind, c@),
{
    let mut bytes = be_vec(c.page_no as u64, 4);
    match kind {
        TreeKind::Table => {
            let mut row = encode_varint(c.row_id);
            bytes.append(&mut row);
            Cell::Fixed { bytes }
        },
        TreeKind::Index => Cell::Spilling {
            before: bytes,
            after: Vec::new(),
            payload: copy_bytes(&c.separator),
            is_index: true,
        },
    }
}

fn cells_of_leaves(kind: TreeKind, leaves: &Vec<Leaf>, from: usize, to: usize) -> (r: Vec<Cell>)
    requires
        from <= to <= leaves@.len(),
    ensures
        r.deep_view() == leaf_cells(kind, leaves.deep_view().subrange(from as int, to as int)),
{
    let mut r: Vec<Cell> = Vec::new();
    let mut i: usize = from;
    while i < to
        invariant
            from <= i <= to <= leaves@.len(),
            r@.len() == i - from,
            forall|k: int|
                0 <= k < i - from ==> (#[trigger] r@[k])@ == leaf_cell(kind, leaves@[from + k]@),
        decreases to - i,
    {
        r.push(cell_of_leaf(kind, &leaves[i]));
        i = i + 1;
    }
    assert(r.deep_view() =~= leaf_cells(
        kind,
        leaves.deep_view().subrange(from as int, to as int),
    ));
    r
}

fn cells_of_children(kind: TreeKind, children: &Vec<Child>, from: usize, to: usize) -> (r: Vec<Cell>)
    requires
        from <= to <= children@.len(),
    ensures
        r.deep_view() == child_cells(kind, children.deep_view().subrange(from as int, to as int)),
{
    let mut r: Vec<Cell> = Vec::new();
    let mut i: usize = from;
    while i < to
        invariant
            from <= i <= to <= children@.len(),
            r@.len() == i - from,
            forall|k: int|
                0 <= k < i - from ==> (#[trigger] r@[k])@ == child_cell(kind, children@[from + k]@),
        decreases to - i,
    {
        r.push(cell_of_child(kind, &children[i]));
        i = i + 1;
    }
    assert(r.deep_view() =~= child_cells(
        kind,
        children.deep_view().subrange(from as int, to as int),
    ));
    r
}

fn sizes_of(cells: &Vec<Cell>) -> (r: Vec<u128>)
    ensures
        r@ == cell_sizes(cells.deep_view()),
        forall|i: int| 0 <= i < r@.len() ==> #[trigger] r@[i] <= 0x4_0000_0000_0000_0000,
{
    let mut r: Vec<u128> = Vec::new();
    let mut i: usize = 0;
    while i < cells.len()
        invariant
            i <= cells@.len(),
            r@.len() == i,
            forall|k: int|
                0 <= k < i ==> #[trigger] r@[k] == cell_size(cells@[k]@) && r@[k]
                    <= 0x4_0000_0000_0000_0000,
        decreases cells@.len() - i,
    {
        r.push(size_of_cell(&cells[i]));
        i = i + 1;
    }
    assert(r@ =~= cell_sizes(cells.deep_view()));
    r
}

/// The model of a step that writes pages and gives what leads to them.
pub open spec fn step_children(r: Eval<Vec<Child>>, s: SheetsView) -> Result<
    (SheetsView, Seq<ChildView>),
    StopView,
> {
    match r {
        Ok(v) => Ok((s, v.deep_view())),
        Err(e) => Err(e@),
    }
}

/// The model of a step that writes a page and gives what leads to it.
pub open spec fn step_child(r: Eval<Child>, s: SheetsView) -> Result<
    (SheetsView, ChildView),
    StopView,
> {
    match r {
        Ok(c) => Ok((s, c@)),
        Err(e) => Err(e@),
    }
}

fn add_page(
    sheets: &mut Sheets,
    page_no: u32,
    sheet: Sheet,
    cells: &Vec<Cell>,
    row_id: u64,
    separator: &Vec<u8>,
) -> (r: Eval<Child>)
    ensures
        step_child(
            r,
            if r is Ok {
                final(sheets)@
            } else {
                old(sheets)@
            },
        ) == page_added(old(sheets)@, page_no, sheet, cells.deep_view(), row_id, separator@),
{
    let page = build_page(sheets, sheet, cells)?;
    sheets.insert_page(page_no, page)?;
    Ok(Child { page_no, row_id, separator: copy_bytes(separator) })
}

fn add_leaf(sheets: &mut Sheets, kind: TreeKind, leaves: &Vec<Leaf>, run: Run) -> (r: Eval<Child>)
    requires
        run.0 < run.1 <= leaves@.len(),
    ensures
        step_child(
            r,
            if r is Ok {
                final(sheets)@
            } else {
                old(sheets)@
            },
        ) == leaf_added(old(sheets)@, kind, leaves.deep_view(), run),
{
    let (from, to): Run = run;
    let page_no: u32 = sheets.allocate_page()?;
    let cells = cells_of_leaves(kind, leaves, from, to);
    let sheet = match kind {
        TreeKind::Table => Sheet::LeafTable,
        TreeKind::Index => Sheet::LeafIndex,
    };
    let last = &leaves[to - 1];
    assert(leaves.deep_view()[to - 1] == leaves@[to - 1]@);
    add_page(sheets, page_no, sheet, &cells, last.row_id, &last.separator)
}

fn add_parent(
    sheets: &mut Sheets,
    kind: TreeKind,
    children: &Vec<Child>,
    run: Run,
    root: Option<u32>,
) -> (r: Eval<Child>)
    requires
        run.0 + 2 <= run.1 <= children@.len(),
    ensures
        step_child(
            r,
            if r is Ok {
                final(sheets)@
            } else {
                old(sheets)@
            },
        ) == parent_added(old(sheets)@, kind, children.deep_view(), run, root),
{
    let (from, to): Run = run;
    let page_no: u32 = match root {
        Some(p) => p,
        None => sheets.allocate_page()?,
    };
    let last = &children[to - 1];
    assert(children.deep_view()[to - 1] == children@[to - 1]@);
    let cells = cells_of_children(kind, children, from, to - 1);
    let sheet = match kind {
        TreeKind::Table => Sheet::InteriorTable { rightmost: last.page_no },
        TreeKind::Index => Sheet::InteriorIndex { rightmost: last.page_no },
    };
    add_page(sheets, page_no, sheet, &cells, last.row_id, &last.separator)
}

fn write_leaves(sheets: &mut Sheets, kind: TreeKind, leaves: &Vec<Leaf>, runs: &Vec<Run>) -> (r: Eval<
    Vec<Child>,
>)
    requires
        forall|k: int|
            0 <= k < runs@.len() ==> (#[trigger] runs@[k]).0 < runs@[k].1 <= leaves@.len(),
    ensures
        step_children(
            r,
            if r is Ok {
                final(sheets)@
            } else {
                old(sheets)@
            },
        ) == leaves_from(old(sheets)@, kind, leaves.deep_view(), runs@, 0, Seq::empty()),
{
    let ghost a = leaves.deep_view();
    let mut out: Vec<Child> = Vec::new();
    let mut k: usize = 0;
    assert(out.deep_view() =~= Seq::<ChildView>::empty());
    while k < runs.len()
        invariant
            a == leaves.deep_view(),
            k <= runs@.len(),
            forall|j: int|
                0 <= j < runs@.len() ==> (#[trigger] runs@[j]).0 < runs@[j].1 <= leaves@.len(),
            leaves_from(sheets@, kind, a, runs@, k as int, out.deep_view()) == leaves_from(
                old(sheets)@,
                kind,
                a,
                runs@,
                0,
                Seq::empty(),
            ),
        decreases runs@.len() - k,
    {
        let child = add_leaf(sheets, kind, leaves, runs[k])?;
        let ghost before = out.deep_view();
        out.push(child);
        assert(out.deep_view() =~= before.push(child@));
        k = k + 1;
    }
    Ok(out)
}

fn write_parents(
    sheets: &mut Sheets,
    kind: TreeKind,
    children: &Vec<Child>,
    runs: &Vec<Run>,
    root: u32,
) -> (r: Eval<Vec<Child>>)
    requires
        forall|k: int|
            0 <= k < runs@.len() ==> (#[trigger] runs@[k]).0 + 2 <= runs@[k].1 <= children@.len(),
    ensures
        step_children(
            r,
            if r is Ok {
                final(sheets)@
            } else {
                old(sheets)@
            },
        ) == parents_from(old(sheets)@, kind, children.deep_view(), runs@, 0, root, Seq::empty()),
        r matches Ok(v) ==> v@.len() == runs@.len(),
{
    let ghost a = children.deep_view();
    let mut out: Vec<Child> = Vec::new();
    let only: Option<u32> = if runs.len() == 1 {
        Some(root)
    } else {
        None
    };
    let mut k: usize = 0;
    assert(out.deep_view() =~= Seq::<ChildView>::empty());
    while k < runs.len()
        invariant
            a == children.deep_view(),
            k <= runs@.len(),
            out@.len() == k,
            only == (if runs@.len() == 1 {
                Some(root)
            } else {
                None
            }),
            forall|j: int|
                0 <= j < runs@.len() ==> (#[trigger] runs@[j]).0 + 2 <= runs@[j].1
                    <= children@.len(),
            parents_from(sheets@, kind, a, runs@, k as int, root, out.deep_view()) == parents_from(
                old(sheets)@,
                kind,
                a,
                runs@,
                0,
                root,
                Seq::empty(),
            ),
        decreases runs@.len() - k,
    {
        let child = add_parent(sheets, kind, children, runs[k], only)?;
        let ghost before = out.deep_view();
        out.push(child);
        assert(out.deep_view() =~= before.push(child@));
        k = k + 1;
    }
    Ok(out)
}

/// One level above some pages, if there has to be one.
pub open spec fn level_added(s: SheetsView, kind: TreeKind, children: Seq<ChildView>, root: u32) -> Result<
    (SheetsView, Seq<ChildView>),
    StopView,
> {
    match interior_runs(cell_sizes(child_cells(kind, children))) {
        Err(e) => Err(e),
        Ok(runs) => parents_from(s, kind, children, runs, 0, root, Seq::empty()),
    }
}

fn write_level(sheets: &mut Sheets, kind: TreeKind, children: &Vec<Child>, root: u32) -> (r: Eval<
    Vec<Child>,
>)
    requires
        children@.len() > 1,
    ensures
        step_children(
            r,
            if r is Ok {
                final(sheets)@
            } else {
                old(sheets)@
            },
        ) == level_added(old(sheets)@, kind, children.deep_view(), root),
        r matches Ok(v) ==> v@.len() < children@.len(),
{
    let total: usize = children.len();
    let cells = cells_of_children(kind, children, 0, total);
    assert(children.deep_view().subrange(0, total as int) =~= children.deep_view());
    let sizes = sizes_of(&cells);
    let runs = paginate_interior_children(&sizes)?;
    proof {
        assert(sizes@.len() == total);
        law_interior_runs_follow(sizes@);
    }
    write_parents(sheets, kind, children, &runs, root)
}

fn write_levels(sheets: &mut Sheets, kind: TreeKind, children: Vec<Child>, root: u32) -> (r: Eval<()>)
    ensures
        step(
            r,
            if r is Ok {
                final(sheets)@
            } else {
                old(sheets)@
            },
        ) == levels(old(sheets)@, kind, children.deep_view(), root),
{
    let mut level = children;
    while level.len() > 1
        invariant
            levels(sheets@, kind, level.deep_view(), root) == levels(
                old(sheets)@,
                kind,
                children.deep_view(),
                root,
            ),
        decreases level@.len(),
    {
        level = write_level(sheets, kind, &level, root)?;
    }
    Ok(())
}

/// Writes a tree whose rows or keys are given in order.
pub fn build_tree(sheets: &mut Sheets, kind: TreeKind, leaves: &Vec<Leaf>, root: u32) -> (r: Eval<
    (),
>)
    ensures
        r is Ok ==> step(r, final(sheets)@) == tree_built(
            old(sheets)@,
            kind,
            leaves.deep_view(),
            root,
        ),
        r is Err ==> step(r, old(sheets)@) == tree_built(
            old(sheets)@,
            kind,
            leaves.deep_view(),
            root,
        ),
{
    let total: usize = leaves.len();
    let cells = cells_of_leaves(kind, leaves, 0, total);
    assert(leaves.deep_view().subrange(0, total as int) =~= leaves.deep_view());
    let sizes = sizes_of(&cells);
    let runs = paginate_leaf_cells(&sizes)?;
    if runs.len() == 1 {
        let sheet = match kind {
            TreeKind::Table => Sheet::LeafTable,
            TreeKind::Index => Sheet::LeafIndex,
        };
        let page = build_page(sheets, sheet, &cells)?;
        return sheets.insert_page(root, page);
    }
    proof {
        assert(sizes@.len() == total);
        if total > 0 {
            law_leaf_runs_cover(sizes@);
            reveal(runs_cover);
        }
    }
    let children = write_leaves(sheets, kind, leaves, &runs)?;
    write_levels(sheets, kind, children, root)
}

} // verus!
