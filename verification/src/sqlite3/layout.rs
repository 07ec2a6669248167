//! Cells and pages of a file that is being written.

use vstd::prelude::*;

use crate::common::bytes::{
    be_bytes, be_vec, copy_bytes, lemma_be_bytes_len, lemma_be_round_trip, lemma_byte_ranges,
    push_be, put_bytes, slice_vec, splice, zero_vec,
};
use crate::common::error::ErrorView;
use crate::common::ordmap::OrdMap;
use crate::common::text::{nat_text, u64_text};
use crate::sqlite3::pager::{chain, chain_from, page_of, smaller, DatabaseHeader};
use crate::sqlite3::reals::{fail, storage_stop, Eval, StopView};
use crate::sqlite3::varint::{encode_varint, len_of_varint, varint, varint_len};

verus! {

/// The size of a page.
pub const PAGE_SIZE: usize = 4096;

/// How many bytes of a payload an overflow page holds.
pub const OVERFLOW_CHUNK: usize = 4092;

/// The pages written so far, and the number of the next one.
pub struct Sheets {
    pub next: u32,
    pub pages: OrdMap<u64, Vec<u8>>,
}

/// The model of the pages written so far.
#[verifier::ext_equal]
pub struct SheetsView {
    pub next: u32,
    pub pages: Map<u64, Seq<u8>>,
}

impl View for Sheets {
    type V = SheetsView;

    open spec fn view(&self) -> SheetsView {
        SheetsView { next: self.next, pages: self.pages@ }
    }
}

/// The model of a step that may write pages and gives bytes.
pub open spec fn step_bytes(r: Eval<Vec<u8>>, s: SheetsView) -> Result<
    (SheetsView, Seq<u8>),
    StopView,
> {
    match r {
        Ok(v) => Ok((s, v@)),
        Err(e) => Err(e@),
    }
}

/// The model of a step that may write pages and gives a number.
pub open spec fn step_number(r: Eval<u32>, s: SheetsView) -> Result<(SheetsView, u32), StopView> {
    match r {
        Ok(n) => Ok((s, n)),
        Err(e) => Err(e@),
    }
}

/// The model of a step that only writes pages.
pub open spec fn step(r: Eval<()>, s: SheetsView) -> Result<SheetsView, StopView> {
    match r {
        Ok(_) => Ok(s),
        Err(e) => Err(e@),
    }
}

/// The next page number.
pub open spec fn allocated(s: SheetsView) -> Result<(SheetsView, u32), StopView> {
    if s.next == u32::MAX {
        Err(storage_stop("sqlite page number overflow"@))
    } else {
        Ok((SheetsView { next: (s.next + 1) as u32, pages: s.pages }, s.next))
    }
}

/// A page added.
pub open spec fn inserted(s: SheetsView, page_no: u32, page: Seq<u8>) -> Result<
    SheetsView,
    StopView,
> {
    if s.pages.dom().contains(page_no as u64) {
        Err(
            storage_stop(
                "sqlite page "@ + nat_text(page_no as nat) + " was assigned more than once"@,
            ),
        )
    } else {
        Ok(SheetsView { next: s.next, pages: s.pages.insert(page_no as u64, page) })
    }
}

impl Sheets {
    /// No pages yet; `next` is the first number to hand out.
    pub fn new(next: u32) -> (r: Sheets)
        ensures
            r@ == (SheetsView { next, pages: Map::empty() }),
    {
        Sheets { next, pages: OrdMap::new() }
    }

    /// Takes the next page number.
    pub fn allocate_page(&mut self) -> (r: Eval<u32>)
        ensures
            r is Ok ==> step_number(r, final(self)@) == allocated(old(self)@),
            r is Err ==> step_number(r, old(self)@) == allocated(old(self)@),
    {
        let page_no: u32 = self.next;
        if page_no == u32::MAX {
            return Err(fail("sqlite page number overflow"));
        }
        self.next = page_no + 1;
        Ok(page_no)
    }

    /// Adds a page.
    pub fn insert_page(&mut self, page_no: u32, page: Vec<u8>) -> (r: Eval<()>)
        ensures
            step(r, final(self)@) == inserted(old(self)@, page_no, page@),
    {
        if self.pages.contains_key(&(page_no as u64)) {
            let mut message = "sqlite page ".to_owned();
            message.append(u64_text(page_no as u64).as_str());
            message.append(" was assigned more than once");
            return Err(fail(message.as_str()));
        }
        assert(page.deep_view() =~= page@);
        let _ = self.pages.insert(page_no as u64, page);
        Ok(())
    }
}

// ---------------------------------------------------------------------------
// Payloads

/// How many bytes of a payload stand in its cell at most.
pub open spec fn max_local(is_index: bool) -> int {
    if is_index {
        1002
    } else {
        4061
    }
}

/// How many bytes of a payload stand in its cell. The rest goes to overflow pages.
pub open spec fn local_len(len: int, is_index: bool) -> int {
    if len <= max_local(is_index) {
        len
    } else {
        let local = 489 + (len - 489) % 4092;
        if local > max_local(is_index) {
            489
        } else {
            local
        }
    }
}

/// How many bytes of a payload stand in its cell.
pub fn leaf_local_payload_len(len: usize, is_index: bool) -> (r: usize)
    ensures
        r == local_len(len as int, is_index),
        r <= len,
        r <= max_local(is_index),
{
    let limit: usize = if is_index {
        1002
    } else {
        4061
    };
    if len <= limit {
        return len;
    }
    let local: usize = 489 + (len - 489) % OVERFLOW_CHUNK;
    if local > limit {
        489
    } else {
        local
    }
}

/// A page of zero bytes.
pub open spec fn blank_page() -> Seq<u8> {
    Seq::new(4096, |i: int| 0u8)
}

fn blank() -> (r: Vec<u8>)
    ensures
        r@ == blank_page(),
{
    let r = zero_vec(PAGE_SIZE);
    assert(r@ =~= blank_page());
    r
}

/// How many overflow pages a number of bytes takes.
pub open spec fn overflow_count(len: nat) -> nat {
    (len + 4091) / 4092
}

/// Where a part of an overflowing payload ends.
pub open spec fn chunk_end(len: nat, k: int) -> int {
    smaller((k + 1) * 4092, len as int)
}

/// One of the overflow pages of a payload: the number of the next, and a part of the bytes.
pub open spec fn overflow_page(bytes: Seq<u8>, first: int, k: int) -> Seq<u8> {
    let next = if k + 1 < overflow_count(bytes.len()) {
        first + k + 1
    } else {
        0
    };
    splice(
        splice(blank_page(), 0, be_bytes(next as nat, 4)),
        4,
        bytes.subrange(k * 4092, chunk_end(bytes.len(), k)),
    )
}

/// Overflow pages added, from one of them on.
pub open spec fn links_from(s: SheetsView, bytes: Seq<u8>, first: int, k: int) -> Result<
    SheetsView,
    StopView,
>
    decreases overflow_count(bytes.len()) - k,
{
    if k < 0 || k >= overflow_count(bytes.len()) {
        Ok(s)
    } else {
        match inserted(s, (first + k) as u32, overflow_page(bytes, first, k)) {
            Err(e) => Err(e),
            Ok(next) => links_from(next, bytes, first, k + 1),
        }
    }
}

/// Bytes written to overflow pages; the number of the first of them.
pub open spec fn overflowed(s: SheetsView, bytes: Seq<u8>) -> Result<(SheetsView, u32), StopView> {
    if bytes.len() == 0 {
        Err(
            storage_stop("sqlite overflow writer requires at least one overflow payload byte"@),
        )
    } else if s.next + overflow_count(bytes.len()) > u32::MAX {
        Err(storage_stop("sqlite page number overflow"@))
    } else {
        match links_from(
            SheetsView { next: (s.next + overflow_count(bytes.len())) as u32, pages: s.pages },
            bytes,
            s.next as int,
            0,
        ) {
            Err(e) => Err(e),
            Ok(next) => Ok((next, s.next)),
        }
    }
}

/// Writes bytes to overflow pages.
pub fn write_overflow_chain(sheets: &mut Sheets, bytes: &[u8]) -> (r: Eval<u32>)
    ensures
        r is Ok ==> step_number(r, final(sheets)@) == overflowed(old(sheets)@, bytes@),
        r is Err ==> step_number(r, old(sheets)@) == overflowed(old(sheets)@, bytes@),
{
    if bytes.len() == 0 {
        return Err(
            fail("sqlite overflow writer requires at least one overflow payload byte"),
        );
    }
    let total: usize = bytes.len();
    let len: u128 = total as u128;
    let count: u128 = (len + 4091) / 4092;
    let first: u32 = sheets.next;
    if first as u128 + count > u32::MAX as u128 {
        return Err(fail("sqlite page number overflow"));
    }
    sheets.next = (first as u128 + count) as u32;
    let ghost s0 = sheets@;
    let mut k: u32 = 0;
    assert((k as u128) < count);
    while (k as u128) < count
        invariant
            len == total == bytes@.len(),
            count == overflow_count(bytes@.len()),
            first + count <= u32::MAX,
            k <= count,
            links_from(sheets@, bytes@, first as int, k as int) == links_from(
                s0,
                bytes@,
                first as int,
                0,
            ),
            overflowed(old(sheets)@, bytes@) == (match links_from(s0, bytes@, first as int, 0) {
                Err(e) => Err::<(SheetsView, u32), StopView>(e),
                Ok(next) => Ok((next, first)),
            }),
        decreases count - k,
    {
        assert(k * 4092 < len);
        let start: usize = k as usize * OVERFLOW_CHUNK;
        let end: usize = if total - start < OVERFLOW_CHUNK {
            total
        } else {
            start + OVERFLOW_CHUNK
        };
        let next: u32 = if (k as u128 + 1) < count {
            first + k + 1
        } else {
            0
        };
        let mut page = blank();
        let pointer = be_vec(next as u64, 4);
        proof {
            lemma_be_bytes_len(next as nat, 4);
        }
        put_bytes(&mut page, 0, pointer.as_slice());
        let data = slice_vec(bytes, start, end);
        put_bytes(&mut page, 4, data.as_slice());
        assert(page@ == overflow_page(bytes@, first as int, k as int));
        sheets.insert_page(first + k, page)?;
        k = k + 1;
    }
    Ok(first)
}

/// What is written to overflow pages is read back from them: in a file whose pages are those
/// that were written, the chain that starts at the number given holds the bytes.
pub proof fn law_overflow_round_trip(s: SheetsView, bytes: Seq<u8>, file: Seq<u8>)
    requires
        overflowed(s, bytes) is Ok,
        s.next > 0,
        forall|p: u32|
            (#[trigger] overflowed(s, bytes)->Ok_0.0.pages.dom().contains(p as u64)) ==> page_of(
                file,
                4096,
                p,
            ) == Ok::<Seq<u8>, ErrorView>(overflowed(s, bytes)->Ok_0.0.pages[p as u64]),
    ensures
        chain(
            file,
            DatabaseHeader { page_size: 4096, reserved: 0 },
            overflowed(s, bytes)->Ok_0.1,
            bytes.len(),
        ) == Ok::<Seq<u8>, ErrorView>(bytes),
{
    let start = SheetsView {
        next: (s.next + overflow_count(bytes.len())) as u32,
        pages: s.pages,
    };
    lemma_links(start, bytes, s.next as int, 0);
    assert(bytes.subrange(0, 0) =~= Seq::<u8>::empty());
    lemma_chain_read(
        bytes,
        s.next as int,
        0,
        file,
        overflowed(s, bytes)->Ok_0.0.pages,
    );
}

proof fn lemma_links(s: SheetsView, bytes: Seq<u8>, first: int, k: int)
    requires
        links_from(s, bytes, first, k) is Ok,
        0 <= k,
        0 <= first,
        first + overflow_count(bytes.len()) <= u32::MAX,
    ensures
        s.pages.submap_of(links_from(s, bytes, first, k)->Ok_0.pages),
        forall|j: int|
            k <= j < overflow_count(bytes.len()) ==> {
                &&& #[trigger] links_from(s, bytes, first, k)->Ok_0.pages.dom().contains(
                    (first + j) as u64,
                )
                &&& links_from(s, bytes, first, k)->Ok_0.pages[(first + j) as u64] == overflow_page(
                    bytes,
                    first,
                    j,
                )
            },
    decreases overflow_count(bytes.len()) - k,
{
    if k < overflow_count(bytes.len()) {
        let next = inserted(s, (first + k) as u32, overflow_page(bytes, first, k))->Ok_0;
        lemma_links(next, bytes, first, k + 1);
        let done = links_from(s, bytes, first, k)->Ok_0;
        assert(next.pages.dom().contains((first + k) as u64));
        assert(done.pages.dom().contains((first + k) as u64));
        assert forall|p: u64| #[trigger] s.pages.dom().contains(p) implies done.pages.dom().contains(
            p,
        ) && done.pages[p] == s.pages[p] by {
            assert(next.pages.dom().contains(p));
        }
    }
}

proof fn lemma_chain_read(
    bytes: Seq<u8>,
    first: int,
    k: int,
    file: Seq<u8>,
    pages: Map<u64, Seq<u8>>,
)
    requires
        0 <= k < overflow_count(bytes.len()),
        0 < first,
        first + overflow_count(bytes.len()) <= u32::MAX,
        forall|j: int|
            0 <= j < overflow_count(bytes.len()) ==> {
                &&& #[trigger] pages.dom().contains((first + j) as u64)
                &&& pages[(first + j) as u64] == overflow_page(bytes, first, j)
            },
        forall|p: u32|
            (#[trigger] pages.dom().contains(p as u64)) ==> page_of(file, 4096, p) == Ok::<
                Seq<u8>,
                ErrorView,
            >(pages[p as u64]),
    ensures
        chain_from(
            file,
            DatabaseHeader { page_size: 4096, reserved: 0 },
            (first + k) as u32,
            (bytes.len() - k * 4092) as nat,
            bytes.subrange(0, k * 4092),
        ) == Ok::<Seq<u8>, ErrorView>(bytes),
    decreases overflow_count(bytes.len()) - k,
{
    let count = overflow_count(bytes.len());
    let page = overflow_page(bytes, first, k);
    let p = (first + k) as u32;
    assert(pages.dom().contains((first + k) as u64));
    assert(pages.dom().contains(p as u64));
    assert(page_of(file, 4096, p) == Ok::<Seq<u8>, ErrorView>(page));
    let remaining = (bytes.len() - k * 4092) as nat;
    assert(remaining > 0);
    let taken = smaller(remaining as int, 4092);
    let next = if k + 1 < count {
        first + k + 1
    } else {
        0
    };
    lemma_byte_ranges();
    lemma_be_round_trip(next as nat, 4);
    assert(page.subrange(0, 4) =~= be_bytes(next as nat, 4));
    let data = bytes.subrange(k * 4092, chunk_end(bytes.len(), k));
    assert(data.len() == taken);
    assert(page.subrange(4, 4 + taken) =~= data);
    let got = bytes.subrange(0, k * 4092) + data;
    if remaining == taken {
        assert(got =~= bytes);
    } else {
        assert(k + 1 < count);
        assert(got =~= bytes.subrange(0, (k + 1) * 4092));
        lemma_chain_read(bytes, first, k + 1, file, pages);
        assert((remaining - taken) as nat == (bytes.len() - (k + 1) * 4092) as nat);
    }
}

// ---------------------------------------------------------------------------
// Cells

/// A cell: bytes that stand as they are, or a payload of which a part may stand elsewhere.
pub enum Cell {
    Fixed { bytes: Vec<u8> },
    Spilling { before: Vec<u8>, after: Vec<u8>, payload: Vec<u8>, is_index: bool },
}

/// The model of a cell.
pub enum CellView {
    Fixed { bytes: Seq<u8> },
    Spilling { before: Seq<u8>, after: Seq<u8>, payload: Seq<u8>, is_index: bool },
}

impl View for Cell {
    type V = CellView;

    open spec fn view(&self) -> CellView {
        match self {
            Cell::Fixed { bytes } => CellView::Fixed { bytes: bytes@ },
            Cell::Spilling { before, after, payload, is_index } => CellView::Spilling {
                before: before@,
                after: after@,
                payload: payload@,
                is_index: *is_index,
            },
        }
    }
}

impl DeepView for Cell {
    type V = CellView;

    open spec fn deep_view(&self) -> CellView {
        self@
    }
}

/// How many bytes a cell takes on its page.
pub open spec fn cell_size(c: CellView) -> int {
    match c {
        CellView::Fixed { bytes } => bytes.len() as int,
        CellView::Spilling { before, after, payload, is_index } => before.len() + varint_len(
            payload.len() as u64,
        ) + after.len() + local_len(payload.len() as int, is_index) + if local_len(
            payload.len() as int,
            is_index,
        ) < payload.len() {
            4int
        } else {
            0
        },
    }
}

/// A cell as it stands on its page, with what does not fit there written to overflow pages.
pub open spec fn rendered(s: SheetsView, c: CellView) -> Result<(SheetsView, Seq<u8>), StopView> {
    match c {
        CellView::Fixed { bytes } => Ok((s, bytes)),
        CellView::Spilling { before, after, payload, is_index } => {
            let local = local_len(payload.len() as int, is_index);
            let start = before + varint(payload.len() as u64) + after + payload.take(local);
            if local < payload.len() {
                match overflowed(s, payload.skip(local)) {
                    Err(e) => Err(e),
                    Ok((next, first)) => Ok((next, start + be_bytes(first as nat, 4))),
                }
            } else {
                Ok((s, start))
            }
        },
    }
}

/// What a cell takes on its page is what was reckoned for it.
pub proof fn law_cell_size(s: SheetsView, c: CellView)
    requires
        rendered(s, c) is Ok,
        c matches CellView::Spilling { payload, .. } ==> payload.len() <= u64::MAX,
    ensures
        rendered(s, c)->Ok_0.1.len() == cell_size(c),
{
    match c {
        CellView::Fixed { bytes } => {},
        CellView::Spilling { before, after, payload, is_index } => {
            crate::sqlite3::varint::law_varint_round_trip(payload.len() as u64, Seq::empty());
            let local = local_len(payload.len() as int, is_index);
            if local < payload.len() {
                lemma_be_bytes_len(overflowed(s, payload.skip(local))->Ok_0.1 as nat, 4);
            }
        },
    }
}

/// How many bytes a cell takes on its page.
pub fn size_of_cell(c: &Cell) -> (r: u128)
    ensures
        r == cell_size(c@),
        r <= 0x4_0000_0000_0000_0000,
{
    match c {
        Cell::Fixed { bytes } => bytes.len() as u128,
        Cell::Spilling { before, after, payload, is_index } => {
            let local: usize = leaf_local_payload_len(payload.len(), *is_index);
            let size: u128 = before.len() as u128 + len_of_varint(payload.len() as u64) as u128
                + after.len() as u128 + local as u128;
            if local < payload.len() {
                size + 4
            } else {
                size
            }
        },
    }
}

fn render_cell(sheets: &mut Sheets, c: &Cell) -> (r: Eval<Vec<u8>>)
    ensures
        r is Ok ==> step_bytes(r, final(sheets)@) == rendered(old(sheets)@, c@),
        r is Err ==> step_bytes(r, old(sheets)@) == rendered(old(sheets)@, c@),
{
    match c {
        Cell::Fixed { bytes } => Ok(copy_bytes(bytes)),
        Cell::Spilling { before, after, payload, is_index } => {
            let local: usize = leaf_local_payload_len(payload.len(), *is_index);
            let mut out = copy_bytes(before);
            let mut size = encode_varint(payload.len() as u64);
            out.append(&mut size);
            let mut rest = copy_bytes(after);
            out.append(&mut rest);
            let mut head = slice_vec(payload.as_slice(), 0, local);
            assert(head@ =~= payload@.take(local as int));
            out.append(&mut head);
            if local < payload.len() {
                let tail = slice_vec(payload.as_slice(), local, payload.len());
                assert(tail@ =~= payload@.skip(local as int));
                let first: u32 = write_overflow_chain(sheets, tail.as_slice())?;
                push_be(&mut out, first as u64, 4);
            }
            Ok(out)
        },
    }
}

// ---------------------------------------------------------------------------
// Pages

/// What kind of page cells are put on.
#[derive(Debug, Clone, Copy, PartialEq, Eq, Structural)]
pub enum Sheet {
    FirstLeafTable,
    LeafTable,
    LeafIndex,
    InteriorTable { rightmost: u32 },
    InteriorIndex { rightmost: u32 },
}

impl Sheet {
    /// The byte that tells the kind of page.
    pub open spec fn kind(self) -> u8 {
        match self {
            Sheet::FirstLeafTable => 0x0d,
            Sheet::LeafTable => 0x0d,
            Sheet::LeafIndex => 0x0a,
            Sheet::InteriorTable { .. } => 0x05,
            Sheet::InteriorIndex { .. } => 0x02,
        }
    }

    /// Where the header of the page starts.
    pub open spec fn offset(self) -> int {
        if self is FirstLeafTable {
            100
        } else {
            0
        }
    }

    /// The pointer to the last child, if the page has children.
    pub open spec fn rightmost(self) -> Option<u32> {
        match self {
            Sheet::InteriorTable { rightmost } => Some(rightmost),
            Sheet::InteriorIndex { rightmost } => Some(rightmost),
            _ => None,
        }
    }

    /// How many bytes the header takes.
    pub open spec fn header_len(self) -> int {
        if self.rightmost() is Some {
            12
        } else {
            8
        }
    }

    /// What is said where cells do not fit.
    pub open spec fn too_small(self) -> Seq<char> {
        match self {
            Sheet::FirstLeafTable =>
                "sqlite writer does not support records that overflow a single leaf page"@,
            Sheet::LeafTable =>
                "sqlite writer does not support records that overflow a single leaf page"@,
            Sheet::LeafIndex =>
                "sqlite writer does not support index records that overflow a single leaf page"@,
            Sheet::InteriorTable { .. } =>
                "sqlite writer does not support interior table pages that overflow a single page"@,
            Sheet::InteriorIndex { .. } =>
                "sqlite writer does not support interior index pages that overflow a single page"@,
        }
    }

    fn kind_byte(self) -> (r: u8)
        ensures
            r == self.kind(),
    {
        match self {
            Sheet::FirstLeafTable => 0x0d,
            Sheet::LeafTable => 0x0d,
            Sheet::LeafIndex => 0x0a,
            Sheet::InteriorTable { .. } => 0x05,
            Sheet::InteriorIndex { .. } => 0x02,
        }
    }

    fn last_child(self) -> (r: Option<u32>)
        ensures
            r == self.rightmost(),
    {
        match self {
            Sheet::InteriorTable { rightmost } => Some(rightmost),
            Sheet::InteriorIndex { rightmost } => Some(rightmost),
            _ => None,
        }
    }

    fn complaint(self) -> (r: &'static str)
        ensures
            r@ == self.too_small(),
    {
        match self {
            Sheet::FirstLeafTable =>
                "sqlite writer does not support records that overflow a single leaf page",
            Sheet::LeafTable =>
                "sqlite writer does not support records that overflow a single leaf page",
            Sheet::LeafIndex =>
                "sqlite writer does not support index records that overflow a single leaf page",
            Sheet::InteriorTable { .. } =>
                "sqlite writer does not support interior table pages that overflow a single page",
            Sheet::InteriorIndex { .. } =>
                "sqlite writer does not support interior index pages that overflow a single page",
        }
    }
}

/// The pointers to cells, each in two bytes.
pub open spec fn pointer_bytes(pointers: Seq<int>) -> Seq<u8>
    decreases pointers.len(),
{
    if pointers.len() == 0 {
        Seq::empty()
    } else {
        pointer_bytes(pointers.drop_last()) + be_bytes(pointers.last() as nat, 2)
    }
}

/// The header of a page.
pub open spec fn header_bytes(sheet: Sheet, count: int, start: int) -> Seq<u8> {
    seq![sheet.kind(), 0, 0] + be_bytes(count as nat, 2) + be_bytes(start as nat, 2) + seq![0u8]
        + match sheet.rightmost() {
        Some(p) => be_bytes(p as nat, 4),
        None => Seq::empty(),
    }
}

/// A page with its header and the pointers to its cells.
pub open spec fn finished(sheet: Sheet, page: Seq<u8>, start: int, pointers: Seq<int>) -> Seq<u8> {
    splice(
        splice(page, sheet.offset(), header_bytes(sheet, pointers.len() as int, start)),
        sheet.offset() + sheet.header_len(),
        pointer_bytes(pointers),
    )
}

/// Cells from a position on put on a page, from its end towards its start.
pub open spec fn filled_from(
    s: SheetsView,
    sheet: Sheet,
    cells: Seq<CellView>,
    i: int,
    page: Seq<u8>,
    start: int,
    pointers: Seq<int>,
) -> Result<(SheetsView, Seq<u8>), StopView>
    decreases cells.len() - i,
{
    if i < 0 || i >= cells.len() {
        Ok((s, finished(sheet, page, start, pointers)))
    } else {
        match rendered(s, cells[i]) {
            Err(e) => Err(e),
            Ok((next, bytes)) => if start < sheet.offset() + sheet.header_len() + 2 * cells.len()
                + bytes.len() {
                Err(storage_stop(sheet.too_small()))
            } else {
                filled_from(
                    next,
                    sheet,
                    cells,
                    i + 1,
                    splice(page, start - bytes.len(), bytes),
                    start - bytes.len(),
                    pointers.push(start - bytes.len()),
                )
            },
        }
    }
}

/// A page of cells.
pub open spec fn page_built(s: SheetsView, sheet: Sheet, cells: Seq<CellView>) -> Result<
    (SheetsView, Seq<u8>),
    StopView,
> {
    filled_from(s, sheet, cells, 0, blank_page(), 4096, Seq::empty())
}

pub proof fn lemma_pointer_bytes_len(pointers: Seq<int>)
    ensures
        pointer_bytes(pointers).len() == 2 * pointers.len(),
    decreases pointers.len(),
{
    if pointers.len() > 0 {
        lemma_pointer_bytes_len(pointers.drop_last());
        lemma_be_bytes_len(pointers.last() as nat, 2);
    }
}

fn finish_page(sheet: Sheet, page: &mut Vec<u8>, start: usize, count: usize, pointers: &Vec<u8>)
    requires
        old(page)@.len() == 4096,
        start <= 4096,
        count <= 0xffff,
        pointers@.len() == 2 * count,
        sheet.offset() + sheet.header_len() + 2 * count <= 4096,
    ensures
        forall|p: Seq<int>|
            p.len() == count && #[trigger] pointer_bytes(p) == pointers@ ==> final(page)@
                == finished(sheet, old(page)@, start as int, p),
        final(page)@.len() == 4096,
{
    let mut header: Vec<u8> = Vec::new();
    header.push(sheet.kind_byte());
    header.push(0);
    header.push(0);
    push_be(&mut header, count as u64, 2);
    push_be(&mut header, start as u64, 2);
    header.push(0);
    match sheet.last_child() {
        Some(p) => {
            push_be(&mut header, p as u64, 4);
            proof {
                lemma_be_bytes_len(p as nat, 4);
            }
        },
        None => {},
    }
    proof {
        lemma_be_bytes_len(count as nat, 2);
        lemma_be_bytes_len(start as nat, 2);
    }
    assert(header@ =~= header_bytes(sheet, count as int, start as int));
    let at: usize = match sheet {
        Sheet::FirstLeafTable => 100,
        _ => 0,
    };
    let length: usize = header.len();
    put_bytes(page, at, header.as_slice());
    put_bytes(page, at + length, pointers.as_slice());
}

/// Puts cells on a page.
pub fn build_page(sheets: &mut Sheets, sheet: Sheet, cells: &Vec<Cell>) -> (r: Eval<Vec<u8>>)
    ensures
        r is Ok ==> step_bytes(r, final(sheets)@) == page_built(
            old(sheets)@,
            sheet,
            cells.deep_view(),
        ) && r->Ok_0@.len() == 4096,
        r is Err ==> step_bytes(r, old(sheets)@) == page_built(
            old(sheets)@,
            sheet,
            cells.deep_view(),
        ),
{
    let ghost a = cells.deep_view();
    let total: usize = cells.len();
    let base: u128 = match sheet {
        Sheet::FirstLeafTable => 108,
        Sheet::LeafTable => 8,
        Sheet::LeafIndex => 8,
        Sheet::InteriorTable { .. } => 12,
        Sheet::InteriorIndex { .. } => 12,
    };
    let required: u128 = base + 2 * (total as u128);
    let mut page = blank();
    let mut start: usize = PAGE_SIZE;
    let mut pointers: Vec<u8> = Vec::new();
    let ghost mut places: Seq<int> = Seq::empty();
    let mut i: usize = 0;
    assert(pointers@ =~= pointer_bytes(places));
    while i < total
        invariant
            a == cells.deep_view(),
            i <= cells@.len() == total,
            base == sheet.offset() + sheet.header_len(),
            required == base + 2 * total,
            page@.len() == 4096,
            start <= 4096,
            i > 0 ==> required <= start,
            places.len() == i,
            pointers@ == pointer_bytes(places),
            filled_from(sheets@, sheet, a, i as int, page@, start as int, places) == page_built(
                old(sheets)@,
                sheet,
                a,
            ),
        decreases total - i,
    {
        assert(a[i as int] == cells@[i as int]@);
        let bytes = render_cell(sheets, &cells[i])?;
        if (start as u128) < required + bytes.len() as u128 {
            return Err(fail(sheet.complaint()));
        }
        start = start - bytes.len();
        put_bytes(&mut page, start, bytes.as_slice());
        push_be(&mut pointers, start as u64, 2);
        proof {
            let next = places.push(start as int);
            assert(next.drop_last() =~= places);
            assert(pointers@ == pointer_bytes(next));
            places = next;
        }
        i = i + 1;
    }
    proof {
        lemma_pointer_bytes_len(places);
    }
    finish_page(sheet, &mut page, start, total, &pointers);
    Ok(page)
}

} // verus!
