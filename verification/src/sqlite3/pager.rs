//! A database file as pages.

use vstd::prelude::*;

use crate::common::bytes::{lemma_byte_ranges, read_be, slice_vec};
use crate::common::error::{plain_result, result_view, storage, DbError, DbResult, ErrorView};
use crate::common::text::{nat_text, u64_text};
use crate::sqlite3::page::number_at;

verus! {

/// What the header of a file says of its pages.
#[derive(Debug, Clone, Copy, PartialEq, Eq, Structural)]
pub struct DatabaseHeader {
    pub page_size: u32,
    /// Bytes at the end of each page that are left unused.
    pub reserved: u8,
}

/// The first bytes of a file.
pub open spec fn magic() -> Seq<u8> {
    seq![83, 81, 76, 105, 116, 101, 32, 102, 111, 114, 109, 97, 116, 32, 51, 0]
}

/// The page size that the header of a file gives: one stands for the largest.
pub open spec fn header_page_size(b: Seq<u8>) -> u32 {
    if number_at(b, 16, 2) == 1 {
        65_536
    } else {
        number_at(b, 16, 2) as u32
    }
}

/// Whether a page can have a size.
pub open spec fn is_page_size(n: u32) -> bool {
    n == 512 || n == 1024 || n == 2048 || n == 4096 || n == 8192 || n == 16_384 || n == 32_768
        || n == 65_536
}

/// The header of a file.
pub open spec fn file_header(b: Seq<u8>) -> Result<DatabaseHeader, ErrorView> {
    if b.len() < 100 {
        Err(storage("sqlite database file is too short"@))
    } else if b.take(16) != magic() {
        Err(storage("invalid sqlite file header magic"@))
    } else if !is_page_size(header_page_size(b)) {
        Err(storage("invalid sqlite page size"@))
    } else {
        Ok(DatabaseHeader { page_size: header_page_size(b), reserved: b[20] })
    }
}

fn has_magic(bytes: &[u8]) -> (r: bool)
    requires
        bytes@.len() >= 16,
    ensures
        r == (bytes@.take(16) == magic()),
{
    let r = bytes[0] == 83 && bytes[1] == 81 && bytes[2] == 76 && bytes[3] == 105 && bytes[4] == 116
        && bytes[5] == 101 && bytes[6] == 32 && bytes[7] == 102 && bytes[8] == 111 && bytes[9]
        == 114 && bytes[10] == 109 && bytes[11] == 97 && bytes[12] == 116 && bytes[13] == 32
        && bytes[14] == 51 && bytes[15] == 0;
    proof {
        let m = magic();
        let h = bytes@.take(16);
        if r {
            assert(h =~= m);
        } else {
            assert forall|i: int| 0 <= i < 16 implies #[trigger] h[i] == bytes@[i] by {}
            if h == m {
                assert(h[0] == 83 && h[1] == 81 && h[2] == 76 && h[3] == 105 && h[4] == 116);
                assert(h[5] == 101 && h[6] == 32 && h[7] == 102 && h[8] == 111 && h[9] == 114);
                assert(h[10] == 109 && h[11] == 97 && h[12] == 116 && h[13] == 32 && h[14] == 51);
                assert(h[15] == 0);
            }
        }
    }
    r
}

impl DatabaseHeader {
    /// Reads the header of a file.
    pub fn decode(bytes: &[u8]) -> (r: DbResult<DatabaseHeader>)
        ensures
            plain_result(r) == file_header(bytes@),
    {
        proof {
            lemma_byte_ranges();
        }
        if bytes.len() < 100 {
            return Err(DbError::storage("sqlite database file is too short"));
        }
        if !has_magic(bytes) {
            return Err(DbError::storage("invalid sqlite file header magic"));
        }
        let raw: u64 = read_be(bytes, 16, 2);
        let page_size: u32 = if raw == 1 {
            65_536
        } else {
            raw as u32
        };
        if !(page_size == 512 || page_size == 1024 || page_size == 2048 || page_size == 4096
            || page_size == 8192 || page_size == 16_384 || page_size == 32_768 || page_size
            == 65_536) {
            return Err(DbError::storage("invalid sqlite page size"));
        }
        Ok(DatabaseHeader { page_size, reserved: bytes[20] })
    }

    /// How many bytes of a page are used.
    pub open spec fn usable(&self) -> int {
        self.page_size - self.reserved
    }
}

/// A file that is read by pages.
#[derive(Debug)]
pub struct Pager {
    file: Vec<u8>,
    header: DatabaseHeader,
}

/// The pages of a file, or why it has none.
pub open spec fn opened(file: Seq<u8>) -> Result<DatabaseHeader, ErrorView> {
    match file_header(file) {
        Err(e) => Err(e),
        Ok(header) => if file.len() < header.page_size {
            Err(storage("sqlite file is shorter than declared sqlite page size"@))
        } else if file.len() % (header.page_size as nat) != 0 {
            Err(storage("sqlite file length is not aligned to declared sqlite page size"@))
        } else {
            Ok(header)
        },
    }
}

/// A page of a file.
pub open spec fn page_of(file: Seq<u8>, page_size: int, page_no: u32) -> Result<
    Seq<u8>,
    ErrorView,
> {
    if page_no == 0 {
        Err(storage("sqlite page numbers start at 1"@))
    } else if page_no * page_size > file.len() {
        Err(
            storage(
                "sqlite page "@ + nat_text(page_no as nat) + " is out of bounds"@,
            ),
        )
    } else {
        Ok(file.subrange((page_no - 1) * page_size, page_no * page_size))
    }
}

/// The smaller of two numbers.
pub open spec fn smaller(a: int, b: int) -> int {
    if a < b {
        a
    } else {
        b
    }
}

/// What pages that follow each other hold, from one of them on.
pub open spec fn chain_from(
    file: Seq<u8>,
    header: DatabaseHeader,
    page_no: u32,
    remaining: nat,
    out: Seq<u8>,
) -> Result<Seq<u8>, ErrorView>
    decreases remaining,
{
    let chunk = header.usable() - 4;
    if remaining == 0 || chunk <= 0 {
        Ok(out)
    } else {
        match page_of(file, header.page_size as int, page_no) {
            Err(e) => Err(e),
            Ok(page) => {
                let taken = smaller(remaining as int, chunk);
                let next = number_at(page, 0, 4) as u32;
                let got = out + page.subrange(4, 4 + taken);
                if remaining == taken {
                    Ok(got)
                } else if next == 0 {
                    Err(
                        storage(
                            "sqlite overflow chain terminated before the payload was fully read"@,
                        ),
                    )
                } else {
                    chain_from(file, header, next, (remaining - taken) as nat, got)
                }
            },
        }
    }
}

/// What a chain of pages holds.
pub open spec fn chain(file: Seq<u8>, header: DatabaseHeader, first: u32, len: nat) -> Result<
    Seq<u8>,
    ErrorView,
> {
    if first == 0 {
        Err(storage("sqlite overflow chains must start at a non-zero page number"@))
    } else if header.usable() < 4 {
        Err(storage("sqlite usable page size is too small for overflow"@))
    } else if header.usable() == 4 {
        Err(storage("sqlite usable page size is too small for overflow payload data"@))
    } else {
        chain_from(file, header, first, len, Seq::empty())
    }
}

impl Pager {
    /// The bytes of the file.
    pub closed spec fn contents(&self) -> Seq<u8> {
        self.file@
    }

    /// What the header of the file says.
    pub closed spec fn known(&self) -> DatabaseHeader {
        self.header
    }

    /// Whether the file is made of whole pages.
    pub open spec fn wf(&self) -> bool {
        opened(self.contents()) == Ok::<DatabaseHeader, ErrorView>(self.known())
    }

    /// Opens a file.
    pub fn open(file: Vec<u8>) -> (r: DbResult<Pager>)
        ensures
            match r {
                Ok(p) => p.wf() && p.contents() == file@ && opened(file@) == Ok::<_, ErrorView>(
                    p.known(),
                ),
                Err(e) => opened(file@) == Err::<DatabaseHeader, _>(e@),
            },
    {
        let header = DatabaseHeader::decode(file.as_slice())?;
        if (file.len() as u128) < header.page_size as u128 {
            return Err(DbError::storage("sqlite file is shorter than declared sqlite page size"));
        }
        if file.len() as u128 % header.page_size as u128 != 0 {
            return Err(
                DbError::storage("sqlite file length is not aligned to declared sqlite page size"),
            );
        }
        Ok(Pager { file, header })
    }

    /// What the header of the file says.
    pub fn header(&self) -> (r: &DatabaseHeader)
        ensures
            *r == self.known(),
    {
        &self.header
    }

    /// How many bytes of a page are used.
    pub fn usable_size(&self) -> (r: DbResult<usize>)
        requires
            self.wf(),
        ensures
            r matches Ok(n) && n == self.known().usable(),
    {
        Ok((self.header.page_size - self.header.reserved as u32) as usize)
    }

    /// How many pages the file has.
    pub fn page_count(&self) -> (r: DbResult<u32>)
        requires
            self.wf(),
        ensures
            match r {
                Ok(n) => n == self.contents().len() / (self.known().page_size as nat),
                Err(e) => self.contents().len() / (self.known().page_size as nat) > u32::MAX && e@
                    == storage("sqlite page count does not fit in u32"@),
            },
    {
        let n: u128 = self.file.len() as u128 / self.header.page_size as u128;
        if n > u32::MAX as u128 {
            return Err(DbError::storage("sqlite page count does not fit in u32"));
        }
        Ok(n as u32)
    }

    /// How many whole pages the file has.
    pub fn whole_pages(&self) -> (r: usize)
        requires
            self.wf(),
        ensures
            r == self.contents().len() / (self.known().page_size as nat),
    {
        self.file.len() / self.header.page_size as usize
    }

    /// Reads a page.
    pub fn read_page(&self, page_no: u32) -> (r: DbResult<Vec<u8>>)
        requires
            self.wf(),
        ensures
            result_view(r) == page_of(self.contents(), self.known().page_size as int, page_no),
            r matches Ok(p) ==> p@.len() == self.known().page_size,
    {
        if page_no == 0 {
            return Err(DbError::storage("sqlite page numbers start at 1"));
        }
        let size: u64 = self.header.page_size as u64;
        proof {
            assert(page_no * size <= u32::MAX * 65_536) by (nonlinear_arith)
                requires
                    page_no <= u32::MAX,
                    size <= 65_536,
            ;
            assert((page_no - 1) * size == page_no * size - size) by (nonlinear_arith);
            assert((page_no - 1) * size >= 0) by (nonlinear_arith)
                requires
                    page_no >= 1,
            ;
        }
        let end: u64 = page_no as u64 * size;
        if end as u128 > self.file.len() as u128 {
            let mut message = "sqlite page ".to_owned();
            message.append(u64_text(page_no as u64).as_str());
            message.append(" is out of bounds");
            return Err(DbError::storage(message.as_str()));
        }
        let start: u64 = end - size;
        Ok(slice_vec(self.file.as_slice(), start as usize, end as usize))
    }

    /// Reads what a chain of pages holds.
    pub fn read_overflow_chain(&self, first_overflow_page: u32, remaining_bytes: usize) -> (r:
        DbResult<Vec<u8>>)
        requires
            self.wf(),
        ensures
            result_view(r) == chain(
                self.contents(),
                self.known(),
                first_overflow_page,
                remaining_bytes as nat,
            ),
    {
        proof {
            lemma_byte_ranges();
        }
        if first_overflow_page == 0 {
            return Err(
                DbError::storage("sqlite overflow chains must start at a non-zero page number"),
            );
        }
        let usable: usize = (self.header.page_size - self.header.reserved as u32) as usize;
        let chunk: usize = usable - 4;
        let mut remaining: usize = remaining_bytes;
        let mut next: u32 = first_overflow_page;
        let mut out: Vec<u8> = Vec::new();
        while remaining > 0
            invariant
                self.wf(),
                chunk == self.known().usable() - 4,
                chunk > 0,
                chain_from(self.contents(), self.known(), next, remaining as nat, out@) == chain(
                    self.contents(),
                    self.known(),
                    first_overflow_page,
                    remaining_bytes as nat,
                ),
            decreases remaining,
        {
            let page = self.read_page(next)?;
            let following: u64 = read_be(page.as_slice(), 0, 4);
            proof {
                lemma_byte_ranges();
            }
            let taken: usize = if remaining < chunk {
                remaining
            } else {
                chunk
            };
            let mut data = slice_vec(page.as_slice(), 4, 4 + taken);
            out.append(&mut data);
            if remaining == taken {
                return Ok(out);
            }
            if following == 0 {
                return Err(
                    DbError::storage(
                        "sqlite overflow chain terminated before the payload was fully read",
                    ),
                );
            }
            remaining = remaining - taken;
            next = following as u32;
        }
        Ok(out)
    }
}

} // verus!
