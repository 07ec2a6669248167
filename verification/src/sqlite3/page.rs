//! The headers of the pages of a tree.

use vstd::prelude::*;

use crate::common::bytes::{be_value, lemma_byte_ranges, read_be};
use crate::common::error::{plain_result, storage, DbError, DbResult, ErrorView};
use crate::sqlite3::strings::{digit_of_hex, hex_digit};

verus! {

/// What a page of a tree holds.
#[derive(Debug, Clone, Copy, PartialEq, Eq, Structural)]
pub enum PageType {
    InteriorIndex,
    InteriorTable,
    LeafIndex,
    LeafTable,
}

/// The header of a page of a tree.
#[derive(Debug, Clone, Copy, PartialEq, Eq, Structural)]
pub struct BtreePageHeader {
    pub page_type: PageType,
    pub first_freeblock: u16,
    pub cell_count: u16,
    pub cell_content_area_start: u32,
    pub fragmented_free_bytes: u8,
    pub rightmost_pointer: Option<u32>,
}

/// The kind of page that a byte stands for.
pub open spec fn page_type_of(b: u8) -> Option<PageType> {
    if b == 0x02 {
        Some(PageType::InteriorIndex)
    } else if b == 0x05 {
        Some(PageType::InteriorTable)
    } else if b == 0x0a {
        Some(PageType::LeafIndex)
    } else if b == 0x0d {
        Some(PageType::LeafTable)
    } else {
        None
    }
}

/// Whether a page holds pointers to others.
pub open spec fn is_interior(t: PageType) -> bool {
    t is InteriorIndex || t is InteriorTable
}

/// The number at a position of a page, the most significant byte first.
pub open spec fn number_at(page: Seq<u8>, at: int, width: int) -> nat {
    be_value(page.subrange(at, at + width))
}

/// A byte in hexadecimal digits.
pub open spec fn byte_hex(b: u8) -> Seq<char> {
    if b < 16 {
        seq![hex_digit(b as int, false)]
    } else {
        seq![hex_digit(b as int / 16, false), hex_digit(b as int % 16, false)]
    }
}

/// Where the header of a page starts: on the first page behind that of the file.
pub open spec fn header_start(first_page: bool) -> int {
    if first_page {
        100
    } else {
        0
    }
}

/// The header of a page.
pub open spec fn page_header(page: Seq<u8>, first_page: bool) -> Result<BtreePageHeader, ErrorView> {
    let at = header_start(first_page);
    if page.len() < at + 8 {
        Err(storage("sqlite btree page is too short"@))
    } else {
        match page_type_of(page[at]) {
            None => Err(storage("unknown sqlite btree page type 0x"@ + byte_hex(page[at]))),
            Some(page_type) => if is_interior(page_type) && page.len() < at + 12 {
                Err(storage("sqlite interior btree page is too short"@))
            } else {
                Ok(
                    BtreePageHeader {
                        page_type,
                        first_freeblock: number_at(page, at + 1, 2) as u16,
                        cell_count: number_at(page, at + 3, 2) as u16,
                        cell_content_area_start: if number_at(page, at + 5, 2) == 0 {
                            65_536
                        } else {
                            number_at(page, at + 5, 2) as u32
                        },
                        fragmented_free_bytes: page[at + 7],
                        rightmost_pointer: if is_interior(page_type) {
                            Some(number_at(page, at + 8, 4) as u32)
                        } else {
                            None
                        },
                    },
                )
            },
        }
    }
}

fn hex_byte(b: u8) -> (r: String)
    ensures
        r@ == byte_hex(b),
{
    let mut out = String::new();
    if b >= 16 {
        out.push(digit_of_hex(b / 16, false));
    }
    out.push(digit_of_hex(b % 16, false));
    assert(out@ =~= byte_hex(b));
    out
}

impl BtreePageHeader {
    /// Reads the header of a page.
    pub fn decode(page: &[u8], first_page: bool) -> (r: DbResult<BtreePageHeader>)
        ensures
            plain_result(r) == page_header(page@, first_page),
    {
        proof {
            lemma_byte_ranges();
        }
        let at: usize = if first_page {
            100
        } else {
            0
        };
        if page.len() < at + 8 {
            return Err(DbError::storage("sqlite btree page is too short"));
        }
        let page_type = match page[at] {
            0x02 => PageType::InteriorIndex,
            0x05 => PageType::InteriorTable,
            0x0a => PageType::LeafIndex,
            0x0d => PageType::LeafTable,
            other => {
                let mut message = "unknown sqlite btree page type 0x".to_owned();
                message.append(hex_byte(other).as_str());
                return Err(DbError::storage(message.as_str()));
            },
        };
        let interior = match page_type {
            PageType::InteriorIndex => true,
            PageType::InteriorTable => true,
            _ => false,
        };
        if interior && page.len() < at + 12 {
            return Err(DbError::storage("sqlite interior btree page is too short"));
        }
        let start: u64 = read_be(page, at + 5, 2);
        Ok(
            BtreePageHeader {
                page_type,
                first_freeblock: read_be(page, at + 1, 2) as u16,
                cell_count: read_be(page, at + 3, 2) as u16,
                cell_content_area_start: if start == 0 {
                    65_536
                } else {
                    start as u32
                },
                fragmented_free_bytes: page[at + 7],
                rightmost_pointer: if interior {
                    Some(read_be(page, at + 8, 4) as u32)
                } else {
                    None
                },
            },
        )
    }
}

} // verus!
