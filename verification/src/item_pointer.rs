//! Tuple identifiers: where a row lies in the heap, or a node in the index.
use vstd::prelude::*;

verus! {

/// The offset number that no line pointer has.
pub const INVALID_OFFSET_NUMBER: u16 = 0;

/// The block number that no block has.
pub const INVALID_BLOCK_NUMBER: u32 = 0xFFFF_FFFF;

/// A tuple identifier as the server stores it: the block number in two halves, then the
/// number of the line pointer within the block.
#[derive(Clone, Copy, Debug, PartialEq, Eq, Structural)]
pub struct ItemPointerData {
    pub bi_hi: u16,
    pub bi_lo: u16,
    pub ip_posid: u16,
}

/// A tuple identifier with its block number in one piece.
#[derive(Clone, Copy, Debug, PartialEq, Eq, Structural)]
pub struct ItemPointer {
    pub block_number: u32,
    pub offset: u16,
}

impl ItemPointerData {
    pub open spec fn spec_block(self) -> int {
        self.bi_hi * 0x1_0000 + self.bi_lo
    }

    /// The identifier points at some row: neither its line pointer nor its block is the
    /// invalid one.
    pub open spec fn spec_is_valid(self) -> bool {
        self.ip_posid != INVALID_OFFSET_NUMBER && self.spec_block() != INVALID_BLOCK_NUMBER
    }

    /// The identifier of all zeros, as in memory that was just cleared.
    pub open spec fn spec_zeroed() -> ItemPointerData {
        ItemPointerData { bi_hi: 0, bi_lo: 0, ip_posid: 0 }
    }

    pub fn zeroed() -> (r: ItemPointerData)
        ensures
            r == Self::spec_zeroed(),
    {
        ItemPointerData { bi_hi: 0, bi_lo: 0, ip_posid: 0 }
    }

    /// The number of the block, put together from its two halves.
    pub fn block_number(&self) -> (r: u32)
        ensures
            r == self.spec_block(),
    {
        self.bi_hi as u32 * 0x1_0000 + self.bi_lo as u32
    }

    /// Whether a row can lie there.
    pub fn is_valid(&self) -> (r: bool)
        ensures
            r == self.spec_is_valid(),
            r == (self.ip_posid != 0 && !(self.bi_hi == 0xFFFF && self.bi_lo == 0xFFFF)),
    {
        self.ip_posid != INVALID_OFFSET_NUMBER && self.block_number() != INVALID_BLOCK_NUMBER
    }
}

impl ItemPointer {
    pub open spec fn spec_from_data(data: ItemPointerData) -> ItemPointer {
        ItemPointer { block_number: data.spec_block() as u32, offset: data.ip_posid }
    }

    pub open spec fn spec_to_data(self) -> ItemPointerData {
        ItemPointerData {
            bi_hi: (self.block_number / 0x1_0000) as u16,
            bi_lo: (self.block_number % 0x1_0000) as u16,
            ip_posid: self.offset,
        }
    }

    /// Both parts in one number, different for different identifiers.
    pub open spec fn spec_key(self) -> int {
        self.block_number * 0x1_0000 + self.offset
    }

    pub fn new(block_number: u32, offset: u16) -> (r: ItemPointer)
        ensures
            r == (ItemPointer { block_number, offset }),
    {
        ItemPointer { block_number, offset }
    }

    /// The identifier that the server's form stands for.
    pub fn with_item_pointer_data(data: ItemPointerData) -> (r: ItemPointer)
        ensures
            r == Self::spec_from_data(data),
    {
        ItemPointer { block_number: data.block_number(), offset: data.ip_posid }
    }

    /// The server's form of the identifier.
    pub fn to_item_pointer_data(&self) -> (r: ItemPointerData)
        ensures
            r == self.spec_to_data(),
    {
        ItemPointerData {
            bi_hi: (self.block_number / 0x1_0000) as u16,
            bi_lo: (self.block_number % 0x1_0000) as u16,
            ip_posid: self.offset,
        }
    }

    pub fn key(&self) -> (r: u64)
        ensures
            r == self.spec_key(),
    {
        self.block_number as u64 * 0x1_0000 + self.offset as u64
    }
}

/// Splitting a block number and putting it together again changes nothing.
pub proof fn law_item_pointer_round_trip(pointer: ItemPointer, data: ItemPointerData)
    ensures
        ItemPointer::spec_from_data(pointer.spec_to_data()) == pointer,
        ItemPointer::spec_from_data(data).spec_to_data() == data,
{
}

/// A row identifier is refused exactly if its line pointer is zero or both halves of its block
/// number are all ones; the halves are those of the block number.
pub proof fn law_only_two_marks_are_invalid(data: ItemPointerData)
    ensures
        data.spec_is_valid() <==> data.ip_posid != 0 && !(data.bi_hi == 0xFFFF && data.bi_lo
            == 0xFFFF),
        data.spec_block() / 0x1_0000 == data.bi_hi,
        data.spec_block() % 0x1_0000 == data.bi_lo,
{
}

/// The two forms of a row identifier hold the same block number and line pointer, and so does its
/// key.
pub proof fn law_forms_hold_the_same_row(pointer: ItemPointer, data: ItemPointerData)
    ensures
        ItemPointer::spec_from_data(data).block_number == data.bi_hi * 0x1_0000 + data.bi_lo,
        ItemPointer::spec_from_data(data).offset == data.ip_posid,
        pointer.spec_to_data().bi_hi == pointer.block_number as int / 0x1_0000,
        pointer.spec_to_data().bi_lo == pointer.block_number as int % 0x1_0000,
        pointer.spec_to_data().ip_posid == pointer.offset,
        pointer.spec_key() / 0x1_0000 == pointer.block_number,
        pointer.spec_key() % 0x1_0000 == pointer.offset,
{
}

/// No two identifiers share a key.
pub proof fn law_keys_are_distinct(a: ItemPointer, b: ItemPointer)
    ensures
        a.spec_key() == b.spec_key() ==> a == b,
{
}

} // verus!
