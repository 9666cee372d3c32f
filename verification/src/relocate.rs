//! The relocation of a header inside a block image.
//!
//! An image is a run of blocks of one size, and its last block starts with
//! the header. Relocating the image to the byte offset `new_start` means
//! that the header says of itself that it lies `new_start` bytes further on
//! than it does in the image, and of the partition-entry array that it
//! begins at `new_start`. Both are written as block addresses, rounded down.

use crate::endian::lemma_le_bytes_len;
use crate::header::{
    checksum_valid, lemma_recompute_idempotent, lemma_recomputed_is_valid,
    lemma_recomputed_keeps_other_bytes, lemma_with_my_lba_reads_back,
    lemma_with_partition_entry_lba_reads_back, my_lba, partition_entry_lba, recomputed, splice,
    with_my_lba, with_partition_entry_lba, HeaderView, CRC32_WIDTH, HEADER_CRC32_OFFSET,
    HEADER_SIZE, LBA_WIDTH, MY_LBA_OFFSET, PARTITION_ENTRY_LBA_OFFSET,
};
use vstd::prelude::*;

verus! {

/// Why an image is not relocated.
#[derive(Clone, Copy, Debug, PartialEq, Eq)]
pub enum RelocateError {
    /// The image is shorter than one block.
    BufferShorterThanBlock,
    /// A block is shorter than a header. A block size of zero is such a size.
    BlockShorterThanHeader,
}

/// The reason for which an image of `len` bytes is not relocated with this
/// block size, if there is one.
pub open spec fn rejection(len: nat, block_size: u64) -> Option<RelocateError> {
    if len < block_size {
        Some(RelocateError::BufferShorterThanBlock)
    } else if block_size < HEADER_SIZE {
        Some(RelocateError::BlockShorterThanHeader)
    } else {
        None
    }
}

/// Where the header starts in an image of `len` bytes: at the start of the
/// last block.
pub open spec fn header_start(len: nat, block_size: u64) -> int {
    len - block_size
}

/// The header of an image.
pub open spec fn header_of(buffer: Seq<u8>, block_size: u64) -> Seq<u8> {
    buffer.subrange(
        header_start(buffer.len(), block_size),
        header_start(buffer.len(), block_size) + HEADER_SIZE,
    )
}

/// The block address of the header after the relocation of an image of `len`
/// bytes.
pub open spec fn relocated_my_lba(len: nat, new_start: u64, block_size: u64) -> nat {
    ((new_start + header_start(len, block_size)) / (block_size as int)) as nat
}

/// The block address of the partition-entry array after a relocation.
pub open spec fn relocated_partition_entry_lba(new_start: u64, block_size: u64) -> nat {
    (new_start / block_size) as nat
}

/// The header of a relocated image: both addresses written, then the
/// checksum renewed.
pub open spec fn relocated_header(
    header: Seq<u8>,
    len: nat,
    new_start: u64,
    block_size: u64,
) -> Seq<u8> {
    recomputed(
        with_partition_entry_lba(
            with_my_lba(header, relocated_my_lba(len, new_start, block_size)),
            relocated_partition_entry_lba(new_start, block_size),
        ),
    )
}

/// The image after its relocation to `new_start`.
pub open spec fn relocated(buffer: Seq<u8>, new_start: u64, block_size: u64) -> Seq<u8> {
    splice(
        buffer,
        header_start(buffer.len(), block_size),
        relocated_header(header_of(buffer, block_size), buffer.len(), new_start, block_size),
    )
}

/// Whether byte `i` of an image lies in one of the three fields that a
/// relocation writes.
pub open spec fn in_rewritten_field(i: int, len: nat, block_size: u64) -> bool {
    let at = i - header_start(len, block_size);
    ||| HEADER_CRC32_OFFSET <= at < HEADER_CRC32_OFFSET + CRC32_WIDTH
    ||| MY_LBA_OFFSET <= at < MY_LBA_OFFSET + LBA_WIDTH
    ||| PARTITION_ENTRY_LBA_OFFSET <= at < PARTITION_ENTRY_LBA_OFFSET + LBA_WIDTH
}

/// Both block addresses of a relocation fit in 64 bits.
pub proof fn lemma_relocated_lbas_fit(len: nat, new_start: u64, block_size: u64)
    requires
        len <= usize::MAX,
        rejection(len, block_size) is None,
    ensures
        relocated_my_lba(len, new_start, block_size) <= u64::MAX,
        relocated_partition_entry_lba(new_start, block_size) <= u64::MAX,
        relocated_partition_entry_lba(new_start, block_size) <= relocated_my_lba(
            len,
            new_start,
            block_size,
        ),
{
    let sum: int = new_start + header_start(len, block_size);
    let size: int = block_size as int;
    vstd::arithmetic::div_mod::lemma_div_is_ordered_by_denominator(sum, 2, size);
    vstd::arithmetic::div_mod::lemma_div_is_ordered(new_start as int, sum, size);
    vstd::arithmetic::div_mod::lemma_div_is_ordered_by_denominator(new_start as int, 1, size);
}

/// A relocation keeps the image's length and every byte of it but those of
/// the header's stored checksum, of its own address and of the address of the
/// partition-entry array: twenty bytes in all.
pub proof fn lemma_relocated_keeps_other_bytes(buffer: Seq<u8>, new_start: u64, block_size: u64)
    requires
        rejection(buffer.len(), block_size) is None,
    ensures
        relocated(buffer, new_start, block_size).len() == buffer.len(),
        forall|i: int|
            0 <= i < buffer.len() && !in_rewritten_field(i, buffer.len(), block_size)
                ==> #[trigger] relocated(buffer, new_start, block_size)[i] == buffer[i],
{
    let header = header_of(buffer, block_size);
    let my = relocated_my_lba(buffer.len(), new_start, block_size);
    let entries = relocated_partition_entry_lba(new_start, block_size);
    let addressed = with_partition_entry_lba(with_my_lba(header, my), entries);
    lemma_le_bytes_len(my, LBA_WIDTH as nat);
    lemma_le_bytes_len(entries, LBA_WIDTH as nat);
    lemma_recomputed_keeps_other_bytes(addressed);
    let start = header_start(buffer.len(), block_size);
    assert forall|i: int|
        0 <= i < buffer.len() && !in_rewritten_field(
            i,
            buffer.len(),
            block_size,
        ) implies #[trigger] relocated(buffer, new_start, block_size)[i] == buffer[i] by {
        if start <= i < start + HEADER_SIZE {
            assert(recomputed(addressed)[i - start] == addressed[i - start]);
        }
    }
}

/// The header of a relocated image is the relocated header of the image.
pub proof fn lemma_header_of_relocated(buffer: Seq<u8>, new_start: u64, block_size: u64)
    requires
        rejection(buffer.len(), block_size) is None,
    ensures
        header_of(relocated(buffer, new_start, block_size), block_size) == relocated_header(
            header_of(buffer, block_size),
            buffer.len(),
            new_start,
            block_size,
        ),
{
    let my = relocated_my_lba(buffer.len(), new_start, block_size);
    let entries = relocated_partition_entry_lba(new_start, block_size);
    let addressed = with_partition_entry_lba(with_my_lba(header_of(buffer, block_size), my), entries);
    lemma_le_bytes_len(crate::header::checksum(addressed) as nat, CRC32_WIDTH as nat);
    assert(header_of(relocated(buffer, new_start, block_size), block_size) =~= recomputed(
        addressed,
    ));
}

/// After a relocation the header gives the new address for itself and the
/// new address for the partition-entry array, and stores the checksum that
/// belongs to it.
pub proof fn lemma_relocated_header_reads(buffer: Seq<u8>, new_start: u64, block_size: u64)
    requires
        buffer.len() <= usize::MAX,
        rejection(buffer.len(), block_size) is None,
    ensures
        my_lba(header_of(relocated(buffer, new_start, block_size), block_size))
            == relocated_my_lba(buffer.len(), new_start, block_size),
        partition_entry_lba(header_of(relocated(buffer, new_start, block_size), block_size))
            == relocated_partition_entry_lba(new_start, block_size),
        checksum_valid(header_of(relocated(buffer, new_start, block_size), block_size)),
{
    let header = header_of(buffer, block_size);
    let my = relocated_my_lba(buffer.len(), new_start, block_size);
    let entries = relocated_partition_entry_lba(new_start, block_size);
    lemma_relocated_lbas_fit(buffer.len(), new_start, block_size);
    let with_my = with_my_lba(header, my);
    let addressed = with_partition_entry_lba(with_my, entries);
    lemma_with_my_lba_reads_back(header, my as u64);
    lemma_with_partition_entry_lba_reads_back(with_my, entries as u64);
    lemma_recomputed_keeps_other_bytes(addressed);
    lemma_recomputed_is_valid(addressed);
    lemma_header_of_relocated(buffer, new_start, block_size);
}

/// Relocating a relocated image once more to the same offset, with the same
/// block size, changes nothing.
pub proof fn lemma_relocate_idempotent(buffer: Seq<u8>, new_start: u64, block_size: u64)
    requires
        rejection(buffer.len(), block_size) is None,
    ensures
        relocated(relocated(buffer, new_start, block_size), new_start, block_size) == relocated(
            buffer,
            new_start,
            block_size,
        ),
{
    let once = relocated(buffer, new_start, block_size);
    let my = relocated_my_lba(buffer.len(), new_start, block_size);
    let entries = relocated_partition_entry_lba(new_start, block_size);
    let addressed = with_partition_entry_lba(with_my_lba(header_of(buffer, block_size), my), entries);
    let renewed = recomputed(addressed);
    lemma_header_of_relocated(buffer, new_start, block_size);
    lemma_le_bytes_len(my, LBA_WIDTH as nat);
    lemma_le_bytes_len(entries, LBA_WIDTH as nat);
    lemma_le_bytes_len(crate::header::checksum(addressed) as nat, CRC32_WIDTH as nat);
    // Both addresses already stand in the header, so writing them changes nothing.
    assert(with_partition_entry_lba(with_my_lba(renewed, my), entries) =~= renewed);
    lemma_recompute_idempotent(addressed);
    assert(relocated(once, new_start, block_size) =~= once);
}

/// Both addresses are rounded down: each is the number of whole blocks that
/// lie before the byte that it is the address of. An offset that is no
/// multiple of the block size is relocated to like every other.
pub proof fn lemma_addresses_round_down(len: nat, new_start: u64, block_size: u64)
    requires
        rejection(len, block_size) is None,
    ensures
        relocated_partition_entry_lba(new_start, block_size) * block_size <= new_start
            < (relocated_partition_entry_lba(new_start, block_size) + 1) * block_size,
        relocated_my_lba(len, new_start, block_size) * block_size <= new_start + header_start(
            len,
            block_size,
        ) < (relocated_my_lba(len, new_start, block_size) + 1) * block_size,
{
    lemma_whole_blocks(new_start as int, block_size as int);
    lemma_whole_blocks(new_start + header_start(len, block_size), block_size as int);
}

/// The quotient of a division counts the whole blocks below a byte offset.
proof fn lemma_whole_blocks(offset: int, size: int)
    by (nonlinear_arith)
    requires
        0 <= offset,
        0 < size,
    ensures
        (offset / size) * size <= offset < (offset / size + 1) * size,
        0 <= offset / size,
{
}

/// Relocates the image in `buffer` to the byte offset `new_start`.
///
/// The header is taken to start the last block of the image. Its own block
/// address becomes that of the byte `new_start` bytes past the place where it
/// starts in the image, the address of the partition-entry array becomes that
/// of the byte at `new_start`, both rounded down to whole blocks, and the
/// checksum is renewed. No other byte of the image changes.
///
/// An image that is shorter than a block, or whose blocks are shorter than a
/// header, is refused and left as it is.
pub fn relocate(buffer: &mut [u8], new_start: u64, block_size: u64) -> (result: Result<
    (),
    RelocateError,
>)
    ensures
        result == match rejection(old(buffer)@.len(), block_size) {
            Some(error) => Err::<(), RelocateError>(error),
            None => Ok::<(), RelocateError>(()),
        },
        result is Err ==> final(buffer)@ == old(buffer)@,
        result is Ok ==> final(buffer)@ == relocated(old(buffer)@, new_start, block_size),
        result is Ok ==> {
            let header = header_of(final(buffer)@, block_size);
            &&& my_lba(header) == relocated_my_lba(old(buffer)@.len(), new_start, block_size)
            &&& partition_entry_lba(header) == relocated_partition_entry_lba(
                new_start,
                block_size,
            )
            &&& checksum_valid(header)
        },
        final(buffer)@.len() == old(buffer)@.len(),
        forall|i: int|
            0 <= i < old(buffer)@.len() && !in_rewritten_field(i, old(buffer)@.len(), block_size)
                ==> final(buffer)@[i] == old(buffer)@[i],
{
    let len: usize = buffer.len();
    if (len as u64) < block_size {
        return Err(RelocateError::BufferShorterThanBlock);
    }
    if block_size < HEADER_SIZE as u64 {
        return Err(RelocateError::BlockShorterThanHeader);
    }
    let start: usize = len - block_size as usize;
    let end: usize = start + HEADER_SIZE;
    proof {
        lemma_relocated_lbas_fit(len as nat, new_start, block_size);
        lemma_relocated_keeps_other_bytes(buffer@, new_start, block_size);
        lemma_relocated_header_reads(buffer@, new_start, block_size);
    }
    let my: u64 = ((new_start as u128 + start as u128) / block_size as u128) as u64;
    let entries: u64 = new_start / block_size;
    let view = HeaderView::overlay(start, end);
    view.set_my_lba(buffer, my);
    view.set_partition_entry_lba(buffer, entries);
    view.recompute_crc32(buffer);
    assert(buffer@ =~= relocated(old(buffer)@, new_start, block_size));
    Ok(())
}

} // verus!
