//! The byte layout of a GPT header and the operations on its fields.
//!
//! A header is 92 bytes. Its integers are little-endian. A [`HeaderView`]
//! names the place of a header inside a larger buffer; every operation reads
//! or writes the buffer itself, at the fixed offsets of the layout.
//!
//! | field                 | offset | width |
//! |-----------------------|--------|-------|
//! | signature             | 0      | 8     |
//! | revision              | 8      | 4     |
//! | header size           | 12     | 4     |
//! | header CRC-32         | 16     | 4     |
//! | reserved              | 20     | 4     |
//! | my LBA                | 24     | 8     |
//! | alternate LBA         | 32     | 8     |
//! | first usable LBA      | 40     | 8     |
//! | last usable LBA       | 48     | 8     |
//! | disk GUID             | 56     | 16    |
//! | partition entry LBA   | 72     | 8     |
//! | number of entries     | 80     | 4     |
//! | size of an entry      | 84     | 4     |
//! | entry array CRC-32    | 88     | 4     |

use crate::checksum::{calculate_header_crc32, gpt_header_crc32};
use crate::endian::{
    lba_le_bytes, le_bytes, le_value, lemma_le_bytes_len, lemma_le_value_bound,
    lemma_le_value_of_le_bytes, lemma_len_fits, lemma_radix_of_field_widths, read_le,
    u32_le_bytes,
};
use vstd::prelude::*;

verus! {

/// The length of a header in bytes.
pub const HEADER_SIZE: usize = 92;

/// Where the header's own checksum lies in it.
pub const HEADER_CRC32_OFFSET: usize = 16;

/// The width of a checksum field.
pub const CRC32_WIDTH: usize = 4;

/// Where the address of the header's own block lies in it.
pub const MY_LBA_OFFSET: usize = 24;

/// Where the address of the partition-entry array lies in it.
pub const PARTITION_ENTRY_LBA_OFFSET: usize = 72;

/// The width of a block address field.
pub const LBA_WIDTH: usize = 8;

/// `buffer` with `bytes` written over it from `offset` on. What of `bytes`
/// would fall outside `buffer` is left out.
pub open spec fn splice(buffer: Seq<u8>, offset: int, bytes: Seq<u8>) -> Seq<u8> {
    Seq::new(
        buffer.len(),
        |i: int|
            if offset <= i < offset + bytes.len() {
                bytes[i - offset]
            } else {
                buffer[i]
            },
    )
}

/// The `width` bytes of `header` from `offset` on.
pub open spec fn field(header: Seq<u8>, offset: int, width: int) -> Seq<u8> {
    header.subrange(offset, offset + width)
}

/// The block address that a header gives for itself.
pub open spec fn my_lba(header: Seq<u8>) -> nat {
    le_value(field(header, MY_LBA_OFFSET as int, LBA_WIDTH as int))
}

/// The block address that a header gives for the partition-entry array.
pub open spec fn partition_entry_lba(header: Seq<u8>) -> nat {
    le_value(field(header, PARTITION_ENTRY_LBA_OFFSET as int, LBA_WIDTH as int))
}

/// The checksum that a header stores.
pub open spec fn header_crc32(header: Seq<u8>) -> nat {
    le_value(field(header, HEADER_CRC32_OFFSET as int, CRC32_WIDTH as int))
}

/// `header` with `value` as the address of its own block.
pub open spec fn with_my_lba(header: Seq<u8>, value: nat) -> Seq<u8> {
    splice(header, MY_LBA_OFFSET as int, le_bytes(value, LBA_WIDTH as nat))
}

/// `header` with `value` as the address of the partition-entry array.
pub open spec fn with_partition_entry_lba(header: Seq<u8>, value: nat) -> Seq<u8> {
    splice(header, PARTITION_ENTRY_LBA_OFFSET as int, le_bytes(value, LBA_WIDTH as nat))
}

/// `header` with `value` as its stored checksum.
pub open spec fn with_header_crc32(header: Seq<u8>, value: nat) -> Seq<u8> {
    splice(header, HEADER_CRC32_OFFSET as int, le_bytes(value, CRC32_WIDTH as nat))
}

/// `header` with zeros in the place of its stored checksum.
pub open spec fn with_zeroed_crc32(header: Seq<u8>) -> Seq<u8> {
    splice(header, HEADER_CRC32_OFFSET as int, Seq::new(CRC32_WIDTH as nat, |i: int| 0u8))
}

/// The checksum that belongs to a header: the CRC-32 of its bytes, taken with
/// zeros in the place of the stored checksum.
pub open spec fn checksum(header: Seq<u8>) -> u32 {
    gpt_header_crc32(with_zeroed_crc32(header))
}

/// Whether a header stores the checksum that belongs to it.
pub open spec fn checksum_valid(header: Seq<u8>) -> bool {
    header_crc32(header) == checksum(header)
}

/// `header` with the checksum that belongs to it stored.
pub open spec fn recomputed(header: Seq<u8>) -> Seq<u8> {
    with_header_crc32(header, checksum(header) as nat)
}

/// Writing an address for the header's own block and reading it gives the
/// address back, and the address of the partition-entry array and the stored
/// checksum stay as they were.
pub proof fn lemma_with_my_lba_reads_back(header: Seq<u8>, value: u64)
    requires
        header.len() == HEADER_SIZE,
    ensures
        my_lba(with_my_lba(header, value as nat)) == value,
        partition_entry_lba(with_my_lba(header, value as nat)) == partition_entry_lba(header),
        header_crc32(with_my_lba(header, value as nat)) == header_crc32(header),
{
    let written = with_my_lba(header, value as nat);
    lemma_le_bytes_len(value as nat, LBA_WIDTH as nat);
    lemma_radix_of_field_widths();
    lemma_le_value_of_le_bytes(value as nat, LBA_WIDTH as nat);
    assert(field(written, MY_LBA_OFFSET as int, LBA_WIDTH as int) =~= le_bytes(
        value as nat,
        LBA_WIDTH as nat,
    ));
    assert(field(written, PARTITION_ENTRY_LBA_OFFSET as int, LBA_WIDTH as int) =~= field(
        header,
        PARTITION_ENTRY_LBA_OFFSET as int,
        LBA_WIDTH as int,
    ));
    assert(field(written, HEADER_CRC32_OFFSET as int, CRC32_WIDTH as int) =~= field(
        header,
        HEADER_CRC32_OFFSET as int,
        CRC32_WIDTH as int,
    ));
}

/// Writing an address for the partition-entry array and reading it gives the
/// address back, and the address of the header's own block and the stored
/// checksum stay as they were.
pub proof fn lemma_with_partition_entry_lba_reads_back(header: Seq<u8>, value: u64)
    requires
        header.len() == HEADER_SIZE,
    ensures
        partition_entry_lba(with_partition_entry_lba(header, value as nat)) == value,
        my_lba(with_partition_entry_lba(header, value as nat)) == my_lba(header),
        header_crc32(with_partition_entry_lba(header, value as nat)) == header_crc32(header),
{
    let written = with_partition_entry_lba(header, value as nat);
    lemma_le_bytes_len(value as nat, LBA_WIDTH as nat);
    lemma_radix_of_field_widths();
    lemma_le_value_of_le_bytes(value as nat, LBA_WIDTH as nat);
    assert(field(written, PARTITION_ENTRY_LBA_OFFSET as int, LBA_WIDTH as int) =~= le_bytes(
        value as nat,
        LBA_WIDTH as nat,
    ));
    assert(field(written, MY_LBA_OFFSET as int, LBA_WIDTH as int) =~= field(
        header,
        MY_LBA_OFFSET as int,
        LBA_WIDTH as int,
    ));
    assert(field(written, HEADER_CRC32_OFFSET as int, CRC32_WIDTH as int) =~= field(
        header,
        HEADER_CRC32_OFFSET as int,
        CRC32_WIDTH as int,
    ));
}

/// The checksum that belongs to a header does not depend on the checksum
/// that the header stores.
pub proof fn lemma_checksum_ignores_stored(header: Seq<u8>, value: nat)
    ensures
        checksum(with_header_crc32(header, value)) == checksum(header),
{
    lemma_le_bytes_len(value, CRC32_WIDTH as nat);
    assert(with_zeroed_crc32(with_header_crc32(header, value)) =~= with_zeroed_crc32(header));
}

/// Renewing the checksum changes the four bytes of the stored checksum and no
/// other byte, so both addresses stay as they were.
pub proof fn lemma_recomputed_keeps_other_bytes(header: Seq<u8>)
    requires
        header.len() == HEADER_SIZE,
    ensures
        recomputed(header).len() == header.len(),
        forall|i: int|
            0 <= i < header.len() && !(HEADER_CRC32_OFFSET <= i < HEADER_CRC32_OFFSET
                + CRC32_WIDTH) ==> #[trigger] recomputed(header)[i] == header[i],
        my_lba(recomputed(header)) == my_lba(header),
        partition_entry_lba(recomputed(header)) == partition_entry_lba(header),
{
    lemma_le_bytes_len(checksum(header) as nat, CRC32_WIDTH as nat);
    assert(field(recomputed(header), MY_LBA_OFFSET as int, LBA_WIDTH as int) =~= field(
        header,
        MY_LBA_OFFSET as int,
        LBA_WIDTH as int,
    ));
    assert(field(recomputed(header), PARTITION_ENTRY_LBA_OFFSET as int, LBA_WIDTH as int)
        =~= field(header, PARTITION_ENTRY_LBA_OFFSET as int, LBA_WIDTH as int));
}

/// After the checksum is renewed, the checksum that the header stores is the
/// CRC-32 of the header with zeros in the place of the stored checksum, which
/// is the checksum that belongs to the header as it then is.
pub proof fn lemma_recomputed_is_valid(header: Seq<u8>)
    requires
        header.len() == HEADER_SIZE,
    ensures
        header_crc32(recomputed(header)) == gpt_header_crc32(with_zeroed_crc32(header)),
        checksum_valid(recomputed(header)),
{
    let crc = checksum(header) as nat;
    lemma_le_bytes_len(crc, CRC32_WIDTH as nat);
    lemma_radix_of_field_widths();
    lemma_le_value_of_le_bytes(crc, CRC32_WIDTH as nat);
    assert(field(recomputed(header), HEADER_CRC32_OFFSET as int, CRC32_WIDTH as int)
        =~= le_bytes(crc, CRC32_WIDTH as nat));
    lemma_checksum_ignores_stored(header, crc);
}

/// Renewing the checksum twice in a row gives what renewing it once gives:
/// the second time stores the same checksum and changes no byte.
pub proof fn lemma_recompute_idempotent(header: Seq<u8>)
    ensures
        recomputed(recomputed(header)) == recomputed(header),
{
    let crc = checksum(header) as nat;
    lemma_checksum_ignores_stored(header, crc);
    lemma_le_bytes_len(crc, CRC32_WIDTH as nat);
    assert(with_header_crc32(with_header_crc32(header, crc), crc) =~= with_header_crc32(
        header,
        crc,
    ));
}

/// Writes `bytes` into `buffer` from `offset` on.
fn store(buffer: &mut [u8], offset: usize, bytes: &[u8])
    requires
        offset + bytes@.len() <= old(buffer)@.len(),
    ensures
        final(buffer)@ == splice(old(buffer)@, offset as int, bytes@),
{
    let count: usize = bytes.len();
    let mut i: usize = 0;
    proof {
        lemma_len_fits(buffer);
    }
    while i < count
        invariant
            i <= count == bytes@.len(),
            offset + count <= buffer@.len() <= usize::MAX,
            buffer@ == splice(old(buffer)@, offset as int, bytes@.take(i as int)),
        decreases count - i,
    {
        buffer[offset + i] = bytes[i];
        i = i + 1;
    }
    assert(bytes@.take(count as int) =~= bytes@);
}

/// The place of a header inside a buffer: the byte range from `start` up to
/// `end`, which is as long as a header is.
///
/// The view holds no bytes. It is of use with any buffer that reaches as far
/// as the view's range does, see [`HeaderView::covers`].
#[derive(Clone, Copy, Debug)]
pub struct HeaderView {
    start: usize,
    end: usize,
}

impl HeaderView {
    /// The range of a view is as long as a header is.
    #[verifier::type_invariant]
    spec fn spans_a_header(self) -> bool {
        self.end - self.start == HEADER_SIZE
    }

    /// The offset of the header's first byte.
    pub closed spec fn start(self) -> int {
        self.start as int
    }

    /// The offset of the first byte behind the header.
    pub open spec fn end(self) -> int {
        self.start() + HEADER_SIZE
    }

    /// Whether the view's byte range lies within `buffer`.
    pub open spec fn covers(self, buffer: Seq<u8>) -> bool {
        self.end() <= buffer.len()
    }

    /// The header that the view shows of `buffer`.
    pub open spec fn header(self, buffer: Seq<u8>) -> Seq<u8> {
        buffer.subrange(self.start(), self.end())
    }

    /// `buffer` with `header` in the view's range.
    pub open spec fn put(self, buffer: Seq<u8>, header: Seq<u8>) -> Seq<u8> {
        splice(buffer, self.start(), header)
    }

    /// Lays a view over the byte range from `start` up to `end`. The range
    /// has to be exactly as long as a header is.
    pub fn overlay(start: usize, end: usize) -> (view: HeaderView)
        requires
            start <= end,
            end - start == HEADER_SIZE,
        ensures
            view.start() == start,
    {
        HeaderView { start, end }
    }

    /// Reads the address that the header gives for itself.
    pub fn my_lba(&self, buffer: &[u8]) -> (value: u64)
        requires
            self.covers(buffer@),
        ensures
            value == my_lba(self.header(buffer@)),
    {
        proof {
            lemma_len_fits(buffer);
        }
        assert(field(self.header(buffer@), MY_LBA_OFFSET as int, LBA_WIDTH as int)
            =~= buffer@.subrange(
            self.start + MY_LBA_OFFSET,
            self.start + MY_LBA_OFFSET + LBA_WIDTH,
        ));
        read_le(buffer, self.start + MY_LBA_OFFSET, LBA_WIDTH)
    }

    /// Writes `value` as the address that the header gives for itself.
    pub fn set_my_lba(&self, buffer: &mut [u8], value: u64)
        requires
            self.covers(old(buffer)@),
        ensures
            final(buffer)@ == self.put(
                old(buffer)@,
                with_my_lba(self.header(old(buffer)@), value as nat),
            ),
            self.header(final(buffer)@) == with_my_lba(self.header(old(buffer)@), value as nat),
            my_lba(self.header(final(buffer)@)) == value,
    {
        let bytes: [u8; 8] = lba_le_bytes(value);
        proof {
            lemma_len_fits(buffer);
            lemma_with_my_lba_reads_back(self.header(buffer@), value);
        }
        store(buffer, self.start + MY_LBA_OFFSET, &bytes);
        assert(self.header(buffer@) =~= with_my_lba(self.header(old(buffer)@), value as nat));
    }

    /// Reads the address that the header gives for the partition-entry array.
    pub fn partition_entry_lba(&self, buffer: &[u8]) -> (value: u64)
        requires
            self.covers(buffer@),
        ensures
            value == partition_entry_lba(self.header(buffer@)),
    {
        proof {
            lemma_len_fits(buffer);
        }
        assert(field(self.header(buffer@), PARTITION_ENTRY_LBA_OFFSET as int, LBA_WIDTH as int)
            =~= buffer@.subrange(
            self.start + PARTITION_ENTRY_LBA_OFFSET,
            self.start + PARTITION_ENTRY_LBA_OFFSET + LBA_WIDTH,
        ));
        read_le(buffer, self.start + PARTITION_ENTRY_LBA_OFFSET, LBA_WIDTH)
    }

    /// Writes `value` as the address that the header gives for the
    /// partition-entry array.
    pub fn set_partition_entry_lba(&self, buffer: &mut [u8], value: u64)
        requires
            self.covers(old(buffer)@),
        ensures
            final(buffer)@ == self.put(
                old(buffer)@,
                with_partition_entry_lba(self.header(old(buffer)@), value as nat),
            ),
            self.header(final(buffer)@) == with_partition_entry_lba(
                self.header(old(buffer)@),
                value as nat,
            ),
            partition_entry_lba(self.header(final(buffer)@)) == value,
    {
        let bytes: [u8; 8] = lba_le_bytes(value);
        proof {
            lemma_len_fits(buffer);
            lemma_with_partition_entry_lba_reads_back(self.header(buffer@), value);
        }
        store(buffer, self.start + PARTITION_ENTRY_LBA_OFFSET, &bytes);
        assert(self.header(buffer@) =~= with_partition_entry_lba(
            self.header(old(buffer)@),
            value as nat,
        ));
    }

    /// Reads the checksum that the header stores.
    pub fn header_crc32(&self, buffer: &[u8]) -> (value: u32)
        requires
            self.covers(buffer@),
        ensures
            value == header_crc32(self.header(buffer@)),
    {
        let ghost stored = field(
            self.header(buffer@),
            HEADER_CRC32_OFFSET as int,
            CRC32_WIDTH as int,
        );
        proof {
            lemma_len_fits(buffer);
            lemma_le_value_bound(stored);
            lemma_radix_of_field_widths();
        }
        assert(stored =~= buffer@.subrange(
            self.start + HEADER_CRC32_OFFSET,
            self.start + HEADER_CRC32_OFFSET + CRC32_WIDTH,
        ));
        let wide: u64 = read_le(buffer, self.start + HEADER_CRC32_OFFSET, CRC32_WIDTH);
        wide as u32
    }

    /// Renews the checksum that the header stores: puts zeros in its place,
    /// takes the CRC-32 of the header as it then is, and stores that. No
    /// other byte of the header changes.
    pub fn recompute_crc32(&self, buffer: &mut [u8])
        requires
            self.covers(old(buffer)@),
        ensures
            final(buffer)@ == self.put(old(buffer)@, recomputed(self.header(old(buffer)@))),
            self.header(final(buffer)@) == recomputed(self.header(old(buffer)@)),
            header_crc32(self.header(final(buffer)@)) == gpt_header_crc32(
                with_zeroed_crc32(self.header(old(buffer)@)),
            ),
            checksum_valid(self.header(final(buffer)@)),
    {
        proof {
            lemma_len_fits(buffer);
            lemma_recomputed_is_valid(self.header(buffer@));
            lemma_recomputed_keeps_other_bytes(self.header(buffer@));
        }
        let zeros: [u8; 4] = [0u8; 4];
        store(buffer, self.start + HEADER_CRC32_OFFSET, &zeros);
        assert(self.header(buffer@) =~= with_zeroed_crc32(self.header(old(buffer)@)));
        proof {
            use_type_invariant(self);
        }
        let crc: u32 = calculate_header_crc32(
            vstd::slice::slice_subrange(buffer, self.start, self.end),
        );
        let bytes: [u8; 4] = u32_le_bytes(crc);
        store(buffer, self.start + HEADER_CRC32_OFFSET, &bytes);
        assert(self.header(buffer@) =~= recomputed(self.header(old(buffer)@)));
    }
}

} // verus!
