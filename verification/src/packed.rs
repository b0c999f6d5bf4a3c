//! The packed_v2 blob: the uncompressed form of an export.
//!
//! | part            | bytes                  | content                          |
//! |-----------------|------------------------|----------------------------------|
//! | magic           | 4                      | `FCBK`                           |
//! | version         | 2                      | 2, little endian                 |
//! | block size      | 4                      | 4096, little endian              |
//! | block count     | 4                      | little endian                    |
//! | reserved        | 6                      | zero                             |
//! | XOR base bitmap | count / 8, rounded up  | bit set: base is the previous checkpoint; clear: golden |
//! | index table     | 4 per block            | block numbers, little endian     |
//! | block data      | 4096 per block         | content XOR base                 |

use vstd::prelude::*;

use crate::guest::BLOCK_SIZE;

verus! {

/// Size in bytes of the fixed part in front of the XOR base bitmap.
pub const HEADER_SIZE: usize = 20;

/// One block of an export: its number, which base it is relative to, and its
/// content XOR that base.
pub struct BlockDelta {
    pub index: u32,
    pub from_prev: bool,
    pub bytes: Seq<u8>,
}

/// One block of an export.
#[derive(Debug)]
pub struct ExportedBlock {
    /// Number of the block.
    pub index: u32,
    /// Whether the XOR base is the previous checkpoint rather than golden.
    pub from_prev: bool,
    /// Content of the block XOR its base.
    pub delta: Vec<u8>,
}

impl View for ExportedBlock {
    type V = BlockDelta;

    open spec fn view(&self) -> BlockDelta {
        BlockDelta { index: self.index, from_prev: self.from_prev, bytes: self.delta@ }
    }
}

/// The views of a list of exported blocks.
pub open spec fn deltas_of(blocks: Seq<ExportedBlock>) -> Seq<BlockDelta> {
    blocks.map_values(|b: ExportedBlock| b@)
}

/// The four bytes of `x`, least significant first.
pub open spec fn le32(x: u32) -> Seq<u8> {
    seq![
        (x % 256) as u8,
        (x / 256 % 256) as u8,
        (x / 65536 % 256) as u8,
        (x / 16777216) as u8,
    ]
}

/// The number whose four bytes, least significant first, stand at `at`.
pub open spec fn le32_at(s: Seq<u8>, at: int) -> u32 {
    (s[at] + 256 * s[at + 1] + 65536 * s[at + 2] + 16777216 * s[at + 3]) as u32
}

/// Magic, version, block size, block count and reserved bytes.
pub open spec fn header(count: u32) -> Seq<u8> {
    seq![0x46u8, 0x43, 0x42, 0x4b] + seq![2u8, 0] + le32(BLOCK_SIZE as u32) + le32(count)
        + seq![0u8, 0, 0, 0, 0, 0]
}

/// Whether block `i` exists and is relative to the previous checkpoint.
pub open spec fn base_bit(deltas: Seq<BlockDelta>, i: int) -> bool {
    0 <= i < deltas.len() && deltas[i].from_prev
}

/// A byte from its bits, least significant first.
pub open spec fn byte_of_bits(
    b0: bool,
    b1: bool,
    b2: bool,
    b3: bool,
    b4: bool,
    b5: bool,
    b6: bool,
    b7: bool,
) -> u8 {
    (if b0 { 1u8 } else { 0u8 }) | (if b1 { 2u8 } else { 0u8 }) | (if b2 { 4u8 } else { 0u8 }) | (
    if b3 { 8u8 } else { 0u8 }) | (if b4 { 16u8 } else { 0u8 }) | (if b5 { 32u8 } else { 0u8 }) | (
    if b6 { 64u8 } else { 0u8 }) | (if b7 { 128u8 } else { 0u8 })
}

/// Byte `j` of the XOR base bitmap: the bits of blocks `8j` to `8j + 7`.
pub open spec fn base_byte(deltas: Seq<BlockDelta>, j: int) -> u8 {
    byte_of_bits(
        base_bit(deltas, 8 * j),
        base_bit(deltas, 8 * j + 1),
        base_bit(deltas, 8 * j + 2),
        base_bit(deltas, 8 * j + 3),
        base_bit(deltas, 8 * j + 4),
        base_bit(deltas, 8 * j + 5),
        base_bit(deltas, 8 * j + 6),
        base_bit(deltas, 8 * j + 7),
    )
}

/// Number of bytes of a bitmap of `count` bits.
pub open spec fn bitmap_bytes(count: int) -> int {
    (count + 7) / 8
}

/// The XOR base bitmap.
pub open spec fn base_bitmap(deltas: Seq<BlockDelta>) -> Seq<u8> {
    Seq::new(bitmap_bytes(deltas.len() as int) as nat, |j: int| base_byte(deltas, j))
}

/// The index table.
pub open spec fn index_table(deltas: Seq<BlockDelta>) -> Seq<u8>
    decreases deltas.len(),
{
    if deltas.len() == 0 {
        Seq::empty()
    } else {
        index_table(deltas.drop_last()) + le32(deltas.last().index)
    }
}

/// The block data.
pub open spec fn block_data(deltas: Seq<BlockDelta>) -> Seq<u8>
    decreases deltas.len(),
{
    if deltas.len() == 0 {
        Seq::empty()
    } else {
        block_data(deltas.drop_last()) + deltas.last().bytes
    }
}

/// The packed_v2 blob of an export.
pub open spec fn packed_v2(deltas: Seq<BlockDelta>) -> Seq<u8> {
    header(deltas.len() as u32) + base_bitmap(deltas) + index_table(deltas) + block_data(deltas)
}

/// Appends the four bytes of `x`, least significant first.
fn push_le32(out: &mut Vec<u8>, x: u32)
    ensures
        final(out)@ == old(out)@ + le32(x),
{
    out.push((x % 256) as u8);
    out.push((x / 256 % 256) as u8);
    out.push((x / 65536 % 256) as u8);
    out.push((x / 16777216) as u8);
    assert(out@ =~= old(out)@ + le32(x));
}

/// The weight `weight` if block `i` exists and is relative to the previous
/// checkpoint, and 0 otherwise.
fn weighted_base_bit(blocks: &Vec<ExportedBlock>, i: usize, weight: u8) -> (bit: u8)
    ensures
        bit == if base_bit(deltas_of(blocks@), i as int) { weight } else { 0u8 },
{
    if i < blocks.len() && blocks[i].from_prev {
        weight
    } else {
        0
    }
}

/// Appends the header.
fn push_header(out: &mut Vec<u8>, count: u32)
    ensures
        final(out)@ == old(out)@ + header(count),
{
    out.push(0x46);
    out.push(0x43);
    out.push(0x42);
    out.push(0x4b);
    out.push(2);
    out.push(0);
    push_le32(out, BLOCK_SIZE as u32);
    push_le32(out, count);
    let mut i: usize = 0;
    let ghost start = out@;
    while i < 6
        invariant
            i <= 6,
            out@.len() == start.len() + i,
            out@.take(start.len() as int) == start,
            forall|j: int| start.len() <= j < out@.len() ==> out@[j] == 0,
        decreases 6 - i,
    {
        let ghost before = out@;
        out.push(0);
        assert(out@.take(start.len() as int) =~= before.take(start.len() as int));
        i = i + 1;
    }
    assert(out@ =~= start + seq![0u8, 0, 0, 0, 0, 0]);
    assert(out@ =~= old(out)@ + header(count));
}

/// Packs an export into a packed_v2 blob.
pub fn pack(blocks: &Vec<ExportedBlock>) -> (raw: Vec<u8>)
    requires
        blocks.len() <= u32::MAX,
    ensures
        raw@ == packed_v2(deltas_of(blocks@)),
{
    let ghost deltas = deltas_of(blocks@);
    let mut raw: Vec<u8> = Vec::new();
    push_header(&mut raw, blocks.len() as u32);
    assert(raw@ =~= header(deltas.len() as u32));

    let ghost head = raw@;
    let bytes: usize = blocks.len() / 8 + if blocks.len() % 8 == 0 { 0 } else { 1 };
    let mut j: usize = 0;
    assert(raw@ =~= head + base_bitmap(deltas).take(0));
    while j < bytes
        invariant
            j <= bytes,
            bytes == bitmap_bytes(blocks.len() as int),
            blocks.len() <= u32::MAX,
            deltas == deltas_of(blocks@),
            raw@ == head + base_bitmap(deltas).take(j as int),
        decreases bytes - j,
    {
        let i: usize = 8 * j;
        let byte: u8 = weighted_base_bit(blocks, i, 1) | weighted_base_bit(blocks, i + 1, 2)
            | weighted_base_bit(blocks, i + 2, 4) | weighted_base_bit(blocks, i + 3, 8)
            | weighted_base_bit(blocks, i + 4, 16) | weighted_base_bit(blocks, i + 5, 32)
            | weighted_base_bit(blocks, i + 6, 64) | weighted_base_bit(blocks, i + 7, 128);
        assert(byte == base_byte(deltas, j as int));
        raw.push(byte);
        assert(raw@ =~= head + base_bitmap(deltas).take(j + 1));
        j = j + 1;
    }
    assert(base_bitmap(deltas).take(j as int) =~= base_bitmap(deltas));

    let ghost head = raw@;
    let mut k: usize = 0;
    assert(raw@ =~= head + index_table(deltas.take(0)));
    while k < blocks.len()
        invariant
            k <= blocks.len(),
            deltas == deltas_of(blocks@),
            raw@ == head + index_table(deltas.take(k as int)),
        decreases blocks.len() - k,
    {
        push_le32(&mut raw, blocks[k].index);
        assert(deltas.take(k + 1).drop_last() =~= deltas.take(k as int));
        assert(raw@ =~= head + index_table(deltas.take(k + 1)));
        k = k + 1;
    }
    assert(deltas.take(k as int) =~= deltas);

    let ghost head = raw@;
    k = 0;
    assert(raw@ =~= head + block_data(deltas.take(0)));
    while k < blocks.len()
        invariant
            k <= blocks.len(),
            deltas == deltas_of(blocks@),
            raw@ == head + block_data(deltas.take(k as int)),
        decreases blocks.len() - k,
    {
        let ghost before = raw@;
        raw.extend_from_slice(blocks[k].delta.as_slice());
        assert(raw@ =~= before + deltas[k as int].bytes);
        assert(deltas.take(k + 1).drop_last() =~= deltas.take(k as int));
        assert(raw@ =~= head + block_data(deltas.take(k + 1)));
        k = k + 1;
    }
    assert(deltas.take(k as int) =~= deltas);
    raw
}

/// What a reader of a packed_v2 blob finds in it: as many blocks as the header
/// counts, each with its base bit, its number and its data.
pub open spec fn unpacked(raw: Seq<u8>) -> Seq<BlockDelta> {
    let count = le32_at(raw, 10) as int;
    let indices = HEADER_SIZE + bitmap_bytes(count);
    let data = indices + 4 * count;
    Seq::new(
        count as nat,
        |k: int|
            BlockDelta {
                index: le32_at(raw, indices + 4 * k),
                from_prev: crate::bits::byte_bit(raw[HEADER_SIZE + k / 8], k % 8),
                bytes: raw.subrange(data + BLOCK_SIZE * k, data + BLOCK_SIZE * k + BLOCK_SIZE),
            },
    )
}

/// Whether every block of an export has the block size.
pub open spec fn whole_blocks(deltas: Seq<BlockDelta>) -> bool {
    forall|k: int| 0 <= k < deltas.len() ==> (#[trigger] deltas[k]).bytes.len() == BLOCK_SIZE
}

proof fn lemma_le32(x: u32)
    ensures
        le32(x).len() == 4,
        le32_at(le32(x), 0) == x,
{
}

proof fn lemma_index_table(deltas: Seq<BlockDelta>, k: int)
    requires
        0 <= k < deltas.len(),
    ensures
        index_table(deltas).len() == 4 * deltas.len(),
        le32_at(index_table(deltas), 4 * k) == deltas[k].index,
    decreases deltas.len(),
{
    let last = deltas.last().index;
    lemma_le32(last);
    let before = index_table(deltas.drop_last());
    if deltas.len() > 1 {
        lemma_index_table(deltas.drop_last(), if k < deltas.len() - 1 { k } else { 0 });
    }
    assert(before.len() == 4 * (deltas.len() - 1));
    if k == deltas.len() - 1 {
        assert(le32_at(index_table(deltas), 4 * k) == le32_at(le32(last), 0));
    } else {
        assert(le32_at(index_table(deltas), 4 * k) == le32_at(before, 4 * k));
    }
}

proof fn lemma_block_data(deltas: Seq<BlockDelta>, k: int)
    requires
        whole_blocks(deltas),
        0 <= k < deltas.len(),
    ensures
        block_data(deltas).len() == BLOCK_SIZE * deltas.len(),
        block_data(deltas).subrange(BLOCK_SIZE * k, BLOCK_SIZE * k + BLOCK_SIZE)
            == deltas[k].bytes,
    decreases deltas.len(),
{
    let init = deltas.drop_last();
    assert(whole_blocks(init)) by {
        assert(forall|j: int| 0 <= j < init.len() ==> init[j] == deltas[j]);
    }
    if deltas.len() > 1 {
        lemma_block_data(init, if k < deltas.len() - 1 { k } else { 0 });
    }
    assert(block_data(init).len() == BLOCK_SIZE * (deltas.len() - 1));
    if k == deltas.len() - 1 {
        assert(block_data(deltas).subrange(BLOCK_SIZE * k, BLOCK_SIZE * k + BLOCK_SIZE)
            =~= deltas[k].bytes);
    } else {
        assert(block_data(deltas).subrange(BLOCK_SIZE * k, BLOCK_SIZE * k + BLOCK_SIZE)
            =~= block_data(init).subrange(BLOCK_SIZE * k, BLOCK_SIZE * k + BLOCK_SIZE));
    }
}

proof fn lemma_byte_of_bits(
    b0: bool,
    b1: bool,
    b2: bool,
    b3: bool,
    b4: bool,
    b5: bool,
    b6: bool,
    b7: bool,
    t: u8,
)
    by (bit_vector)
    requires
        t < 8,
    ensures
        (byte_of_bits(b0, b1, b2, b3, b4, b5, b6, b7) >> t) & 1 == 1 <==> ((t == 0 && b0) || (t == 1
            && b1) || (t == 2 && b2) || (t == 3 && b3) || (t == 4 && b4) || (t == 5 && b5) || (t
            == 6 && b6) || (t == 7 && b7)),
{
}

proof fn lemma_base_bitmap(deltas: Seq<BlockDelta>, k: int)
    requires
        0 <= k < 8 * bitmap_bytes(deltas.len() as int),
    ensures
        k / 8 < base_bitmap(deltas).len(),
        crate::bits::byte_bit(base_bitmap(deltas)[k / 8], k % 8) == base_bit(deltas, k),
{
    let j = k / 8;
    lemma_byte_of_bits(
        base_bit(deltas, 8 * j),
        base_bit(deltas, 8 * j + 1),
        base_bit(deltas, 8 * j + 2),
        base_bit(deltas, 8 * j + 3),
        base_bit(deltas, 8 * j + 4),
        base_bit(deltas, 8 * j + 5),
        base_bit(deltas, 8 * j + 6),
        base_bit(deltas, 8 * j + 7),
        (k % 8) as u8,
    );
}

/// The XOR base bitmap of a blob has the bit of a block set exactly if the block
/// is relative to the previous checkpoint. The bits of its last byte that belong
/// to no block are clear.
pub proof fn base_bits(deltas: Seq<BlockDelta>, k: int)
    requires
        0 <= k < 8 * bitmap_bytes(deltas.len() as int),
    ensures
        crate::bits::byte_bit(packed_v2(deltas)[HEADER_SIZE + k / 8], k % 8) <==> k < deltas.len()
            && deltas[k].from_prev,
{
    lemma_base_bitmap(deltas, k);
    assert(packed_v2(deltas)[HEADER_SIZE + k / 8] == base_bitmap(deltas)[k / 8]);
}

/// Size of a packed_v2 blob.
pub proof fn packed_size(deltas: Seq<BlockDelta>)
    requires
        whole_blocks(deltas),
    ensures
        packed_v2(deltas).len() == HEADER_SIZE + bitmap_bytes(deltas.len() as int) + 4
            * deltas.len() + BLOCK_SIZE * deltas.len(),
{
    if deltas.len() > 0 {
        lemma_index_table(deltas, 0);
        lemma_block_data(deltas, 0);
    }
}

/// A packed_v2 blob can be read back: it holds exactly the blocks that were
/// packed, in order, with their base bits.
pub proof fn packed_round_trip(deltas: Seq<BlockDelta>)
    requires
        whole_blocks(deltas),
        deltas.len() <= u32::MAX,
    ensures
        unpacked(packed_v2(deltas)) == deltas,
{
    let raw = packed_v2(deltas);
    let count = deltas.len() as int;
    packed_size(deltas);
    lemma_le32(count as u32);
    assert(le32_at(raw, 10) == le32_at(le32(count as u32), 0));
    let indices = HEADER_SIZE + bitmap_bytes(count);
    let data = indices + 4 * count;
    assert forall|k: int| 0 <= k < count implies unpacked(raw)[k] == deltas[k] by {
        lemma_index_table(deltas, k);
        lemma_block_data(deltas, k);
        lemma_base_bitmap(deltas, k);
        assert(le32_at(raw, indices + 4 * k) == le32_at(index_table(deltas), 4 * k));
        assert(raw[HEADER_SIZE + k / 8] == base_bitmap(deltas)[k / 8]);
        assert(raw.subrange(data + BLOCK_SIZE * k, data + BLOCK_SIZE * k + BLOCK_SIZE)
            =~= block_data(deltas).subrange(BLOCK_SIZE * k, BLOCK_SIZE * k + BLOCK_SIZE));
    }
    assert(unpacked(raw) =~= deltas);
}

/// A list of exported blocks stands for the blocks themselves, in order.
pub proof fn deltas_are_the_blocks(blocks: Seq<ExportedBlock>)
    ensures
        deltas_of(blocks).len() == blocks.len(),
        forall|k: int|
            0 <= k < blocks.len() ==> {
                &&& (#[trigger] deltas_of(blocks)[k]).index == blocks[k].index
                &&& deltas_of(blocks)[k].from_prev == blocks[k].from_prev
                &&& deltas_of(blocks)[k].bytes == blocks[k].delta@
            },
{
}

/// How a blob starts, and how long it is: the letters `FCBK`, version 2, the
/// block size 4096, the number of blocks, and six zeros; after these 20 bytes
/// follow one bit per block, rounded up to whole bytes, and 4 + 4096 bytes per
/// block. Numbers have their least significant byte first.
pub proof fn blob_starts_with_header(deltas: Seq<BlockDelta>)
    requires
        deltas.len() <= 0xffff_ffff,
    ensures
        ({
            let raw = packed_v2(deltas);
            &&& raw.len() >= 20
            &&& (forall|k: int|
                0 <= k < deltas.len() ==> (#[trigger] deltas[k]).bytes.len() == 4096) ==> raw.len()
                == 20 + (deltas.len() + 7) / 8 + 4100 * deltas.len()
            &&& raw[0] == 0x46 && raw[1] == 0x43 && raw[2] == 0x42 && raw[3] == 0x4b
            &&& raw[4] + 256 * raw[5] == 2
            &&& raw[6] + 256 * raw[7] + 65536 * raw[8] + 16777216 * raw[9] == 4096
            &&& raw[10] + 256 * raw[11] + 65536 * raw[12] + 16777216 * raw[13] == deltas.len()
            &&& forall|i: int| 14 <= i < 20 ==> #[trigger] raw[i] == 0
        }),
{
    if forall|k: int| 0 <= k < deltas.len() ==> (#[trigger] deltas[k]).bytes.len() == 4096 {
        assert(whole_blocks(deltas));
        packed_size(deltas);
    }
    let raw = packed_v2(deltas);
    let head = header(deltas.len() as u32);
    assert(forall|i: int| 0 <= i < 20 ==> #[trigger] raw[i] == head[i]);
}

/// Bit `k` of the bitmap behind the header is set exactly if there is a block `k`
/// and its base is the previous checkpoint. Bit 0 is the least significant of the
/// first byte.
pub proof fn blob_names_bases(deltas: Seq<BlockDelta>, k: int)
    requires
        0 <= k < 8 * ((deltas.len() + 7) / 8),
    ensures
        packed_v2(deltas)[20 + k / 8] & (1u8 << ((k % 8) as u8)) != 0 <==> k < deltas.len()
            && deltas[k].from_prev,
{
    base_bits(deltas, k);
    crate::bits::byte_bit_is_tested_by_mask(packed_v2(deltas)[20 + k / 8], k % 8);
}

/// Behind the bitmap stand the block numbers, four bytes each, the least
/// significant first.
pub proof fn blob_names_blocks(deltas: Seq<BlockDelta>, k: int)
    requires
        0 <= k < deltas.len(),
    ensures
        ({
            let raw = packed_v2(deltas);
            let at = 20 + (deltas.len() as int + 7) / 8 + 4 * k;
            raw[at] + 256 * raw[at + 1] + 65536 * raw[at + 2] + 16777216 * raw[at + 3]
                == deltas[k].index
        }),
{
    let raw = packed_v2(deltas);
    let table = index_table(deltas);
    let start = 20 + (deltas.len() as int + 7) / 8;
    lemma_index_table(deltas, k);
    lemma_index_bytes(deltas, k);
    assert(forall|i: int| 0 <= i < 4 * deltas.len() ==> #[trigger] table[i] == raw[start + i]);
}

proof fn lemma_index_bytes(deltas: Seq<BlockDelta>, k: int)
    requires
        0 <= k < deltas.len(),
    ensures
        index_table(deltas).len() == 4 * deltas.len(),
        ({
            let t = index_table(deltas);
            t[4 * k] + 256 * t[4 * k + 1] + 65536 * t[4 * k + 2] + 16777216 * t[4 * k + 3]
                == deltas[k].index
        }),
    decreases deltas.len(),
{
    lemma_index_table(deltas, k);
    let init = deltas.drop_last();
    if k < init.len() {
        lemma_index_bytes(init, k);
    } else if init.len() > 0 {
        lemma_index_bytes(init, 0);
    }
}

/// Behind the block numbers stands the data of all blocks, end to end, and nothing
/// else.
pub proof fn blob_ends_with_data(deltas: Seq<BlockDelta>)
    ensures
        ({
            let start = 20 + (deltas.len() as int + 7) / 8 + 4 * deltas.len();
            &&& start <= packed_v2(deltas).len()
            &&& packed_v2(deltas).skip(start) == deltas.map_values(
                |d: BlockDelta| d.bytes,
            ).flatten()
        }),
{
    let start = 20 + (deltas.len() as int + 7) / 8 + 4 * deltas.len();
    if deltas.len() > 0 {
        lemma_index_table(deltas, 0);
    }
    lemma_data_is_flat(deltas);
    assert(packed_v2(deltas).skip(start) =~= block_data(deltas));
}

proof fn lemma_data_is_flat(deltas: Seq<BlockDelta>)
    ensures
        block_data(deltas) == deltas.map_values(|d: BlockDelta| d.bytes).flatten(),
    decreases deltas.len(),
{
    let all = deltas.map_values(|d: BlockDelta| d.bytes);
    all.lemma_flatten_and_flatten_alt_are_equivalent();
    if deltas.len() > 0 {
        let init = deltas.drop_last();
        let before = init.map_values(|d: BlockDelta| d.bytes);
        lemma_data_is_flat(init);
        before.lemma_flatten_and_flatten_alt_are_equivalent();
        assert(all.drop_last() =~= before);
        assert(all.last() == deltas.last().bytes);
    }
}

/// Behind the block numbers stands the data: 4096 bytes per block, in the order
/// of the numbers.
pub proof fn blob_holds_data(deltas: Seq<BlockDelta>, k: int, j: int)
    requires
        forall|i: int| 0 <= i < deltas.len() ==> (#[trigger] deltas[i]).bytes.len() == 4096,
        0 <= k < deltas.len(),
        0 <= j < 4096,
    ensures
        packed_v2(deltas)[20 + (deltas.len() as int + 7) / 8 + 4 * deltas.len() + 4096 * k + j]
            == deltas[k].bytes[j],
{
    assert(whole_blocks(deltas));
    let start = 20 + (deltas.len() as int + 7) / 8 + 4 * deltas.len();
    lemma_index_table(deltas, k);
    lemma_block_data(deltas, k);
    let part = block_data(deltas).subrange(4096 * k, 4096 * k + 4096);
    assert(part[j] == block_data(deltas)[4096 * k + j]);
    assert(packed_v2(deltas)[start + (4096 * k + j)] == block_data(deltas)[4096 * k + j]);
}

} // verus!
