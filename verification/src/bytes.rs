use vstd::prelude::*;

verus! {

/// The little-endian unsigned value of `b[at..at + 4]`.
pub open spec fn le_u32(b: Seq<u8>, at: int) -> nat {
    b[at] as nat + b[at + 1] as nat * 0x100 + b[at + 2] as nat * 0x1_0000 + b[at + 3] as nat
        * 0x100_0000
}

/// The little-endian unsigned value of `b[at..at + 2]`.
pub open spec fn le_u16(b: Seq<u8>, at: int) -> nat {
    b[at] as nat + b[at + 1] as nat * 0x100
}

/// Two's complement reading of a 32-bit unsigned value.
pub open spec fn as_i32(v: nat) -> int {
    if v < 0x8000_0000 { v as int } else { v - 0x1_0000_0000 }
}

/// Two's complement reading of a 16-bit unsigned value.
pub open spec fn as_i16(v: nat) -> int {
    if v < 0x8000 { v as int } else { v - 0x1_0000 }
}

/// Reads a little-endian `u32` at `at`.
pub fn read_le_u32(data: &[u8], at: usize) -> (v: u32)
    requires
        at + 4 <= data@.len(),
    ensures
        v as nat == le_u32(data@, at as int),
{
    data[at] as u32 + data[at + 1] as u32 * 0x100 + data[at + 2] as u32 * 0x1_0000
        + data[at + 3] as u32 * 0x100_0000
}

/// Reads a little-endian `u16` at `at`.
pub fn read_le_u16(data: &[u8], at: usize) -> (v: u16)
    requires
        at + 2 <= data@.len(),
    ensures
        v as nat == le_u16(data@, at as int),
{
    data[at] as u16 + data[at + 1] as u16 * 0x100
}

/// Reads a little-endian `i32` at `at`.
pub fn read_le_i32(data: &[u8], at: usize) -> (v: i32)
    requires
        at + 4 <= data@.len(),
    ensures
        v as int == as_i32(le_u32(data@, at as int)),
{
    let u = read_le_u32(data, at);
    if u < 0x8000_0000 {
        u as i32
    } else {
        (u as i64 - 0x1_0000_0000i64) as i32
    }
}

/// Reads a little-endian `i16` at `at`.
pub fn read_le_i16(data: &[u8], at: usize) -> (v: i16)
    requires
        at + 2 <= data@.len(),
    ensures
        v as int == as_i16(le_u16(data@, at as int)),
{
    let u = read_le_u16(data, at);
    if u < 0x8000 {
        u as i16
    } else {
        (u as i32 - 0x1_0000i32) as i16
    }
}

/// Where the payload of a length-prefixed block at `offset` lies: a
/// little-endian `u32` length followed by that many bytes.
pub enum BlockFrame {
    /// Fewer than four bytes remain at `offset`.
    Truncated,
    /// The payload would run past the end of the data.
    TooLong(nat),
    /// The payload is `start..end`.
    Within(int, int),
}

/// The framing of the length-prefixed block at `offset` in `data`.
pub open spec fn block_frame(data: Seq<u8>, offset: int) -> BlockFrame {
    if offset + 4 > data.len() {
        BlockFrame::Truncated
    } else if offset + 4 + le_u32(data, offset) > data.len() {
        BlockFrame::TooLong(le_u32(data, offset))
    } else {
        BlockFrame::Within(offset + 4, offset + 4 + le_u32(data, offset))
    }
}

/// The four little-endian bytes of `n`.
pub open spec fn le_bytes(n: nat) -> Seq<u8> {
    seq![
        (n % 0x100) as u8,
        (n / 0x100 % 0x100) as u8,
        (n / 0x100 / 0x100 % 0x100) as u8,
        (n / 0x100 / 0x100 / 0x100 % 0x100) as u8,
    ]
}

/// Four little-endian bytes written for `n` read back as `n`, whatever
/// stands around them.
pub proof fn lemma_le_bytes_read_back(pre: Seq<u8>, n: nat, post: Seq<u8>)
    requires
        n <= u32::MAX,
    ensures
        le_u32(pre + le_bytes(n) + post, pre.len() as int) == n,
        (pre + le_bytes(n) + post).len() == pre.len() + 4 + post.len(),
{
    let data = pre + le_bytes(n) + post;
    let at = pre.len() as int;
    let q1 = n / 0x100;
    let q2 = q1 / 0x100;
    let q3 = q2 / 0x100;
    assert(data[at] == (n % 0x100) as u8);
    assert(data[at + 1] == (q1 % 0x100) as u8);
    assert(data[at + 2] == (q2 % 0x100) as u8);
    assert(data[at + 3] == (q3 % 0x100) as u8);
    assert(q3 < 0x100);
}

/// A block written as its length in four little-endian bytes followed by
/// its payload frames exactly that payload, whatever stands around it.
pub proof fn law_block_frame_read_back(pre: Seq<u8>, payload: Seq<u8>, post: Seq<u8>)
    requires
        payload.len() <= u32::MAX,
    ensures
        ({
            let data = pre + le_bytes(payload.len()) + payload + post;
            let start = pre.len() + 4int;
            &&& block_frame(data, pre.len() as int) == BlockFrame::Within(start, start + payload.len() as int)
            &&& data.subrange(start, start + payload.len() as int) == payload
        }),
{
    let n = payload.len();
    let data = pre + le_bytes(n) + payload + post;
    let at = pre.len() as int;
    assert(data =~= pre + le_bytes(n) + (payload + post));
    lemma_le_bytes_read_back(pre, n, payload + post);
    assert(data.subrange(at + 4, at + 4 + n as int) =~= payload);
}

/// The two little-endian bytes of `n`.
pub open spec fn le_bytes16(n: nat) -> Seq<u8> {
    seq![(n % 0x100) as u8, (n / 0x100 % 0x100) as u8]
}

/// The 32-bit two's complement pattern of `v`.
pub open spec fn bits32(v: int) -> nat {
    if v < 0 { (v + 0x1_0000_0000) as nat } else { v as nat }
}

/// The 16-bit two's complement pattern of `v`.
pub open spec fn bits16(v: int) -> nat {
    if v < 0 { (v + 0x1_0000) as nat } else { v as nat }
}

/// Four bytes that `data` holds at `at` as the encoding of `n` read back as `n`.
pub proof fn lemma_le_read(data: Seq<u8>, at: int, n: nat)
    requires
        0 <= at,
        at + 4 <= data.len(),
        n <= u32::MAX,
        data.subrange(at, at + 4) == le_bytes(n),
    ensures
        le_u32(data, at) == n,
{
    assert(data =~= data.take(at) + le_bytes(n) + data.skip(at + 4));
    lemma_le_bytes_read_back(data.take(at), n, data.skip(at + 4));
}

/// Two bytes that `data` holds at `at` as the encoding of `n` read back as `n`.
pub proof fn lemma_le16_read(data: Seq<u8>, at: int, n: nat)
    requires
        0 <= at,
        at + 2 <= data.len(),
        n <= u16::MAX,
        data.subrange(at, at + 2) == le_bytes16(n),
    ensures
        le_u16(data, at) == n,
{
    assert(data[at] == data.subrange(at, at + 2)[0]);
    assert(data[at + 1] == data.subrange(at, at + 2)[1]);
}

/// The two's complement pattern of an `i32` reads back as that `i32`.
pub proof fn lemma_bits32(v: i32)
    ensures
        bits32(v as int) <= u32::MAX,
        as_i32(bits32(v as int)) == v,
{
}

/// The two's complement pattern of an `i16` reads back as that `i16`.
pub proof fn lemma_bits16(v: i16)
    ensures
        bits16(v as int) <= u16::MAX,
        as_i16(bits16(v as int)) == v,
{
}

} // verus!
