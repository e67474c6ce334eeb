//! PNG files of 8-bit RGB pictures, without compression.

use vstd::prelude::*;
use crate::common::push_bytes;

verus! {

/// The first bytes of every PNG file.
pub const PNG_SIGNATURE: [u8; 8] = [137, 80, 78, 71, 13, 10, 26, 10];

/// The reversed polynomial of the cyclic redundancy check.
pub const CRC_POLYNOMIAL: u32 = 0xEDB8_8320;

/// The modulus of the Adler checksum: the largest prime below `2^16`.
pub const ADLER_MODULUS: u32 = 65521;

/// The most bytes of a stored block.
pub const MAX_STORED: usize = 65535;

// ---------------------------------------------------------------------------
// Checksums.
// ---------------------------------------------------------------------------

/// The remainder after `n` more bits.
pub open spec fn crc_bits(crc: u32, n: nat) -> u32
    decreases n,
{
    if n == 0 {
        crc
    } else {
        let c = crc_bits(crc, (n - 1) as nat);
        if c % 2 == 1 {
            (c / 2) ^ CRC_POLYNOMIAL
        } else {
            c / 2
        }
    }
}

/// The remainder after the bytes, from one of all ones.
pub open spec fn crc_register(data: Seq<u8>) -> u32
    decreases data.len(),
{
    if data.len() == 0 {
        0xFFFF_FFFF
    } else {
        crc_bits(crc_register(data.drop_last()) ^ (data.last() as u32), 8)
    }
}

/// The cyclic redundancy check of the bytes.
pub open spec fn spec_crc32(data: Seq<u8>) -> u32 {
    !crc_register(data)
}

/// Computes the cyclic redundancy check of the bytes.
pub fn crc32(data: &[u8]) -> (crc: u32)
    ensures
        crc == spec_crc32(data@),
{
    let mut crc: u32 = 0xFFFF_FFFF;
    for i in 0..data.len()
        invariant
            crc == crc_register(data@.subrange(0, i as int)),
    {
        let ghost s = data@.subrange(0, i + 1);
        assert(s.drop_last() =~= data@.subrange(0, i as int));
        let start: u32 = crc ^ (data[i] as u32);
        crc = start;
        for k in 0..8u32
            invariant
                crc == crc_bits(start, k as nat),
        {
            if crc % 2 == 1 {
                crc = (crc / 2) ^ CRC_POLYNOMIAL;
            } else {
                crc = crc / 2;
            }
        }
    }
    assert(data@.subrange(0, data.len() as int) =~= data@);
    !crc
}

/// One and all bytes added up.
pub open spec fn adler_low(data: Seq<u8>) -> int
    decreases data.len(),
{
    if data.len() == 0 {
        1
    } else {
        (adler_low(data.drop_last()) + data.last()) % (ADLER_MODULUS as int)
    }
}

/// The sums after each byte, added up.
pub open spec fn adler_high(data: Seq<u8>) -> int
    decreases data.len(),
{
    if data.len() == 0 {
        0
    } else {
        (adler_high(data.drop_last()) + adler_low(data)) % (ADLER_MODULUS as int)
    }
}

/// The Adler checksum of the bytes.
pub open spec fn spec_adler32(data: Seq<u8>) -> int {
    adler_high(data) * 65536 + adler_low(data)
}

/// Computes the Adler checksum of the bytes.
pub fn adler32(data: &[u8]) -> (sum: u32)
    ensures
        sum == spec_adler32(data@),
{
    let mut a: u32 = 1;
    let mut b: u32 = 0;
    for i in 0..data.len()
        invariant
            a == adler_low(data@.subrange(0, i as int)),
            b == adler_high(data@.subrange(0, i as int)),
            a < ADLER_MODULUS,
            b < ADLER_MODULUS,
    {
        let ghost s = data@.subrange(0, i + 1);
        assert(s.drop_last() =~= data@.subrange(0, i as int));
        a = (a + data[i] as u32) % ADLER_MODULUS;
        b = (b + a) % ADLER_MODULUS;
    }
    assert(data@.subrange(0, data.len() as int) =~= data@);
    b * 65536 + a
}

// ---------------------------------------------------------------------------
// Streams.
// ---------------------------------------------------------------------------

/// Four bytes, most significant first.
pub open spec fn be32_bytes(v: int) -> Seq<u8> {
    seq![
        (v / 0x100_0000 % 256) as u8,
        (v / 0x1_0000 % 256) as u8,
        (v / 0x100 % 256) as u8,
        (v % 256) as u8,
    ]
}

fn push_be32(out: &mut Vec<u8>, v: u32)
    ensures
        final(out)@ == old(out)@ + be32_bytes(v as int),
{
    let ghost before = out@;
    out.push((v / 0x100_0000 % 256) as u8);
    out.push((v / 0x1_0000 % 256) as u8);
    out.push((v / 0x100 % 256) as u8);
    out.push((v % 256) as u8);
    assert(out@ =~= before + be32_bytes(v as int));
}

/// The head of a stored block: whether it is the last one, its length, and the
/// complement of the length, least significant byte first.
pub open spec fn stored_head(last: bool, len: int) -> Seq<u8> {
    seq![
        if last { 1u8 } else { 0u8 },
        (len % 256) as u8,
        (len / 256) as u8,
        ((65535 - len) % 256) as u8,
        ((65535 - len) / 256) as u8,
    ]
}

/// The data in stored blocks, all but the last of the greatest length.
pub open spec fn stored_blocks(data: Seq<u8>) -> Seq<u8>
    decreases data.len(),
{
    if data.len() <= MAX_STORED {
        stored_head(true, data.len() as int) + data
    } else {
        stored_head(false, MAX_STORED as int) + data.subrange(0, MAX_STORED as int)
            + stored_blocks(data.skip(MAX_STORED as int))
    }
}

fn push_stored_head(out: &mut Vec<u8>, last: bool, len: usize)
    requires
        len <= MAX_STORED,
    ensures
        final(out)@ == old(out)@ + stored_head(last, len as int),
{
    let ghost before = out@;
    let complement: usize = MAX_STORED - len;
    out.push(if last { 1 } else { 0 });
    out.push((len % 256) as u8);
    out.push((len / 256) as u8);
    out.push((complement % 256) as u8);
    out.push((complement / 256) as u8);
    assert(out@ =~= before + stored_head(last, len as int));
}

/// Puts the data into stored blocks.
pub fn deflate_stored(data: &[u8]) -> (out: Vec<u8>)
    ensures
        out@ == stored_blocks(data@),
{
    let mut out: Vec<u8> = Vec::new();
    let mut offset: usize = 0;
    let n: usize = data.len();
    assert(data@.skip(0) =~= data@);
    assert(out@ + stored_blocks(data@) =~= stored_blocks(data@));
    while n - offset > MAX_STORED
        invariant
            n == data.len(),
            offset <= n,
            out@ + stored_blocks(data@.skip(offset as int)) == stored_blocks(data@),
        decreases n - offset,
    {
        let ghost before = out@;
        let ghost rest = data@.skip(offset as int);
        push_stored_head(&mut out, false, MAX_STORED);
        let block: &[u8] = vstd::slice::slice_subrange(data, offset, offset + MAX_STORED);
        push_bytes(&mut out, block);
        proof {
            assert(block@ =~= rest.subrange(0, MAX_STORED as int));
            assert(rest.skip(MAX_STORED as int) =~= data@.skip(offset + MAX_STORED));
            assert(out@ + stored_blocks(data@.skip(offset + MAX_STORED)) =~= before
                + stored_blocks(rest));
        }
        offset = offset + MAX_STORED;
    }
    let ghost before = out@;
    push_stored_head(&mut out, true, n - offset);
    let block: &[u8] = vstd::slice::slice_subrange(data, offset, n);
    push_bytes(&mut out, block);
    assert(block@ =~= data@.skip(offset as int));
    assert(out@ =~= before + stored_blocks(data@.skip(offset as int)));
    out
}

/// What stored blocks hold, read block by block up to the last one.
pub open spec fn inflated(s: Seq<u8>) -> Seq<u8>
    decreases s.len(),
{
    if s.len() < 5 {
        Seq::empty()
    } else {
        let len = s[1] + 256 * s[2];
        if s.len() < 5 + len {
            Seq::empty()
        } else if s[0] % 2 == 1 {
            s.subrange(5, 5 + len)
        } else {
            s.subrange(5, 5 + len) + inflated(s.skip(5 + len))
        }
    }
}

/// What is put into stored blocks is read back.
pub proof fn lemma_stored_blocks_inflate(data: Seq<u8>, tail: Seq<u8>)
    ensures
        inflated(stored_blocks(data) + tail) == data,
    decreases data.len(),
{
    let s = stored_blocks(data) + tail;
    if data.len() <= MAX_STORED {
        let head = stored_head(true, data.len() as int);
        assert(s =~= head + data + tail);
        assert(s[1] == head[1] && s[2] == head[2] && s[0] == head[0]);
        assert(s.subrange(5, (5 + data.len()) as int) =~= data);
    } else {
        let m = MAX_STORED as int;
        let head = stored_head(false, m);
        let rest = data.skip(m);
        assert(s =~= head + data.subrange(0, m) + (stored_blocks(rest) + tail));
        assert(s[1] == head[1] && s[2] == head[2] && s[0] == head[0]);
        assert(s.subrange(5, 5 + m) =~= data.subrange(0, m));
        assert(s.skip(5 + m) =~= stored_blocks(rest) + tail);
        lemma_stored_blocks_inflate(rest, tail);
        assert(data.subrange(0, m) + rest =~= data);
    }
}

/// A zlib stream of stored blocks: the head, the blocks and the checksum.
pub open spec fn zlib_stream(data: Seq<u8>) -> Seq<u8> {
    seq![0x78u8, 0x01u8] + stored_blocks(data) + be32_bytes(spec_adler32(data))
}

/// Puts the data into a zlib stream.
pub fn zlib_compress_stored(data: &[u8]) -> (out: Vec<u8>)
    ensures
        out@ == zlib_stream(data@),
{
    let mut out: Vec<u8> = Vec::new();
    out.push(0x78);
    out.push(0x01);
    assert(out@ =~= seq![0x78u8, 0x01u8]);
    let blocks: Vec<u8> = deflate_stored(data);
    push_bytes(&mut out, blocks.as_slice());
    push_be32(&mut out, adler32(data));
    out
}

// ---------------------------------------------------------------------------
// The file.
// ---------------------------------------------------------------------------

/// A chunk: the length of its data, its type, the data, and the check of type
/// and data.
pub open spec fn chunk(kind: Seq<u8>, data: Seq<u8>) -> Seq<u8> {
    be32_bytes(data.len() as int) + (kind + data) + be32_bytes(spec_crc32(kind + data) as int)
}

fn write_chunk(out: &mut Vec<u8>, kind: &[u8; 4], data: &[u8])
    requires
        data.len() <= u32::MAX,
    ensures
        final(out)@ == old(out)@ + chunk(kind@, data@),
{
    let ghost before = out@;
    let mut checked: Vec<u8> = Vec::new();
    push_bytes(&mut checked, kind.as_slice());
    push_bytes(&mut checked, data);
    assert(checked@ =~= kind@ + data@);
    push_be32(out, data.len() as u32);
    push_bytes(out, checked.as_slice());
    push_be32(out, crc32(checked.as_slice()));
    assert(out@ =~= before + chunk(kind@, data@));
}

/// The picture line by line, each after a byte that says that it is not
/// filtered.
pub open spec fn scanlines(rgb: Seq<u8>, line: int, n: nat) -> Seq<u8>
    decreases n,
{
    if n == 0 {
        Seq::empty()
    } else {
        scanlines(rgb, line, (n - 1) as nat) + (seq![0u8] + rgb.subrange(
            (n - 1) * line,
            n * line,
        ))
    }
}

/// The header of a picture: its size, eight bits per channel, three channels.
pub open spec fn picture_header(width: u32, height: u32) -> Seq<u8> {
    be32_bytes(width as int) + be32_bytes(height as int) + seq![8u8, 2u8, 0u8, 0u8, 0u8]
}

/// A PNG file.
pub open spec fn png_file(width: u32, height: u32, rgb: Seq<u8>) -> Seq<u8> {
    PNG_SIGNATURE@ + chunk(seq![73u8, 72u8, 68u8, 82u8], picture_header(width, height)) + chunk(
        seq![73u8, 68u8, 65u8, 84u8],
        zlib_stream(scanlines(rgb, 3 * width, height as nat)),
    ) + chunk(seq![73u8, 69u8, 78u8, 68u8], Seq::empty())
}

/// The data of a picture is short enough for one chunk.
pub open spec fn picture_fits(width: u32, height: u32) -> bool {
    zlib_len((3 * width + 1) * height) <= u32::MAX
}

/// Length of a zlib stream of `n` bytes.
pub open spec fn zlib_len(n: int) -> int {
    if n <= MAX_STORED {
        n + 11
    } else {
        n + 5 * ((n - 1) / (MAX_STORED as int)) + 11
    }
}

proof fn lemma_stored_len(data: Seq<u8>)
    ensures
        stored_blocks(data).len() + 6 == zlib_len(data.len() as int),
    decreases data.len(),
{
    if data.len() > MAX_STORED {
        lemma_stored_len(data.skip(MAX_STORED as int));
    }
}

proof fn lemma_scanlines_len(rgb: Seq<u8>, line: int, n: nat)
    requires
        0 <= line,
        n * line <= rgb.len(),
    ensures
        scanlines(rgb, line, n).len() == (line + 1) * n,
    decreases n,
{
    if n > 0 {
        assert(0 <= (n - 1) * line <= n * line) by (nonlinear_arith)
            requires
                0 <= line,
                1 <= n,
        ;
        lemma_scanlines_len(rgb, line, (n - 1) as nat);
        assert(n * line - (n - 1) * line == line) by (nonlinear_arith);
        assert((line + 1) * (n - 1) + line + 1 == (line + 1) * n) by (nonlinear_arith);
    } else {
        assert((line + 1) * 0 == 0);
    }
}

/// Makes a PNG file of a picture whose samples are given line by line.
pub fn encode_png(width: u32, height: u32, rgb: &[u8]) -> (out: Vec<u8>)
    requires
        rgb.len() == width * height * 3,
        picture_fits(width, height),
    ensures
        out@ == png_file(width, height, rgb@),
{
    let w: usize = width as usize;
    let h: usize = height as usize;
    proof {
        assert(h * (3 * w) == w * h * 3) by (nonlinear_arith);
        if h > 0 {
            assert(3 * w <= h * (3 * w)) by (nonlinear_arith)
                requires
                    1 <= h,
                    0 <= w,
            ;
        }
    }
    let mut raw: Vec<u8> = Vec::new();
    if h > 0 {
        let line: usize = 3 * w;
        assert(0 * line == 0);
        for row in 0..h
            invariant
                h > 0,
                line == 3 * w,
                rgb.len() == h * line,
                raw@ == scanlines(rgb@, line as int, row as nat),
        {
            proof {
                assert((row + 1) * line <= h * line) by (nonlinear_arith)
                    requires
                        row + 1 <= h,
                        0 <= line,
                ;
                assert((row + 1) * line == row * line + line) by (nonlinear_arith);
                assert(0 <= row * line) by (nonlinear_arith)
                    requires
                        0 <= row,
                        0 <= line,
                ;
            }
            let ghost before = raw@;
            raw.push(0);
            let part: &[u8] = vstd::slice::slice_subrange(rgb, row * line, row * line + line);
            push_bytes(&mut raw, part);
            assert(raw@ =~= before + (seq![0u8] + part@));
        }
    }
    let mut header: Vec<u8> = Vec::new();
    push_be32(&mut header, width);
    push_be32(&mut header, height);
    header.push(8);
    header.push(2);
    header.push(0);
    header.push(0);
    header.push(0);
    assert(header@ =~= picture_header(width, height));
    let data: Vec<u8> = zlib_compress_stored(raw.as_slice());
    proof {
        lemma_scanlines_len(rgb@, 3 * width, height as nat);
        lemma_stored_len(raw@);
    }
    let mut out: Vec<u8> = Vec::new();
    push_bytes(&mut out, PNG_SIGNATURE.as_slice());
    let ihdr: [u8; 4] = [73, 72, 68, 82];
    let idat: [u8; 4] = [73, 68, 65, 84];
    let iend: [u8; 4] = [73, 69, 78, 68];
    let nothing: Vec<u8> = Vec::new();
    write_chunk(&mut out, &ihdr, header.as_slice());
    write_chunk(&mut out, &idat, data.as_slice());
    write_chunk(&mut out, &iend, nothing.as_slice());
    proof {
        assert(ihdr@ =~= seq![73u8, 72u8, 68u8, 82u8]);
        assert(idat@ =~= seq![73u8, 68u8, 65u8, 84u8]);
        assert(iend@ =~= seq![73u8, 69u8, 78u8, 68u8]);
        assert(nothing@ =~= Seq::<u8>::empty());
        assert(Seq::<u8>::empty() + PNG_SIGNATURE@ =~= PNG_SIGNATURE@);
        assert(out@ =~= png_file(width, height, rgb@));
    }
    out
}

/// The bytes added up.
pub open spec fn byte_sum(data: Seq<u8>) -> int
    decreases data.len(),
{
    if data.len() == 0 {
        0
    } else {
        byte_sum(data.drop_last()) + data.last()
    }
}

/// The bytes added up, each as often as there are bytes from it on.
pub open spec fn weighed_byte_sum(data: Seq<u8>) -> int
    decreases data.len(),
{
    if data.len() == 0 {
        0
    } else {
        weighed_byte_sum(data.drop_last()) + byte_sum(data)
    }
}

/// The checksum holds two sums modulo 65521: one and all bytes, in its low half, and in
/// its high half the number of bytes and each byte as often as there are bytes from it
/// on.
pub proof fn lemma_adler_sums(data: Seq<u8>)
    ensures
        spec_adler32(data) % 65536 == (1 + byte_sum(data)) % 65521,
        spec_adler32(data) / 65536 == (data.len() + weighed_byte_sum(data)) % 65521,
{
    lemma_adler_halves(data);
}

proof fn lemma_adler_halves(data: Seq<u8>)
    ensures
        adler_low(data) == (1 + byte_sum(data)) % 65521,
        adler_high(data) == (data.len() + weighed_byte_sum(data)) % 65521,
    decreases data.len(),
{
    if data.len() > 0 {
        lemma_adler_halves(data.drop_last());
        let a = 1 + byte_sum(data.drop_last());
        let b = data.drop_last().len() + weighed_byte_sum(data.drop_last());
        let v = data.last() as int;
        assert((a % 65521 + v) % 65521 == (a + v) % 65521);
        let c = 1 + byte_sum(data);
        assert((b % 65521 + c % 65521) % 65521 == (b + c) % 65521);
    }
}

proof fn lemma_be32_value(v: int)
    requires
        0 <= v <= u32::MAX,
    ensures
        be32_bytes(v).len() == 4,
        v == 0x100_0000 * be32_bytes(v)[0] + 0x1_0000 * be32_bytes(v)[1] + 0x100 * be32_bytes(v)[2]
            + be32_bytes(v)[3],
{
}

/// A chunk holds the length of its data, four bytes of type, the data, and the check of
/// all between the length and it.
pub proof fn lemma_chunk_layout(kind: Seq<u8>, data: Seq<u8>)
    requires
        kind.len() == 4,
        data.len() <= u32::MAX,
    ensures
        ({
            let c = chunk(kind, data);
            let n = data.len() as int;
            let check = spec_crc32(c.subrange(4, 8 + n)) as int;
            &&& c.len() == 12 + n
            &&& n == 0x100_0000 * c[0] + 0x1_0000 * c[1] + 0x100 * c[2] + c[3]
            &&& c.subrange(4, 8) == kind
            &&& c.subrange(8, 8 + n) == data
            &&& check == 0x100_0000 * c[8 + n] + 0x1_0000 * c[9 + n] + 0x100 * c[10 + n] + c[11 + n]
        }),
{
    let c = chunk(kind, data);
    let n = data.len() as int;
    let body = kind + data;
    let len = be32_bytes(n);
    let check = be32_bytes(spec_crc32(body) as int);
    assert(c == len + body + check);
    assert(c.subrange(4, 8 + n) =~= body);
    assert(c.subrange(4, 8) =~= kind);
    assert(c.subrange(8, 8 + n) =~= data);
    lemma_be32_value(n);
    lemma_be32_value(spec_crc32(body) as int);
    assert(c[0] == len[0] && c[1] == len[1] && c[2] == len[2] && c[3] == len[3]);
    assert(c[8 + n] == check[0] && c[9 + n] == check[1] && c[10 + n] == check[2] && c[11 + n]
        == check[3]);
}

/// The samples of a picture are stored line by line, each behind a byte that says that
/// they are stored as they are.
pub proof fn lemma_lines(rgb: Seq<u8>, line: int, n: nat, y: int, x: int)
    requires
        0 <= line,
        rgb.len() == n * line,
        0 <= y < n,
        0 <= x < line,
    ensures
        scanlines(rgb, line, n).len() == n * (line + 1),
        scanlines(rgb, line, n)[y * (line + 1)] == 0,
        scanlines(rgb, line, n)[y * (line + 1) + 1 + x] == rgb[y * line + x],
{
    lemma_lines_up_to(rgb, line, n, n, y, x);
}

proof fn lemma_lines_up_to(rgb: Seq<u8>, line: int, n: nat, k: nat, y: int, x: int)
    requires
        0 <= line,
        rgb.len() == n * line,
        k <= n,
        0 <= y,
        0 <= x < line,
    ensures
        scanlines(rgb, line, k).len() == k * (line + 1),
        y < k ==> scanlines(rgb, line, k)[y * (line + 1)] == 0,
        y < k ==> scanlines(rgb, line, k)[y * (line + 1) + 1 + x] == rgb[y * line + x],
    decreases k,
{
    if k > 0 {
        lemma_lines_up_to(rgb, line, n, (k - 1) as nat, y, x);
        let head = scanlines(rgb, line, (k - 1) as nat);
        assert((k - 1) * (line + 1) + line + 1 == k * (line + 1)) by (nonlinear_arith);
        assert(0 <= (k - 1) * line && k * line == (k - 1) * line + line) by (nonlinear_arith)
            requires
                k >= 1,
                line >= 0,
        ;
        assert(k * line <= n * line) by (nonlinear_arith)
            requires
                k <= n,
                line >= 0,
        ;
        let row = seq![0u8] + rgb.subrange((k - 1) * line, k * line);
        assert(row.len() == line + 1);
        assert(0 <= y * (line + 1)) by (nonlinear_arith)
            requires
                0 <= y,
                0 <= line,
        ;
        if y < k - 1 {
            assert(y * (line + 1) + line + 1 <= (k - 1) * (line + 1)) by (nonlinear_arith)
                requires
                    y + 1 <= k - 1,
                    0 <= line,
            ;
        }
    } else {
        assert(0 * (line + 1) == 0);
    }
}

} // verus!
