//! The ffmpeg program that ships with the converter, compressed with xz.

use vstd::prelude::*;

verus! {

#[verifier::external_type_specification]
#[verifier::external_body]
pub struct ExXzError(lzma_rs::error::Error);

/// The bytes that xz-compressed data decompresses to, or nothing when
/// lzma-rs rejects the data.
pub uninterp spec fn xz_decoded(archive: Seq<u8>) -> Option<Seq<u8>>;

/// How many bytes lzma-rs's LZMA2 decoder reads from the front of `data`
/// before it returns at the stream's end marker, or nothing when it fails.
pub uninterp spec fn lzma2_consumption(data: Seq<u8>) -> Option<usize>;

/// `n` rounded up to the next multiple of 4.
pub open spec fn padded4(n: int) -> int {
    n + (4 - n % 4) % 4
}

/// The length of the xz variable-length integer at `at`, read from its
/// `k`-th byte on: it ends with the first byte below 0x80 and has at most
/// nine bytes; nothing when the data ends first or nine bytes go by.
pub open spec fn varint_length_from(a: Seq<u8>, at: int, k: int) -> Option<int>
    decreases 9 - k,
{
    if k < 0 || k >= 9 || at < 0 || at + k >= a.len() {
        None
    } else if a[at + k] < 0x80 {
        Some(k + 1)
    } else {
        varint_length_from(a, at, k + 1)
    }
}

/// The length of the xz variable-length integer that starts at `at`.
pub open spec fn varint_length(a: Seq<u8>, at: int) -> Option<int> {
    varint_length_from(a, at, 0)
}

/// Where `n` variable-length integers in a row, the first at `at`, end.
pub open spec fn skip_varints(a: Seq<u8>, at: int, n: nat) -> Option<int>
    decreases n,
{
    if n == 0 {
        Some(at)
    } else {
        match varint_length(a, at) {
            Some(l) => skip_varints(a, at + l, (n - 1) as nat),
            None => None,
        }
    }
}

/// For an index that starts at `s` after `blocks` blocks: where the
/// footer's backward size is read, if the data reaches that far. The index
/// is its zero indicator, the record count and two sizes per block, padding
/// to a multiple of 4 and a CRC32; the footer then opens with its CRC32.
pub open spec fn size_field_after_index(a: Seq<u8>, s: int, blocks: nat) -> Option<int> {
    match skip_varints(a, s + 1, 2 * blocks + 1) {
        Some(end) => {
            let p = s + padded4(end - s) + 8;
            if p + 4 <= a.len() {
                Some(p)
            } else {
                None
            }
        },
        None => None,
    }
}

/// The stream's check ids that lzma-rs knows.
pub open spec fn known_check(id: u8) -> bool {
    id == 0x00 || id == 0x01 || id == 0x04 || id == 0x0A
}

/// The length of the check that ends each block, for the check ids whose
/// blocks lzma-rs decodes (none, CRC32, CRC64); SHA-256 blocks it refuses.
pub open spec fn check_length(id: u8) -> Option<int> {
    if id == 0x00 {
        Some(0)
    } else if id == 0x01 {
        Some(4)
    } else if id == 0x04 {
        Some(8)
    } else {
        None
    }
}

/// From the block that starts at `at`, after `blocks` blocks: where the
/// footer's backward size is read. A block is its header (`4 * a[at]`
/// bytes, size byte included) and the header's CRC32, the LZMA2 data as far
/// as the decoder reads it, padding to a multiple of 4, and the check. A
/// zero where a block would start opens the index.
pub open spec fn size_field_from_block(a: Seq<u8>, at: int, blocks: nat, id: u8) -> Option<int>
    decreases a.len() - at,
{
    if at < 0 || at >= a.len() {
        None
    } else if a[at] == 0 {
        size_field_after_index(a, at, blocks)
    } else {
        let d = at + 4 * a[at] + 4;
        match (check_length(id), if d <= a.len() { lzma2_consumption(a.subrange(d, a.len() as int)) } else { None }) {
            (Some(k), Some(c)) => {
                let next = d + padded4(c as int) + k;
                if next <= a.len() {
                    size_field_from_block(a, next, blocks + 1, id)
                } else {
                    None
                }
            },
            _ => None,
        }
    }
}

/// The xz stream header's magic bytes.
pub open spec fn has_xz_magic(a: Seq<u8>) -> bool {
    a.len() >= 6 && a[0] == 0xFD && a[1] == 0x37 && a[2] == 0x7A && a[3] == 0x58 && a[4] == 0x5A && a[5] == 0x00
}

/// Where lzma-rs reads the footer's backward size (four bytes, little
/// endian) when it decodes `a`, if it gets that far. The stream header is
/// the magic, two flag bytes (the first zero, the second the check id) and
/// a CRC32; blocks follow it. The CRC32 values and the sizes that the index
/// and block headers record are taken to match: where they do not, lzma-rs
/// stops with an error before the footer.
pub open spec fn size_field_position(a: Seq<u8>) -> Option<int> {
    if a.len() < 12 || !has_xz_magic(a) || a[6] != 0 || !known_check(a[7]) {
        None
    } else {
        size_field_from_block(a, 12, 0, a[7])
    }
}

/// Whether the footer's backward size, where lzma-rs reads it, is
/// 0xFFFFFFFF.
pub open spec fn size_field_saturated(a: Seq<u8>) -> bool {
    match size_field_position(a) {
        Some(p) => a[p] == 0xFF && a[p + 1] == 0xFF && a[p + 2] == 0xFF && a[p + 3] == 0xFF,
        None => false,
    }
}

/// lzma-rs `lzma2_decompress` on `data`, for how many bytes it reads: the
/// named `lzma2_consumption` of the data. The xz decoder decodes each
/// block's data with the same LZMA2 decoder reading the same bytes, so this
/// is where, in an archive, the data of a block ends for lzma-rs.
#[verifier::external_body]
fn lzma2_read_length(data: &[u8]) -> (read: Option<usize>)
    ensures
        read == lzma2_consumption(data@),
{
    let mut input = std::io::Cursor::new(data);
    match lzma_rs::lzma2_decompress(&mut input, &mut std::io::sink()) {
        Ok(()) => Some(input.position() as usize),
        Err(_) => None,
    }
}

/// lzma-rs `xz_decompress` from memory into memory: the output is the
/// named `xz_decoded` of the input, and an error comes exactly when that
/// names nothing. After the index, lzma-rs computes
/// `(backward_size + 1) << 2` from the footer's size field without guarding
/// the addition, which overflows (and panics where overflow is checked)
/// when the field is 0xFFFFFFFF; `size_field_position` is where that field
/// is read, so the inputs on which it is all ones are left out.
#[verifier::external_body]
fn xz_decompress(archive: &[u8]) -> (out: Result<Vec<u8>, lzma_rs::error::Error>)
    requires
        !size_field_saturated(archive@),
    ensures
        match out {
            Ok(bytes) => xz_decoded(archive@) == Some(bytes@),
            Err(_) => xz_decoded(archive@) is None,
        },
{
    let mut out: Vec<u8> = Vec::new();
    lzma_rs::xz_decompress(&mut std::io::Cursor::new(archive), &mut out).map(|_| out)
}

/// Why the shipped ffmpeg could not be unpacked.
#[derive(Debug, Clone, Copy, PartialEq, Eq, Structural)]
pub enum UnpackError {
    /// The archive could not be decompressed.
    CorruptArchive,
    /// The footer's backward size, where the decompressor reads it, is
    /// 0xFFFFFFFF, a value it cannot take; such archives are refused unread.
    SaturatedFooterSize,
}

fn varint_length_at(a: &[u8], at: usize) -> (len: Option<usize>)
    ensures
        match len {
            Some(l) => varint_length(a@, at as int) == Some(l as int) && at + l <= a@.len(),
            None => varint_length(a@, at as int) is None,
        },
{
    let mut k: usize = 0;
    while k < 9
        invariant
            k <= 9,
            varint_length(a@, at as int) == varint_length_from(a@, at as int, k as int),
        decreases 9 - k,
    {
        if at >= a.len() || k >= a.len() - at {
            return None;
        }
        if a[at + k] < 0x80 {
            return Some(k + 1);
        }
        k = k + 1;
    }
    None
}

fn skip_varints_at(a: &[u8], at: usize, n: usize) -> (end: Option<usize>)
    requires
        at <= a@.len(),
    ensures
        match end {
            Some(e) => skip_varints(a@, at as int, n as nat) == Some(e as int) && e <= a@.len(),
            None => skip_varints(a@, at as int, n as nat) is None,
        },
{
    let len = a.len();
    let mut pos: usize = at;
    let mut i: usize = 0;
    while i < n
        invariant
            len == a@.len(),
            i <= n,
            pos <= a@.len(),
            skip_varints(a@, at as int, n as nat) == skip_varints(a@, pos as int, (n - i) as nat),
        decreases n - i,
    {
        match varint_length_at(a, pos) {
            Some(l) => {
                pos = pos + l;
            },
            None => {
                return None;
            },
        }
        i = i + 1;
    }
    Some(pos)
}

fn size_field_after_index_at(a: &[u8], s: usize, blocks: usize) -> (p: Option<usize>)
    requires
        s < a@.len(),
        8 * blocks <= s,
    ensures
        match p {
            Some(q) => size_field_after_index(a@, s as int, blocks as nat) == Some(q as int) && q + 4
                <= a@.len(),
            None => size_field_after_index(a@, s as int, blocks as nat) is None,
        },
{
    let len = a.len();
    match skip_varints_at(a, s + 1, 2 * blocks + 1) {
        Some(end) => {
            assert(end >= s + 1) by {
                lemma_skip_varints_advances(a@, s + 1, (2 * blocks + 1) as nat);
            }
            let total = end - s;
            let pad = (4 - total % 4) % 4;
            let room = a.len() - s;
            if room - total >= pad + 12 {
                Some(s + total + pad + 8)
            } else {
                None
            }
        },
        None => None,
    }
}

proof fn lemma_skip_varints_advances(a: Seq<u8>, at: int, n: nat)
    ensures
        skip_varints(a, at, n) matches Some(e) ==> e >= at,
    decreases n,
{
    if n > 0 {
        if let Some(l) = varint_length(a, at) {
            lemma_varint_length_positive(a, at, 0);
            lemma_skip_varints_advances(a, at + l, (n - 1) as nat);
        }
    }
}

proof fn lemma_varint_length_positive(a: Seq<u8>, at: int, k: int)
    ensures
        varint_length_from(a, at, k) matches Some(l) ==> l >= 1,
    decreases 9 - k,
{
    if !(k < 0 || k >= 9 || at < 0 || at + k >= a.len()) && a[at + k] >= 0x80 {
        lemma_varint_length_positive(a, at, k + 1);
    }
}

/// Where lzma-rs reads the footer's backward size when it decodes
/// `archive`, if it gets that far (see `size_field_position`).
pub fn footer_size_offset(archive: &[u8]) -> (p: Option<usize>)
    ensures
        match p {
            Some(q) => size_field_position(archive@) == Some(q as int) && q + 4 <= archive@.len(),
            None => size_field_position(archive@) is None,
        },
{
    if archive.len() < 12 || !(archive[0] == 0xFD && archive[1] == 0x37 && archive[2] == 0x7A && archive[3]
        == 0x58 && archive[4] == 0x5A && archive[5] == 0x00) || archive[6] != 0 {
        return None;
    }
    let id = archive[7];
    if !(id == 0x00 || id == 0x01 || id == 0x04 || id == 0x0A) {
        return None;
    }
    let check: Option<usize> = if id == 0x00 {
        Some(0)
    } else if id == 0x01 {
        Some(4)
    } else if id == 0x04 {
        Some(8)
    } else {
        None
    };
    let n = archive.len();
    let mut at: usize = 12;
    let mut blocks: usize = 0;
    loop
        invariant
            n == archive@.len(),
            12 <= at <= n,
            8 * blocks + 12 <= at,
            size_field_position(archive@) == size_field_from_block(archive@, at as int, blocks as nat, id),
            match check {
                Some(k) => check_length(id) == Some(k as int) && k <= 8,
                None => check_length(id) is None,
            },
        decreases n - at,
    {
        if at >= n {
            return None;
        }
        let hs = archive[at];
        if hs == 0 {
            return size_field_after_index_at(archive, at, blocks);
        }
        let k = match check {
            Some(k) => k,
            None => {
                return None;
            },
        };
        let header = 4 * (hs as usize) + 4;
        if header > n - at {
            return None;
        }
        let d = at + header;
        let c = match lzma2_read_length(vstd::slice::slice_subrange(archive, d, n)) {
            Some(c) => c,
            None => {
                return None;
            },
        };
        if c > n - d {
            return None;
        }
        let pad = (4 - c % 4) % 4;
        if pad + k > n - d - c {
            return None;
        }
        at = d + c + pad + k;
        blocks = blocks + 1;
    }
}

/// The ffmpeg executable held in the xz `archive`. An archive whose
/// footer's backward size, where the decompressor reads it, is 0xFFFFFFFF
/// is refused before decompression.
pub fn unpack_ffmpeg(archive: &[u8]) -> (program: Result<Vec<u8>, UnpackError>)
    ensures
        size_field_saturated(archive@) ==> program == Err::<Vec<u8>, UnpackError>(
            UnpackError::SaturatedFooterSize,
        ),
        !size_field_saturated(archive@) ==> match program {
            Ok(bytes) => xz_decoded(archive@) == Some(bytes@),
            Err(e) => e == UnpackError::CorruptArchive && xz_decoded(archive@) is None,
        },
{
    if let Some(p) = footer_size_offset(archive) {
        if archive[p] == 0xFF && archive[p + 1] == 0xFF && archive[p + 2] == 0xFF && archive[p + 3] == 0xFF {
            return Err(UnpackError::SaturatedFooterSize);
        }
    }
    match xz_decompress(archive) {
        Ok(bytes) => Ok(bytes),
        Err(_) => Err(UnpackError::CorruptArchive),
    }
}

} // verus!
