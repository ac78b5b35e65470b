//! PNG loading: the chunk layout, the zlib-compressed image data and the
//! per-scanline filters, for 8-bit RGB and RGBA images without interlacing.
use vstd::prelude::*;

use crate::inflate::{decompress_zlib, zlib_spec, DecompressResult};

verus! {

/// The 8 bytes every PNG file starts with.
pub open spec fn png_signature() -> Seq<u8> {
    seq![0x89u8, 0x50, 0x4e, 0x47, 0x0d, 0x0a, 0x1a, 0x0a]
}

/// The big-endian `u32` at byte `i`.
pub open spec fn be_u32(s: Seq<u8>, i: int) -> nat {
    s[i] as nat * 0x100_0000 + s[i + 1] as nat * 0x1_0000 + s[i + 2] as nat * 0x100 + s[i
        + 3] as nat
}

/// The 4-byte chunk type at byte `i`.
pub open spec fn chunk_type(s: Seq<u8>, i: int) -> Seq<u8> {
    s.subrange(i, i + 4)
}

pub open spec fn ihdr() -> Seq<u8> {
    seq![0x49u8, 0x48, 0x44, 0x52]
}

pub open spec fn idat() -> Seq<u8> {
    seq![0x49u8, 0x44, 0x41, 0x54]
}

pub open spec fn iend() -> Seq<u8> {
    seq![0x49u8, 0x45, 0x4e, 0x44]
}

/// What the chunks yield: width, height, whether pixels carry alpha, and the
/// concatenated image data.
pub struct ChunkInfo {
    pub width: u32,
    pub height: u32,
    pub alpha: bool,
    pub data: Vec<u8>,
}

/// The chunks from byte `c` on, up to the `IEND` chunk, given what the chunks
/// before them set. `None` when the file ends inside a chunk, or the header is
/// not one of 8-bit RGB or RGBA, deflate-compressed, filter method 0, not
/// interlaced.
pub open spec fn chunks_spec(
    s: Seq<u8>,
    c: int,
    width: u32,
    height: u32,
    alpha: bool,
    data: Seq<u8>,
) -> Option<(u32, u32, bool, Seq<u8>)>
    decreases s.len() - c,
{
    if c < 0 || c + 8 > s.len() {
        None
    } else if chunk_type(s, c + 4) == iend() {
        Some((width, height, alpha, data))
    } else {
        let len = be_u32(s, c);
        let d = c + 8;
        let next = d + len + 4;
        if next > s.len() {
            None
        } else if chunk_type(s, c + 4) == ihdr() {
            if len != 13 || s[d + 8] != 8 || s[d + 10] != 0 || s[d + 11] != 0 || s[d + 12] != 0 {
                None
            } else if s[d + 9] != 2 && s[d + 9] != 6 {
                None
            } else {
                chunks_spec(s, next, be_u32(s, d) as u32, be_u32(s, d + 4) as u32, s[d + 9] == 6, data)
            }
        } else if chunk_type(s, c + 4) == idat() {
            chunks_spec(s, next, width, height, alpha, data + s.subrange(d, d + len))
        } else {
            chunks_spec(s, next, width, height, alpha, data)
        }
    }
}

/// The Paeth predictor: of `a` (left), `b` (up) and `c` (up-left), the one
/// closest to `a + b - c`, ties going to `a`, then `b`.
pub open spec fn paeth(a: u8, b: u8, c: u8) -> u8 {
    let p = a + b - c;
    let pa = if p >= a { p - a } else { a - p };
    let pb = if p >= b { p - b } else { b - p };
    let pc = if p >= c { p - c } else { c - p };
    if pa <= pb && pa <= pc {
        a
    } else if pb <= pc {
        b
    } else {
        c
    }
}

/// Byte `i` of the unfiltered image, whose rows hold `row` bytes and whose
/// pixels `px` bytes; filtered row `y` is a filter byte followed by `row`
/// bytes in `f`. Neighbours outside the image count as 0.
pub open spec fn recon(f: Seq<u8>, row: int, px: int, i: int) -> u8
    decreases i,
{
    if row <= 0 || px <= 0 || i < 0 {
        0
    } else {
        let y = i / row;
        let x = i % row;
        let raw = f[y * (row + 1) + 1 + x];
        let a = if x >= px && px <= i {
            recon(f, row, px, i - px)
        } else {
            0
        };
        let b = if y >= 1 && row <= i {
            recon(f, row, px, i - row)
        } else {
            0
        };
        let c = if x >= px && y >= 1 && row + px <= i {
            recon(f, row, px, i - row - px)
        } else {
            0
        };
        let filter = f[y * (row + 1)];
        let pred: int = if filter == 1 {
            a as int
        } else if filter == 2 {
            b as int
        } else if filter == 3 {
            (a + b) / 2
        } else if filter == 4 {
            paeth(a, b, c) as int
        } else {
            0
        };
        ((raw + pred) % 256) as u8
    }
}

/// Every row of the filtered data uses one of the five filter types.
pub open spec fn filters_ok(f: Seq<u8>, row: int, height: int) -> bool {
    forall|y: int| 0 <= y < height ==> #[trigger] f[y * (row + 1)] <= 4
}

/// RGB pixels widened to RGBA with an opaque alpha byte.
pub open spec fn with_alpha(rgb: Seq<u8>, n: nat) -> Seq<u8> {
    Seq::new(4 * n, |i: int| if i % 4 == 3 { 255u8 } else { rgb[i - i / 4] })
}

/// An image as 8-bit RGBA pixels, row by row.
#[derive(Clone, Debug)]
pub struct Image {
    pub width: u32,
    pub height: u32,
    pub raw: Vec<u8>,
}

/// Relies on `format!`: the message for a color type that is not supported;
/// `Display` writes an unsigned integer in decimal.
#[verifier::external_body]
fn color_space_message(color_space: u8) -> (r: String)
    ensures
        r@ == "Color space "@ + decimal(color_space as nat) + " not supported"@,
{
    format!("Color space {color_space} not supported")
}

/// The decimal digit `d`.
pub open spec fn digit_char(d: nat) -> char {
    if d == 0 {
        '0'
    } else if d == 1 {
        '1'
    } else if d == 2 {
        '2'
    } else if d == 3 {
        '3'
    } else if d == 4 {
        '4'
    } else if d == 5 {
        '5'
    } else if d == 6 {
        '6'
    } else if d == 7 {
        '7'
    } else if d == 8 {
        '8'
    } else {
        '9'
    }
}

/// `n` written in decimal, without leading zeros.
pub open spec fn decimal(n: nat) -> Seq<char>
    decreases n,
{
    if n < 10 {
        seq![digit_char(n)]
    } else {
        decimal(n / 10).push(digit_char(n % 10))
    }
}

/// The message for filter type `filter`, unknown, on row `y`.
pub open spec fn filter_text(filter: u8, y: nat) -> Seq<char> {
    "Unsupported filter "@ + decimal(filter as nat) + " at row "@ + decimal(y)
}

/// Relies on `format!`: `Display` writes an unsigned integer in decimal.
#[verifier::external_body]
fn filter_message(filter: u8, y: usize) -> (r: String)
    ensures
        r@ == filter_text(filter, y as nat),
{
    format!("Unsupported filter {filter} at row {y}")
}

/// The first row from `y` on, below `height`, whose filter type is unknown;
/// `height` when there is none.
pub open spec fn first_bad_row(f: Seq<u8>, row: int, y: int, height: int) -> int
    decreases height - y,
{
    if y >= height {
        height
    } else if f[y * (row + 1)] > 4 {
        y
    } else {
        first_bad_row(f, row, y + 1, height)
    }
}

/// The decompressed image data is long enough for `w` by `h` pixels, and the
/// RGBA result fits in memory.
pub open spec fn pixel_sizes_ok(f: Seq<u8>, w: u32, h: u32, alpha: bool) -> bool {
    let row = w * if alpha {
        4int
    } else {
        3int
    };
    f.len() >= h * (row + 1) && 4 * (w * h) <= usize::MAX
}

/// The message when a row of the image data has an unknown filter type: the
/// first such row.
pub open spec fn filter_failure(f: Seq<u8>, w: u32, h: u32, alpha: bool) -> Seq<char> {
    let row = w * if alpha {
        4int
    } else {
        3int
    };
    let y = first_bad_row(f, row, 0, h as int);
    filter_text(f[y * (row + 1)], y as nat)
}

/// Reads the big-endian `u32` at byte `i`.
fn read_u32_be(s: &[u8], i: usize) -> (r: u32)
    requires
        i + 4 <= s@.len(),
    ensures
        r == be_u32(s@, i as int),
{
    (s[i] as u32) * 0x100_0000 + (s[i + 1] as u32) * 0x1_0000 + (s[i + 2] as u32) * 0x100 + (s[i
        + 3] as u32)
}

/// Whether the 4 bytes at `i` are `t`.
fn type_is(s: &[u8], i: usize, t: [u8; 4]) -> (r: bool)
    requires
        i + 4 <= s@.len(),
    ensures
        r == (chunk_type(s@, i as int) == t@),
{
    let r = s[i] == t[0] && s[i + 1] == t[1] && s[i + 2] == t[2] && s[i + 3] == t[3];
    if r {
        assert(chunk_type(s@, i as int) =~= t@);
    } else {
        assert(chunk_type(s@, i as int) != t@) by {
            if chunk_type(s@, i as int) == t@ {
                assert(chunk_type(s@, i as int)[0] == t@[0]);
                assert(chunk_type(s@, i as int)[1] == t@[1]);
                assert(chunk_type(s@, i as int)[2] == t@[2]);
                assert(chunk_type(s@, i as int)[3] == t@[3]);
            }
        }
    }
    r
}

/// The unfiltered image: `n` bytes.
pub open spec fn unfiltered(f: Seq<u8>, row: int, px: int, n: nat) -> Seq<u8> {
    Seq::new(n, |i: int| recon(f, row, px, i))
}

/// The RGBA rows of an image of `w` by `h` pixels from its decompressed image
/// data `f`; `None` when the data is too short or a row has an unknown filter.
pub open spec fn pixels_spec(f: Seq<u8>, w: u32, h: u32, alpha: bool) -> Option<Seq<u8>> {
    let px: int = if alpha {
        4
    } else {
        3
    };
    let row = w * px;
    if !pixel_sizes_ok(f, w, h, alpha) || !filters_ok(f, row, h as int) {
        None
    } else {
        let img = unfiltered(f, row, px, (h * row) as nat);
        Some(
            if alpha {
                img
            } else {
                with_alpha(img, (w * h) as nat)
            },
        )
    }
}

/// The pixels of a PNG file as RGBA rows, with its width and height; `None`
/// when the file is not one this loader reads.
pub open spec fn png_spec(s: Seq<u8>) -> Option<(u32, u32, Seq<u8>)> {
    if s.len() < 8 || s.subrange(0, 8) != png_signature() {
        None
    } else {
        match chunks_spec(s, 8, 0, 0, false, seq![]) {
            None => None,
            Some((w, h, a, d)) => match zlib_spec(d) {
                Err(_) => None,
                Ok(f) => match pixels_spec(f, w, h, a) {
                    None => None,
                    Some(px) => Some((w, h, px)),
                },
            },
        }
    }
}

/// Walks the chunks after the signature up to `IEND`.
fn read_chunks(s: &[u8]) -> (r: Result<ChunkInfo, String>)
    requires
        s@.len() >= 8,
    ensures
        match chunks_spec(s@, 8, 0, 0, false, seq![]) {
            Some((w, h, a, d)) => r is Ok && r->Ok_0.width == w && r->Ok_0.height == h
                && r->Ok_0.alpha == a && r->Ok_0.data@ == d,
            None => r is Err,
        },
{
    let ghost target = chunks_spec(s@, 8, 0, 0, false, seq![]);
    let n = s.len();
    let mut width: u32 = 0;
    let mut height: u32 = 0;
    let mut alpha = false;
    let mut data: Vec<u8> = Vec::new();
    let mut c: usize = 8;
    loop
        invariant
            n == s@.len(),
            8 <= c <= n,
            target == chunks_spec(s@, 8, 0, 0, false, seq![]),
            chunks_spec(s@, c as int, width, height, alpha, data@) == target,
        decreases n - c,
    {
        if n - c < 8 {
            return Err("truncated PNG chunk".to_owned());
        }
        if type_is(s, c + 4, [0x49u8, 0x45, 0x4e, 0x44]) {
            return Ok(ChunkInfo { width, height, alpha, data });
        }
        let len = read_u32_be(s, c) as usize;
        let d = c + 8;
        if n - d < 4 || n - d - 4 < len {
            return Err("truncated PNG chunk".to_owned());
        }
        let next = d + len + 4;
        if type_is(s, c + 4, [0x49u8, 0x48, 0x44, 0x52]) {
            if len != 13 || s[d + 8] != 8 || s[d + 10] != 0 || s[d + 11] != 0 || s[d + 12] != 0 {
                return Err("unsupported PNG header".to_owned());
            }
            let color_space = s[d + 9];
            if color_space != 2 && color_space != 6 {
                return Err(color_space_message(color_space));
            }
            width = read_u32_be(s, d);
            height = read_u32_be(s, d + 4);
            alpha = color_space == 6;
        } else if type_is(s, c + 4, [0x49u8, 0x44, 0x41, 0x54]) {
            let ghost before = data@;
            let mut k: usize = d;
            while k < d + len
                invariant
                    d <= k <= d + len,
                    d + len <= n == s@.len(),
                    data@ == before + s@.subrange(d as int, k as int),
                decreases d + len - k,
            {
                data.push(s[k]);
                k = k + 1;
                assert(data@ =~= before + s@.subrange(d as int, k as int));
            }
        }
        c = next;
    }
}

/// Reverses the per-row filters: row `y` of `f` is a filter type byte and `row`
/// filtered bytes.
fn unfilter(f: &[u8], row: usize, px: usize, height: usize) -> (r: Result<Vec<u8>, String>)
    requires
        px == 3 || px == 4,
        height * (row + 1) <= f@.len(),
    ensures
        r is Ok <==> filters_ok(f@, row as int, height as int),
        r is Ok ==> r->Ok_0@ == unfiltered(f@, row as int, px as int, (height * row) as nat),
        r is Err ==> ({
            let y = first_bad_row(f@, row as int, 0, height as int);
            r->Err_0@ == filter_text(f@[y * (row + 1)], y as nat)
        }),
{
    let flen = f.len();
    let mut out: Vec<u8> = Vec::new();
    let mut y: usize = 0;
    while y < height
        invariant
            flen == f@.len(),
            px == 3 || px == 4,
            height * (row + 1) <= f@.len(),
            y <= height,
            out@.len() == y * row,
            forall|k: int| 0 <= k < out@.len() ==> out@[k] == recon(f@, row as int, px as int, k),
            forall|z: int| 0 <= z < y ==> #[trigger] f@[z * (row + 1)] <= 4,
            first_bad_row(f@, row as int, 0, height as int) == first_bad_row(
                f@,
                row as int,
                y as int,
                height as int,
            ),
        decreases height - y,
    {
        assert(y * (row + 1) + row + 1 <= height * (row + 1)) by (nonlinear_arith)
            requires
                y < height,
        ;
        let base = y * (row + 1);
        let filter = f[base];
        if filter > 4 {
            return Err(filter_message(filter, y));
        }
        let mut x: usize = 0;
        while x < row
            invariant
                flen == f@.len(),
                px == 3 || px == 4,
                height * (row + 1) <= f@.len(),
                y < height,
                base == y * (row + 1),
                base + row + 1 <= f@.len(),
                filter == f@[base as int],
                filter <= 4,
                x <= row,
                out@.len() == y * row + x,
                forall|k: int|
                    0 <= k < out@.len() ==> out@[k] == recon(f@, row as int, px as int, k),
            decreases row - x,
        {
            let i = out.len();
            proof {
                vstd::arithmetic::div_mod::lemma_fundamental_div_mod_converse(
                    i as int,
                    row as int,
                    y as int,
                    x as int,
                );
                assert(y * row >= 0) by (nonlinear_arith)
                    requires
                        y >= 0,
                        row >= 0,
                ;
                if y >= 1 {
                    assert(y * row >= row) by (nonlinear_arith)
                        requires
                            y >= 1,
                    ;
                }
            }
            let raw = f[base + 1 + x];
            let a: u8 = if x >= px {
                out[i - px]
            } else {
                0
            };
            let b: u8 = if y >= 1 {
                out[i - row]
            } else {
                0
            };
            let c: u8 = if x >= px && y >= 1 {
                out[i - row - px]
            } else {
                0
            };
            let pred: u8 = if filter == 1 {
                a
            } else if filter == 2 {
                b
            } else if filter == 3 {
                ((a as u16 + b as u16) / 2) as u8
            } else if filter == 4 {
                paeth_predictor(a, b, c)
            } else {
                0
            };
            let v = ((raw as u16 + pred as u16) % 256) as u8;
            out.push(v);
            x = x + 1;
        }
        assert((y + 1) * row == y * row + row) by (nonlinear_arith);
        y = y + 1;
    }
    assert(out@ =~= unfiltered(f@, row as int, px as int, (height * row) as nat));
    Ok(out)
}

/// The Paeth predictor of `a` (left), `b` (up) and `c` (up-left).
fn paeth_predictor(a: u8, b: u8, c: u8) -> (r: u8)
    ensures
        r == paeth(a, b, c),
{
    let p = a as i16 + b as i16 - c as i16;
    let pa = if p >= a as i16 {
        p - a as i16
    } else {
        a as i16 - p
    };
    let pb = if p >= b as i16 {
        p - b as i16
    } else {
        b as i16 - p
    };
    let pc = if p >= c as i16 {
        p - c as i16
    } else {
        c as i16 - p
    };
    if pa <= pb && pa <= pc {
        a
    } else if pb <= pc {
        b
    } else {
        c
    }
}

/// Widens `n` RGB pixels to RGBA with an opaque alpha byte.
fn add_alpha(rgb: &Vec<u8>, n: usize) -> (r: Vec<u8>)
    requires
        rgb@.len() == 3 * n,
        4 * n <= usize::MAX,
    ensures
        r@ == with_alpha(rgb@, n as nat),
{
    let total = 4 * n;
    let mut out: Vec<u8> = Vec::new();
    let mut i: usize = 0;
    while i < total
        invariant
            total == 4 * n,
            rgb@.len() == 3 * n,
            i <= total,
            out@ == with_alpha(rgb@, n as nat).subrange(0, i as int),
        decreases total - i,
    {
        let v = if i % 4 == 3 {
            255u8
        } else {
            rgb[i - i / 4]
        };
        out.push(v);
        i = i + 1;
        assert(out@ =~= with_alpha(rgb@, n as nat).subrange(0, i as int));
    }
    assert(out@ =~= with_alpha(rgb@, n as nat));
    out
}

/// Unfilters the decompressed image data and widens RGB to RGBA.
fn pixels(filtered: &Vec<u8>, width: u32, height: u32, alpha: bool) -> (r: Result<Vec<u8>, String>)
    ensures
        match pixels_spec(filtered@, width, height, alpha) {
            Some(px) => r is Ok && r->Ok_0@ == px,
            None => r is Err,
        },
        pixel_sizes_ok(filtered@, width, height, alpha) && !filters_ok(
            filtered@,
            width * if alpha {
                4int
            } else {
                3int
            },
            height as int,
        ) ==> r->Err_0@ == filter_failure(filtered@, width, height, alpha),
{
    let px: u64 = if alpha {
        4
    } else {
        3
    };
    let row = width as u64 * px;
    assert(height as u128 * (row as u128 + 1) <= 0x1_0000_0000 * 0x10_0000_0000) by (nonlinear_arith)
        requires
            height < 0x1_0000_0000,
            row <= 4 * 0xffff_ffff,
    ;
    assert(width as u128 * height as u128 <= 0x1_0000_0000 * 0x1_0000_0000) by (nonlinear_arith)
        requires
            height < 0x1_0000_0000,
            width < 0x1_0000_0000,
    ;
    let needed = height as u128 * (row as u128 + 1);
    let count = width as u128 * height as u128;
    if needed > filtered.len() as u128 || 4 * count > usize::MAX as u128 {
        return Err("PNG image data too short".to_owned());
    }
    if height == 0 {
        assert(height * (width * px + 1) == 0 && width * height == 0 && height * (width * px)
            == 0) by (nonlinear_arith)
            requires
                height == 0,
        ;
        assert(pixel_sizes_ok(filtered@, width, height, alpha));
        let empty: Vec<u8> = Vec::new();
        assert(empty@ =~= unfiltered(filtered@, row as int, px as int, 0));
        assert(empty@ =~= with_alpha(empty@, 0));
        return Ok(empty);
    }
    assert(row + 1 <= needed) by (nonlinear_arith)
        requires
            needed == height * (row + 1),
            height >= 1,
    ;
    let row = row as usize;
    let h = height as usize;
    let image = match unfilter(filtered.as_slice(), row, px as usize, h) {
        Ok(img) => img,
        Err(e) => {
            return Err(e);
        },
    };
    if alpha {
        Ok(image)
    } else {
        assert(h * row == 3 * (width * height)) by (nonlinear_arith)
            requires
                row == width * 3,
                h == height,
        ;
        Ok(add_alpha(&image, count as usize))
    }
}

impl Image {
    /// Loads an 8-bit RGB or RGBA PNG file without interlacing; the pixels come
    /// out as RGBA rows.
    pub fn from_png(s: &[u8]) -> (r: Result<Self, String>)
        ensures
            match png_spec(s@) {
                Some((w, h, px)) => r is Ok && r->Ok_0.width == w && r->Ok_0.height == h
                    && r->Ok_0.raw@ == px,
                None => r is Err,
            },
            !(s@.len() >= 8 && s@.subrange(0, 8) == png_signature()) ==> r is Err && r->Err_0@
                == "Not a png"@,
            s@.len() >= 8 && s@.subrange(0, 8) == png_signature() ==> match chunks_spec(
                s@,
                8,
                0,
                0,
                false,
                seq![],
            ) {
                Some((w, h, a, d)) => match zlib_spec(d) {
                    Err(e) => r is Err && r->Err_0@ == e.name_spec(),
                    Ok(f) => pixel_sizes_ok(f, w, h, a) && !filters_ok(
                        f,
                        w * if a {
                            4int
                        } else {
                            3int
                        },
                        h as int,
                    ) ==> r is Err && r->Err_0@ == filter_failure(f, w, h, a),
                },
                None => r is Err,
            },
    {
        if s.len() < 8 || !(s[0] == 0x89 && s[1] == 0x50 && s[2] == 0x4e && s[3] == 0x47 && s[4]
            == 0x0d && s[5] == 0x0a && s[6] == 0x1a && s[7] == 0x0a) {
            proof {
                if s@.len() >= 8 && s@.subrange(0, 8) == png_signature() {
                    assert(s@.subrange(0, 8)[0] == s@[0]);
                    assert(s@.subrange(0, 8)[1] == s@[1]);
                    assert(s@.subrange(0, 8)[2] == s@[2]);
                    assert(s@.subrange(0, 8)[3] == s@[3]);
                    assert(s@.subrange(0, 8)[4] == s@[4]);
                    assert(s@.subrange(0, 8)[5] == s@[5]);
                    assert(s@.subrange(0, 8)[6] == s@[6]);
                    assert(s@.subrange(0, 8)[7] == s@[7]);
                }
            }
            return Err("Not a png".to_owned());
        }
        assert(s@.subrange(0, 8) =~= png_signature());
        let info = match read_chunks(s) {
            Ok(info) => info,
            Err(e) => {
                return Err(e);
            },
        };
        let filtered = match decompress_zlib(info.data.as_slice()) {
            Ok(f) => f,
            Err(e) => {
                return Err(e.name());
            },
        };
        let raw = match pixels(&filtered, info.width, info.height, info.alpha) {
            Ok(raw) => raw,
            Err(e) => {
                return Err(e);
            },
        };
        Ok(Image { width: info.width, height: info.height, raw })
    }
}

} // verus!
