//! Nearest-neighbour resampling and rotation of RGBA8 pixel buffers.
//!
//! A buffer of `w` by `h` pixels holds `w * h * 4` bytes, row by row, four
//! channel bytes per pixel. Rotations are given as a fixed-point cosine and
//! sine, scaled by `UNIT`, so that every step of the pixel mapping is exact
//! integer arithmetic.
use vstd::arithmetic::div_mod::{lemma_fundamental_div_mod, lemma_fundamental_div_mod_converse};
use vstd::prelude::*;

verus! {

/// Fixed-point scale of a rotation's cosine and sine: `UNIT` stands for 1.0.
pub const UNIT: i32 = 65536;

/// Why a pixel transform could not be carried out.
#[derive(Debug, Clone, Copy, PartialEq, Eq, Structural)]
pub enum PixelError {
    /// The buffer's length is not four bytes per pixel of its stated size.
    LengthMismatch,
    /// Pixels are asked of a source that has none.
    EmptySource,
    /// The output's size does not fit the machine's address space (or `u32`).
    TooLarge,
}

/// A rotation about an image's centre.
///
/// `cos` and `sin` are the cosine and sine of the angle, scaled by `UNIT`.
/// `degrees_bits` carries the caller's own record of the angle (the bit
/// pattern of a number of degrees); the pixel logic never reads it.
#[derive(Debug, Clone, Copy, PartialEq, Eq, Structural)]
pub struct Rotation {
    pub degrees_bits: u64,
    pub cos: i32,
    pub sin: i32,
}

impl Rotation {
    /// Cosine and sine lie in `[-UNIT, UNIT]`.
    pub open spec fn wf(&self) -> bool {
        -UNIT <= self.cos <= UNIT && -UNIT <= self.sin <= UNIT
    }

    /// The rotation by zero degrees.
    pub open spec fn is_identity(&self) -> bool {
        self.cos == UNIT && self.sin == 0
    }

    /// A quarter turn (ninety degrees).
    pub open spec fn is_quarter_turn(&self) -> bool {
        self.cos == 0 && self.sin == UNIT
    }

    /// The rotation by zero degrees, recorded as the angle 0.
    pub fn identity() -> (r: Rotation)
        ensures
            r.wf(),
            r.is_identity(),
            r.degrees_bits == 0,
    {
        Rotation { degrees_bits: 0, cos: UNIT, sin: 0 }
    }

    /// A rotation with the given record of its angle, and cosine and sine
    /// brought into `[-UNIT, UNIT]`.
    pub fn new(degrees_bits: u64, cos: i32, sin: i32) -> (r: Rotation)
        ensures
            r.wf(),
            r.degrees_bits == degrees_bits,
            r.cos == clamp_unit(cos as int),
            r.sin == clamp_unit(sin as int),
    {
        Rotation { degrees_bits, cos: clamp_unit_exec(cos), sin: clamp_unit_exec(sin) }
    }
}

/// `v` brought into `[-UNIT, UNIT]`.
pub open spec fn clamp_unit(v: int) -> int {
    if v < -UNIT {
        -UNIT as int
    } else if v > UNIT {
        UNIT as int
    } else {
        v
    }
}

fn clamp_unit_exec(v: i32) -> (r: i32)
    ensures
        r == clamp_unit(v as int),
{
    if v < -UNIT {
        -UNIT
    } else if v > UNIT {
        UNIT
    } else {
        v
    }
}

/// Absolute value.
pub open spec fn abs(v: int) -> int {
    if v < 0 {
        -v
    } else {
        v
    }
}

/// Number of bytes of a `w` by `h` RGBA8 buffer.
pub open spec fn buffer_len(w: int, h: int) -> int {
    w * h * 4
}

/// Byte offset of channel `c` of pixel `(x, y)` in a buffer `w` pixels wide.
pub open spec fn byte_index(w: int, x: int, y: int, c: int) -> int {
    (y * w + x) * 4 + c
}

/// `i` is channel `c` of pixel `(x, y)`, and back.
pub proof fn lemma_byte_index(w: int, x: int, y: int, c: int)
    requires
        w > 0,
        0 <= x < w,
        0 <= y,
        0 <= c < 4,
    ensures
        byte_index(w, x, y, c) / 4 == y * w + x,
        byte_index(w, x, y, c) % 4 == c,
        (y * w + x) % w == x,
        (y * w + x) / w == y,
{
    assert(y * w + x >= 0) by (nonlinear_arith)
        requires
            w > 0,
            0 <= x,
            0 <= y,
    ;
    lemma_fundamental_div_mod_converse(byte_index(w, x, y, c), 4, y * w + x, c);
    lemma_fundamental_div_mod_converse(y * w + x, w, y, x);
}

/// Every byte `i` of a `w`-pixel-wide buffer of `rows` rows is channel
/// `i % 4` of pixel `((i / 4) % w, (i / 4) / w)`, inside the buffer.
pub proof fn lemma_byte_coords(w: int, rows: int, i: int)
    requires
        w > 0,
        0 <= i < w * rows * 4,
    ensures
        0 <= (i / 4) % w < w,
        0 <= (i / 4) / w < rows,
        i == byte_index(w, (i / 4) % w, (i / 4) / w, i % 4),
{
    let p = i / 4;
    lemma_fundamental_div_mod(i, 4);
    assert(0 <= p);
    lemma_fundamental_div_mod(p, w);
    assert(0 <= p % w < w);
    assert(p == (p / w) * w + p % w) by (nonlinear_arith)
        requires
            p == w * (p / w) + p % w,
    ;
    assert(p < w * rows) by (nonlinear_arith)
        requires
            i < w * rows * 4,
            i == p * 4 + i % 4,
            0 <= i % 4,
    ;
    assert(p / w < rows) by (nonlinear_arith)
        requires
            w > 0,
            p >= 0,
            p < w * rows,
            p == (p / w) * w + p % w,
            0 <= p % w,
    ;
    assert(p / w >= 0) by (nonlinear_arith)
        requires
            w > 0,
            p >= 0,
    ;
}

/// Source byte that byte `i` of a `dw` by `dh` resampling of a `sw` by `sh`
/// buffer copies: pixel `(floor(x * sw / dw), floor(y * sh / dh))`, same channel.
pub open spec fn resample_source(sw: int, sh: int, dw: int, dh: int, i: int) -> int {
    let p = i / 4;
    let x = p % dw;
    let y = p / dw;
    byte_index(sw, x * sw / dw, y * sh / dh, i % 4)
}

/// Nearest-neighbour resampling of `src` (`sw` by `sh`) to `dw` by `dh`.
pub open spec fn resampled(src: Seq<u8>, sw: int, sh: int, dw: int, dh: int) -> Seq<u8> {
    Seq::new((dw * dh * 4) as nat, |i: int| src[resample_source(sw, sh, dw, dh, i)])
}

/// The error, if any, of resampling a buffer of `len` bytes.
pub open spec fn resample_error(len: int, sw: int, sh: int, dw: int, dh: int) -> Option<
    PixelError,
> {
    if len != buffer_len(sw, sh) {
        Some(PixelError::LengthMismatch)
    } else if buffer_len(dw, dh) > usize::MAX {
        Some(PixelError::TooLarge)
    } else if dw * dh > 0 && (sw == 0 || sh == 0) {
        Some(PixelError::EmptySource)
    } else {
        None
    }
}

/// The byte count `w * h * 4`, where it fits in `usize`.
pub fn checked_buffer_len(w: u32, h: u32) -> (r: Option<usize>)
    ensures
        match r {
            Some(n) => n == buffer_len(w as int, h as int),
            None => buffer_len(w as int, h as int) > usize::MAX,
        },
{
    match (w as usize).checked_mul(h as usize) {
        Some(p) => {
            let r = p.checked_mul(4);
            r
        },
        None => {
            assert(w as int * h as int * 4 > usize::MAX) by (nonlinear_arith)
                requires
                    w as int * h as int > usize::MAX,
            ;
            None
        },
    }
}

proof fn lemma_scaled_below(x: int, s: int, d: int)
    requires
        0 <= x < d,
        0 < s,
    ensures
        0 <= x * s / d < s,
        0 <= x * s,
{
    assert(0 <= x * s < d * s) by (nonlinear_arith)
        requires
            0 <= x < d,
            0 < s,
    ;
    assert(x * s / d < s) by (nonlinear_arith)
        requires
            0 <= x * s < d * s,
            0 < d,
    ;
    assert(0 <= x * s / d) by (nonlinear_arith)
        requires
            0 <= x * s,
            0 < d,
    ;
}

proof fn lemma_pixel_inside(w: int, h: int, x: int, y: int, c: int)
    requires
        0 <= x < w,
        0 <= y < h,
        0 <= c < 4,
    ensures
        0 <= byte_index(w, x, y, c) < buffer_len(w, h),
        0 <= y * w + x < w * h,
{
    assert(0 <= y * w + x < w * h) by (nonlinear_arith)
        requires
            0 <= x < w,
            0 <= y < h,
    ;
}

/// Scales `src`, `sw` by `sh` pixels, to `dw` by `dh` pixels by nearest
/// neighbour: each destination pixel `(x, y)` copies the four bytes of source
/// pixel `(floor(x * sw / dw), floor(y * sh / dh))`.
pub fn resize_image(src: &[u8], sw: u32, sh: u32, dw: u32, dh: u32) -> (r: Result<
    Vec<u8>,
    PixelError,
>)
    ensures
        match r {
            Ok(out) => resample_error(src@.len() as int, sw as int, sh as int, dw as int, dh as int)
                is None && out@ == resampled(src@, sw as int, sh as int, dw as int, dh as int),
            Err(e) => resample_error(src@.len() as int, sw as int, sh as int, dw as int, dh as int)
                == Some(e),
        },
{
    let len = src.len();
    let n = match checked_buffer_len(sw, sh) {
        Some(n) => n,
        None => {
            return Err(PixelError::LengthMismatch);
        },
    };
    if len != n {
        return Err(PixelError::LengthMismatch);
    }
    let total = match checked_buffer_len(dw, dh) {
        Some(n) => n,
        None => {
            return Err(PixelError::TooLarge);
        },
    };
    if total > 0 && (sw == 0 || sh == 0) {
        return Err(PixelError::EmptySource);
    }
    let ghost spec_out = resampled(src@, sw as int, sh as int, dw as int, dh as int);
    let mut out: Vec<u8> = Vec::with_capacity(total);
    let mut i: usize = 0;
    while i < total
        invariant
            total == buffer_len(dw as int, dh as int),
            src@.len() == buffer_len(sw as int, sh as int),
            src@.len() == n,
            total > 0 ==> sw > 0 && sh > 0,
            spec_out == resampled(src@, sw as int, sh as int, dw as int, dh as int),
            i <= total,
            out@.len() == i,
            forall|j: int| 0 <= j < i ==> out@[j] == spec_out[j],
        decreases total - i,
    {
        proof {
            assert(dw > 0 && dh > 0) by (nonlinear_arith)
                requires
                    i < total,
                    total == dw as int * dh as int * 4,
            ;
            lemma_byte_coords(dw as int, dh as int, i as int);
        }
        let p = i / 4;
        let x = p % (dw as usize);
        let y = p / (dw as usize);
        proof {
            lemma_scaled_below(x as int, sw as int, dw as int);
            lemma_scaled_below(y as int, sh as int, dh as int);
            assert(x as int * sw as int <= u64::MAX) by (nonlinear_arith)
                requires
                    x < dw,
                    dw <= u32::MAX,
                    sw <= u32::MAX,
            ;
            assert(y as int * sh as int <= u64::MAX) by (nonlinear_arith)
                requires
                    y < dh,
                    dh <= u32::MAX,
                    sh <= u32::MAX,
            ;
        }
        let sx = ((x as u64) * (sw as u64) / (dw as u64)) as usize;
        let sy = ((y as u64) * (sh as u64) / (dh as u64)) as usize;
        proof {
            lemma_pixel_inside(sw as int, sh as int, sx as int, sy as int, (i % 4) as int);
        }
        let k = (sy * (sw as usize) + sx) * 4 + i % 4;
        assert(k == resample_source(sw as int, sh as int, dw as int, dh as int, i as int));
        out.push(src[k]);
        i = i + 1;
    }
    assert(out@ =~= spec_out);
    Ok(out)
}

/// `ceil(a / b)` for `a >= 0`, `b > 0`.
pub open spec fn ceil_div(a: int, b: int) -> int {
    (a + b - 1) / b
}

/// `a / b` rounded to the nearest integer, halves away from zero (`b > 0`).
pub open spec fn round_div(a: int, b: int) -> int {
    if a >= 0 {
        (2 * a + b) / (2 * b)
    } else {
        -((-2 * a + b) / (2 * b))
    }
}

/// Width of the bounding box of a `w` by `h` image turned by `rot`:
/// `ceil(w * |cos| + h * |sin|)`.
pub open spec fn rotated_width(w: int, h: int, rot: Rotation) -> int {
    ceil_div(w * abs(rot.cos as int) + h * abs(rot.sin as int), UNIT as int)
}

/// Height of the bounding box: `ceil(w * |sin| + h * |cos|)`.
pub open spec fn rotated_height(w: int, h: int, rot: Rotation) -> int {
    ceil_div(w * abs(rot.sin as int) + h * abs(rot.cos as int), UNIT as int)
}

/// Source column that output pixel `(nx, ny)` of an `nw` by `nh` box maps back
/// to, by the inverse rotation about both centres, rounded to nearest.
/// Offsets from the centres are kept doubled so that they stay integers.
pub open spec fn source_x(w: int, rot: Rotation, nw: int, nh: int, nx: int, ny: int) -> int {
    let dx2 = 2 * nx - nw;
    let dy2 = 2 * ny - nh;
    round_div(dx2 * rot.cos + dy2 * rot.sin + w * UNIT, 2 * UNIT)
}

/// Source row that output pixel `(nx, ny)` maps back to.
pub open spec fn source_y(h: int, rot: Rotation, nw: int, nh: int, nx: int, ny: int) -> int {
    let dx2 = 2 * nx - nw;
    let dy2 = 2 * ny - nh;
    round_div(dy2 * rot.cos - dx2 * rot.sin + h * UNIT, 2 * UNIT)
}

/// Byte `i` of the rotation of `src` (`w` by `h`) into an `nw` by `nh` box:
/// the same channel of the source pixel it maps back to, or 0 where that
/// pixel lies outside the source.
pub open spec fn rotated_byte(src: Seq<u8>, w: int, h: int, rot: Rotation, nw: int, nh: int, i: int) -> u8 {
    let p = i / 4;
    let nx = p % nw;
    let ny = p / nw;
    let sx = source_x(w, rot, nw, nh, nx, ny);
    let sy = source_y(h, rot, nw, nh, nx, ny);
    if 0 <= sx < w && 0 <= sy < h {
        src[byte_index(w, sx, sy, i % 4)]
    } else {
        0
    }
}

/// The rotation of `src` (`w` by `h`) by `rot`, in its expanded bounding box.
pub open spec fn rotated(src: Seq<u8>, w: int, h: int, rot: Rotation) -> Seq<u8> {
    let nw = rotated_width(w, h, rot);
    let nh = rotated_height(w, h, rot);
    Seq::new((nw * nh * 4) as nat, |i: int| rotated_byte(src, w, h, rot, nw, nh, i))
}

/// The error, if any, of rotating a buffer of `len` bytes.
pub open spec fn rotate_error(len: int, w: int, h: int, rot: Rotation) -> Option<PixelError> {
    let nw = rotated_width(w, h, rot);
    let nh = rotated_height(w, h, rot);
    if len != buffer_len(w, h) {
        Some(PixelError::LengthMismatch)
    } else if nw > u32::MAX || nh > u32::MAX || buffer_len(nw, nh) > usize::MAX {
        Some(PixelError::TooLarge)
    } else {
        None
    }
}

proof fn lemma_mul_bound(a: int, b: int, ba: int, bb: int)
    requires
        -ba <= a <= ba,
        -bb <= b <= bb,
    ensures
        -(ba * bb) <= a * b <= ba * bb,
{
    assert(-(ba * bb) <= a * b <= ba * bb) by (nonlinear_arith)
        requires
            -ba <= a <= ba,
            -bb <= b <= bb,
    ;
}

fn round_div_exec(a: i64, b: i64) -> (r: i64)
    requires
        0 < b <= 0x10_0000,
        -0x10_0000_0000_0000 <= a <= 0x10_0000_0000_0000,
    ensures
        r == round_div(a as int, b as int),
{
    if a >= 0 {
        (2 * a + b) / (2 * b)
    } else {
        proof {
            assert((-2 * a + b) / (2 * b) <= -2 * a + b) by (nonlinear_arith)
                requires
                    -2 * a + b >= 0,
                    b > 0,
            ;
        }
        -((-2 * a + b) / (2 * b))
    }
}

/// Turns `src`, a `w` by `h` buffer, by `rot` about its centre into the
/// rotation's bounding box, `ceil(w * |cos| + h * |sin|)` by
/// `ceil(w * |sin| + h * |cos|)` pixels. Each output pixel maps back through
/// the inverse rotation to the nearest source pixel and copies its four
/// bytes; one that maps outside the source stays zero.
pub fn rotate(src: &[u8], w: u32, h: u32, rot: Rotation) -> (r: Result<(Vec<u8>, u32, u32), PixelError>)
    requires
        rot.wf(),
    ensures
        match r {
            Ok((out, nw, nh)) => {
                &&& rotate_error(src@.len() as int, w as int, h as int, rot) is None
                &&& nw == rotated_width(w as int, h as int, rot)
                &&& nh == rotated_height(w as int, h as int, rot)
                &&& out@ == rotated(src@, w as int, h as int, rot)
            },
            Err(e) => rotate_error(src@.len() as int, w as int, h as int, rot) == Some(e),
        },
{
    let len = src.len();
    let n = match checked_buffer_len(w, h) {
        Some(n) => n,
        None => {
            return Err(PixelError::LengthMismatch);
        },
    };
    if len != n {
        return Err(PixelError::LengthMismatch);
    }
    let unit = UNIT as i64;
    let c = rot.cos as i64;
    let s = rot.sin as i64;
    let ac = if c < 0 { -c } else { c };
    let as_ = if s < 0 { -s } else { s };
    proof {
        lemma_mul_bound(w as int, ac as int, u32::MAX as int, UNIT as int);
        lemma_mul_bound(h as int, as_ as int, u32::MAX as int, UNIT as int);
        lemma_mul_bound(w as int, as_ as int, u32::MAX as int, UNIT as int);
        lemma_mul_bound(h as int, ac as int, u32::MAX as int, UNIT as int);
    }
    let nw64 = ((w as i64) * ac + (h as i64) * as_ + unit - 1) / unit;
    let nh64 = ((w as i64) * as_ + (h as i64) * ac + unit - 1) / unit;
    if nw64 > u32::MAX as i64 || nh64 > u32::MAX as i64 {
        return Err(PixelError::TooLarge);
    }
    proof {
        assert(nw64 >= 0 && nh64 >= 0) by (nonlinear_arith)
            requires
                nw64 == ((w as int) * ac + (h as int) * as_ + unit - 1) / (unit as int),
                nh64 == ((w as int) * as_ + (h as int) * ac + unit - 1) / (unit as int),
                w >= 0,
                h >= 0,
                ac >= 0,
                as_ >= 0,
                unit == 65536,
        ;
    }
    let nw = nw64 as u32;
    let nh = nh64 as u32;
    let total = match checked_buffer_len(nw, nh) {
        Some(t) => t,
        None => {
            return Err(PixelError::TooLarge);
        },
    };
    let ghost spec_out = rotated(src@, w as int, h as int, rot);
    let mut out: Vec<u8> = Vec::with_capacity(total);
    let mut i: usize = 0;
    while i < total
        invariant
            total == buffer_len(nw as int, nh as int),
            nw == rotated_width(w as int, h as int, rot),
            nh == rotated_height(w as int, h as int, rot),
            src@.len() == buffer_len(w as int, h as int),
            src@.len() == n,
            rot.wf(),
            c == rot.cos,
            s == rot.sin,
            unit == UNIT,
            spec_out == rotated(src@, w as int, h as int, rot),
            i <= total,
            out@.len() == i,
            forall|j: int| 0 <= j < i ==> out@[j] == spec_out[j],
        decreases total - i,
    {
        proof {
            assert(nw > 0 && nh > 0) by (nonlinear_arith)
                requires
                    i < total,
                    total == nw as int * nh as int * 4,
            ;
            lemma_byte_coords(nw as int, nh as int, i as int);
        }
        let p = i / 4;
        let nx = (p % (nw as usize)) as i64;
        let ny = (p / (nw as usize)) as i64;
        let dx2 = 2 * nx - nw as i64;
        let dy2 = 2 * ny - nh as i64;
        proof {
            lemma_mul_bound(dx2 as int, c as int, 0x2_0000_0000, UNIT as int);
            lemma_mul_bound(dy2 as int, s as int, 0x2_0000_0000, UNIT as int);
            lemma_mul_bound(dy2 as int, c as int, 0x2_0000_0000, UNIT as int);
            lemma_mul_bound(dx2 as int, s as int, 0x2_0000_0000, UNIT as int);
            lemma_mul_bound(w as int, unit as int, u32::MAX as int, UNIT as int);
            lemma_mul_bound(h as int, unit as int, u32::MAX as int, UNIT as int);
        }
        let sx = round_div_exec(dx2 * c + dy2 * s + (w as i64) * unit, 2 * unit);
        let sy = round_div_exec(dy2 * c - dx2 * s + (h as i64) * unit, 2 * unit);
        assert(sx == source_x(w as int, rot, nw as int, nh as int, nx as int, ny as int));
        assert(sy == source_y(h as int, rot, nw as int, nh as int, nx as int, ny as int));
        if 0 <= sx && sx < w as i64 && 0 <= sy && sy < h as i64 {
            proof {
                lemma_pixel_inside(w as int, h as int, sx as int, sy as int, (i % 4) as int);
            }
            let k = ((sy as usize) * (w as usize) + (sx as usize)) * 4 + i % 4;
            out.push(src[k]);
        } else {
            out.push(0);
        }
        i = i + 1;
    }
    assert(out@ =~= spec_out);
    Ok((out, nw, nh))
}

proof fn lemma_round_exact(k: int, u: int)
    requires
        k >= 0,
        u > 0,
    ensures
        round_div(2 * k * u, 2 * u) == k,
{
    assert(2 * (2 * k * u) + 2 * u == k * (2 * (2 * u)) + 2 * u && 2 * k * u >= 0)
        by (nonlinear_arith)
        requires
            k >= 0,
            u > 0,
    ;
    lemma_fundamental_div_mod_converse(2 * (2 * k * u) + 2 * u, 2 * (2 * u), k, 2 * u);
}

proof fn lemma_mul_div_cancel(x: int, d: int)
    requires
        d > 0,
    ensures
        x * d / d == x,
{
    lemma_fundamental_div_mod_converse(x * d, d, x, 0);
}

/// Resampling a buffer to its own size gives the buffer back.
pub proof fn lemma_resample_same_size(buf: Seq<u8>, w: int, h: int)
    requires
        w >= 0,
        h >= 0,
        buf.len() == buffer_len(w, h),
    ensures
        resampled(buf, w, h, w, h) == buf,
{
    let r = resampled(buf, w, h, w, h);
    assert forall|i: int| 0 <= i < r.len() implies r[i] == buf[i] by {
        if w > 0 {
            lemma_byte_coords(w, h, i);
            let x = (i / 4) % w;
            let y = (i / 4) / w;
            lemma_mul_div_cancel(x, w);
            assert(h > 0) by (nonlinear_arith)
                requires
                    0 <= i < w * h * 4,
                    w > 0,
                    h >= 0,
            ;
            lemma_mul_div_cancel(y, h);
        } else {
            assert(w * h * 4 == 0) by (nonlinear_arith)
                requires
                    w == 0,
            ;
        }
    }
    assert(r =~= buf);
}

/// Turning by zero degrees keeps the size and every byte of the image.
pub proof fn lemma_rotate_identity(buf: Seq<u8>, w: int, h: int, rot: Rotation)
    requires
        w >= 0,
        h >= 0,
        rot.is_identity(),
        buf.len() == buffer_len(w, h),
    ensures
        rotated_width(w, h, rot) == w,
        rotated_height(w, h, rot) == h,
        rotated(buf, w, h, rot) == buf,
{
    let u = UNIT as int;
    assert(w * abs(rot.cos as int) + h * abs(rot.sin as int) == w * u) by (nonlinear_arith)
        requires
            rot.cos == u,
            rot.sin == 0,
            u > 0,
    ;
    assert(w * abs(rot.sin as int) + h * abs(rot.cos as int) == h * u) by (nonlinear_arith)
        requires
            rot.cos == u,
            rot.sin == 0,
            u > 0,
    ;
    lemma_fundamental_div_mod_converse(w * u + u - 1, u, w, u - 1);
    lemma_fundamental_div_mod_converse(h * u + u - 1, u, h, u - 1);
    let r = rotated(buf, w, h, rot);
    assert forall|i: int| 0 <= i < r.len() implies r[i] == buf[i] by {
        assert(w > 0) by (nonlinear_arith)
            requires
                0 <= i < w * h * 4,
                w >= 0,
                h >= 0,
        ;
        lemma_byte_coords(w, h, i);
        let nx = (i / 4) % w;
        let ny = (i / 4) / w;
        assert((2 * nx - w) * rot.cos + (2 * ny - h) * rot.sin + w * u == 2 * nx * u)
            by (nonlinear_arith)
            requires
                rot.cos == u,
                rot.sin == 0,
        ;
        assert((2 * ny - h) * rot.cos - (2 * nx - w) * rot.sin + h * u == 2 * ny * u)
            by (nonlinear_arith)
            requires
                rot.cos == u,
                rot.sin == 0,
        ;
        lemma_round_exact(nx, u);
        lemma_round_exact(ny, u);
    }
    assert(r =~= buf);
}

/// Turning by ninety degrees swaps width and height, and output pixel
/// `(nx, ny)` away from the first column is source pixel `(ny, h - nx)`.
pub proof fn lemma_rotate_quarter_turn(buf: Seq<u8>, w: int, h: int, rot: Rotation)
    requires
        w >= 0,
        h >= 0,
        rot.is_quarter_turn(),
        buf.len() == buffer_len(w, h),
    ensures
        rotated_width(w, h, rot) == h,
        rotated_height(w, h, rot) == w,
        forall|nx: int, ny: int, c: int|
            1 <= nx < h && 0 <= ny < w && 0 <= c < 4 ==> #[trigger] rotated(buf, w, h, rot)[byte_index(
                h,
                nx,
                ny,
                c,
            )] == buf[byte_index(w, ny, h - nx, c)],
{
    let u = UNIT as int;
    assert(w * abs(rot.cos as int) + h * abs(rot.sin as int) == h * u) by (nonlinear_arith)
        requires
            rot.cos == 0,
            rot.sin == u,
            u > 0,
    ;
    assert(w * abs(rot.sin as int) + h * abs(rot.cos as int) == w * u) by (nonlinear_arith)
        requires
            rot.cos == 0,
            rot.sin == u,
            u > 0,
    ;
    lemma_fundamental_div_mod_converse(w * u + u - 1, u, w, u - 1);
    lemma_fundamental_div_mod_converse(h * u + u - 1, u, h, u - 1);
    let r = rotated(buf, w, h, rot);
    assert forall|nx: int, ny: int, c: int|
        1 <= nx < h && 0 <= ny < w && 0 <= c < 4 implies #[trigger] r[byte_index(h, nx, ny, c)]
        == buf[byte_index(w, ny, h - nx, c)] by {
        lemma_byte_index(h, nx, ny, c);
        lemma_pixel_inside(h, w, nx, ny, c);
        lemma_pixel_inside(w, h, ny, h - nx, c);
        assert((2 * nx - h) * rot.cos + (2 * ny - w) * rot.sin + w * u == 2 * ny * u)
            by (nonlinear_arith)
            requires
                rot.cos == 0,
                rot.sin == u,
        ;
        assert((2 * ny - w) * rot.cos - (2 * nx - h) * rot.sin + h * u == 2 * (h - nx) * u)
            by (nonlinear_arith)
            requires
                rot.cos == 0,
                rot.sin == u,
        ;
        lemma_round_exact(ny, u);
        lemma_round_exact(h - nx, u);
    }
}

} // verus!
