//! Picking voxel tags out of a terrain generation map: an image whose
//! pixel bytes are voxel tags.

use vstd::prelude::*;

verus! {

/// The pixel count of a `w` x `h` map.
pub open spec fn pixel_count(w: int, h: int) -> int {
    w * h
}

/// Bytes per pixel of a `w` x `h` generation map holding `data_len` bytes:
/// the byte count over the pixel count, or 4 when the pixel count is not
/// positive.
pub open spec fn bytes_per_pixel_spec(w: int, h: int, data_len: int) -> int {
    if pixel_count(w, h) > 0 {
        data_len / pixel_count(w, h)
    } else {
        4
    }
}

/// The map column a sampled column `sx` reads: a sample that lands exactly
/// on the right edge reads the last column.
pub open spec fn map_column(sx: int, w: int) -> int {
    if sx == w {
        sx - 1
    } else {
        sx
    }
}

/// The byte offset of pixel (`col`, `row`) of a map `w` pixels wide.
pub open spec fn pixel_offset(col: int, row: int, w: int, bpp: int) -> int {
    (row * w + col) * bpp
}

/// The byte width of a pixel of a `w` x `h` map with `data_len` bytes of data.
pub fn bytes_per_pixel(w: i32, h: i32, data_len: usize) -> (r: usize)
    requires
        i32::MIN <= w * h <= i32::MAX,
    ensures
        r == bytes_per_pixel_spec(w as int, h as int, data_len as int),
        w * h > 0 ==> r * (w * h) <= data_len < (r + 1) * (w * h),
        w * h <= 0 ==> r == 4,
{
    proof {
        lemma_bytes_per_pixel_quotient(w as int, h as int, data_len as int);
    }
    let n = w * h;
    if n > 0 {
        data_len / (n as usize)
    } else {
        4
    }
}

/// The voxel tag that map sample (`sx`, `sy`) gives: the first byte of the
/// pixel it lands on, or 0 (empty) above or below the map.
pub fn gen_map_tag(data: &[u8], w: i32, h: i32, bpp: usize, sx: i32, sy: i32) -> (t: u8)
    requires
        0 <= map_column(sx as int, w as int) < w,
        0 <= sy < h ==> pixel_offset(map_column(sx as int, w as int), sy as int, w as int, bpp as int)
            < data@.len(),
        0 <= sy < h ==> sy * w + map_column(sx as int, w as int) <= i32::MAX,
    ensures
        t == (if 0 <= sy < h {
            data@[pixel_offset(map_column(sx as int, w as int), sy as int, w as int, bpp as int)]
        } else {
            0
        }),
        0 <= sy < h ==> t == data@[(sy * w + map_column(sx as int, w as int)) * bpp],
{
    let sx = if sx == w {
        sx - 1
    } else {
        sx
    };
    if 0 <= sy && sy < h {
        assert(0 <= sy * w) by (nonlinear_arith)
            requires
                0 <= sy,
                0 <= w,
        ;
        let row_col = (sy * w + sx) as usize;
        assert(row_col * bpp == pixel_offset(sx as int, sy as int, w as int, bpp as int));
        let len = data.len();
        assert(row_col * bpp < len);
        let pixel_idx = row_col * bpp;
        data[pixel_idx]
    } else {
        0
    }
}

/// For a positive pixel count, the bytes per pixel is the whole number of
/// bytes that each pixel gets out of the data: that many bytes for every
/// pixel fit in the data, one more do not. A map with no pixels (or a
/// negative count) gets 4.
pub proof fn lemma_bytes_per_pixel_quotient(w: int, h: int, data_len: int)
    requires
        data_len >= 0,
    ensures
        w * h > 0 ==> bytes_per_pixel_spec(w, h, data_len) * (w * h) <= data_len < (
        bytes_per_pixel_spec(w, h, data_len) + 1) * (w * h),
        w * h > 0 ==> bytes_per_pixel_spec(w, h, data_len) >= 0,
        w * h <= 0 ==> bytes_per_pixel_spec(w, h, data_len) == 4,
{
    if w * h > 0 {
        let n = w * h;
        let r = bytes_per_pixel_spec(w, h, data_len);
        assert(r == data_len / n);
        vstd::arithmetic::div_mod::lemma_fundamental_div_mod(data_len, n);
        vstd::arithmetic::div_mod::lemma_div_pos_is_pos(data_len, n);
        assert(r * n == n * r) by (nonlinear_arith);
        assert((r + 1) * n == n * r + n) by (nonlinear_arith);
    }
}

/// Pixels are laid out row by row from the start of the data, each `bpp`
/// bytes wide: pixel (0, 0) starts at byte 0, the next column starts `bpp`
/// bytes later, and the next row `w * bpp` bytes later.
pub proof fn lemma_pixel_layout(col: int, row: int, w: int, bpp: int)
    ensures
        pixel_offset(0, 0, w, bpp) == 0,
        pixel_offset(col + 1, row, w, bpp) == pixel_offset(col, row, w, bpp) + bpp,
        pixel_offset(col, row + 1, w, bpp) == pixel_offset(col, row, w, bpp) + w * bpp,
{
    assert((row * w + col + 1) * bpp == (row * w + col) * bpp + bpp) by (nonlinear_arith);
    assert(((row + 1) * w + col) * bpp == (row * w + col) * bpp + w * bpp) by (nonlinear_arith);
    assert((0 * w + 0) * bpp == 0) by (nonlinear_arith);
}

} // verus!
