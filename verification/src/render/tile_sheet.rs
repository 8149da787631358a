//! The tile sheet: source images cut into tiles and packed, tile after tile, into the bytes
//! of one layered texture.

use crate::hash::HandleSet;
use crate::math::UVec2;
use std::collections::HashMap;
use vstd::arithmetic::div_mod::lemma_fundamental_div_mod_converse;
use vstd::prelude::*;

verus! {

/// A pixel format: the number by which the host knows it, and the bytes of one pixel.
#[derive(Clone, Copy, Debug, PartialEq, Eq, Structural)]
pub struct PixelFormat {
    pub id: u32,
    pub pixel_size: u32,
}

/// The number of the host's default format, which has four bytes to the pixel: the format
/// of the sheet that stands in where none is given.
pub const DEFAULT_FORMAT: u32 = 0;

/// A source image: rows of pixels, top row first.
#[derive(Clone, Debug)]
pub struct SourceImage {
    pub data: Vec<u8>,
    /// Width and height in pixels.
    pub size: UVec2,
    pub format: PixelFormat,
}

impl SourceImage {
    /// The image holds `pixel_size` bytes for each of its pixels, and a pixel has bytes.
    pub open spec fn wf(&self) -> bool {
        &&& self.format.pixel_size >= 1
        &&& self.data@.len() == self.size.x * self.size.y * self.format.pixel_size
    }

    /// Whether the image holds `pixel_size` bytes for each of its pixels, and a pixel has
    /// bytes.
    pub fn is_well_formed(&self) -> (b: bool)
        ensures
            b == self.wf(),
    {
        assert(self.size.x * self.size.y * self.format.pixel_size <= 0xffff_ffff * 0xffff_ffff
            * 0xffff_ffff && self.size.x * self.size.y <= 0xffff_ffff * 0xffff_ffff)
            by (nonlinear_arith)
            requires
                self.size.x <= 0xffff_ffff,
                self.size.y <= 0xffff_ffff,
                self.format.pixel_size <= 0xffff_ffff,
        {
            assert(self.size.x * self.size.y <= 0xffff_ffff * 0xffff_ffff);
        }
        let pixels: u128 = self.size.x as u128 * self.size.y as u128;
        let bytes: u128 = pixels * self.format.pixel_size as u128;
        self.format.pixel_size >= 1 && self.data.len() as u128 == bytes
    }

    /// The image of the given size and format over `data`, or `None` where `data` does not
    /// hold `pixel_size` bytes for each pixel or a pixel has no bytes.
    pub fn new(data: Vec<u8>, size: UVec2, format: PixelFormat) -> (image: Option<SourceImage>)
        ensures
            image is Some <==> (format.pixel_size >= 1 && data@.len() == size.x * size.y
                * format.pixel_size),
            image matches Some(img) ==> img.wf() && img.data == data && img.size == size
                && img.format == format,
    {
        assert(size.x * size.y * format.pixel_size <= 0xffff_ffff * 0xffff_ffff * 0xffff_ffff)
            by (nonlinear_arith)
            requires
                size.x <= 0xffff_ffff,
                size.y <= 0xffff_ffff,
                format.pixel_size <= 0xffff_ffff,
        {
            assert(size.x * size.y <= 0xffff_ffff * 0xffff_ffff);
        }
        assert(size.x * size.y <= 0xffff_ffff * 0xffff_ffff) by (nonlinear_arith)
            requires
                size.x <= 0xffff_ffff,
                size.y <= 0xffff_ffff,
        ;
        let pixels: u128 = size.x as u128 * size.y as u128;
        let bytes: u128 = pixels * format.pixel_size as u128;
        if format.pixel_size >= 1 && data.len() as u128 == bytes {
            Some(SourceImage { data, size, format })
        } else {
            None
        }
    }
}

/// How many tiles fit side by side in the image.
pub open spec fn tiles_across(img: SourceImage, tile_size: UVec2) -> int {
    img.size.x as int / tile_size.x as int
}

/// How many rows of tiles fit in the image.
pub open spec fn tiles_down(img: SourceImage, tile_size: UVec2) -> int {
    img.size.y as int / tile_size.y as int
}

/// How many whole tiles the image holds.
pub open spec fn tile_count(img: SourceImage, tile_size: UVec2) -> int {
    tiles_across(img, tile_size) * tiles_down(img, tile_size)
}

/// The bytes of one row of pixels of one tile.
pub open spec fn row_len(img: SourceImage, tile_size: UVec2) -> int {
    tile_size.x * img.format.pixel_size
}

/// Where row `r` of the packed tile `t` starts in the image's bytes. Tiles are counted
/// along the image's rows of tiles, left to right and then down; the packed tile holds the
/// tile's pixel rows bottom row first.
pub open spec fn row_start(img: SourceImage, tile_size: UVec2, t: int, r: int) -> int {
    let tx = t % tiles_across(img, tile_size);
    let ty = t / tiles_across(img, tile_size);
    let src_row = ty * tile_size.y + (tile_size.y - 1 - r);
    (src_row * img.size.x + tx * tile_size.x) * img.format.pixel_size
}

/// Row `r` of the packed tile `t`.
pub open spec fn tile_row(img: SourceImage, tile_size: UVec2, t: int, r: int) -> Seq<u8> {
    img.data@.subrange(
        row_start(img, tile_size, t, r),
        row_start(img, tile_size, t, r) + row_len(img, tile_size),
    )
}

/// The first `n` rows of the packed tile `t`.
pub open spec fn tile_rows(img: SourceImage, tile_size: UVec2, t: int, n: nat) -> Seq<u8>
    decreases n,
{
    if n == 0 {
        Seq::empty()
    } else {
        tile_rows(img, tile_size, t, (n - 1) as nat) + tile_row(img, tile_size, t, n - 1)
    }
}

/// The first `n` packed tiles of the image.
pub open spec fn packed_tiles(img: SourceImage, tile_size: UVec2, n: nat) -> Seq<u8>
    decreases n,
{
    if n == 0 {
        Seq::empty()
    } else {
        packed_tiles(img, tile_size, (n - 1) as nat) + tile_rows(
            img,
            tile_size,
            n - 1,
            tile_size.y as nat,
        )
    }
}

/// The image cut into tiles and packed: every whole tile, each with its pixel rows bottom
/// row first.
pub open spec fn packed(img: SourceImage, tile_size: UVec2) -> Seq<u8> {
    packed_tiles(img, tile_size, tile_count(img, tile_size) as nat)
}

/// A row of a tile lies inside the image's bytes.
pub proof fn lemma_row_in_image(img: SourceImage, tile_size: UVec2, tx: int, ty: int, r: int)
    requires
        img.wf(),
        tile_size.x >= 1,
        tile_size.y >= 1,
        0 <= tx < tiles_across(img, tile_size),
        0 <= ty < tiles_down(img, tile_size),
        0 <= r < tile_size.y,
    ensures
        ({
            let t = ty * tiles_across(img, tile_size) + tx;
            &&& t % tiles_across(img, tile_size) == tx
            &&& t / tiles_across(img, tile_size) == ty
            &&& 0 <= t < tile_count(img, tile_size)
            &&& row_start(img, tile_size, t, r) == ((ty * tile_size.y + (tile_size.y - 1 - r))
                * img.size.x + tx * tile_size.x) * img.format.pixel_size
            &&& 0 <= row_start(img, tile_size, t, r)
            &&& row_start(img, tile_size, t, r) + row_len(img, tile_size) <= img.data@.len()
            &&& 0 <= ty * tile_size.y + (tile_size.y - 1 - r) < img.size.y
            &&& 0 <= tx * tile_size.x
            &&& tx * tile_size.x + tile_size.x <= img.size.x
            &&& 0 <= ty * tile_size.y
            &&& 0 <= (ty * tile_size.y + (tile_size.y - 1 - r)) * img.size.x
            &&& (ty * tile_size.y + (tile_size.y - 1 - r)) * img.size.x + tx * tile_size.x
                + tile_size.x <= img.data@.len()
            &&& 0 <= row_len(img, tile_size) <= img.data@.len()
        }),
{
    let across = tiles_across(img, tile_size);
    let down = tiles_down(img, tile_size);
    let w = img.size.x as int;
    let h = img.size.y as int;
    let tw = tile_size.x as int;
    let th = tile_size.y as int;
    let px = img.format.pixel_size as int;
    let t = ty * across + tx;
    lemma_fundamental_div_mod_converse(t, across, ty, tx);
    let src_row = ty * th + (th - 1 - r);
    assert(across * tw <= w && down * th <= h) by (nonlinear_arith)
        requires
            across == w / tw,
            down == h / th,
            tw >= 1,
            th >= 1,
            w >= 0,
            h >= 0,
    {
        assert(w == tw * (w / tw) + w % tw);
        assert(h == th * (h / th) + h % th);
    }
    assert(0 <= tx * tw && tx * tw + tw <= across * tw) by (nonlinear_arith)
        requires
            0 <= tx < across,
            tw >= 1,
    {
        assert((tx + 1) * tw <= across * tw);
    }
    assert(0 <= src_row < down * th) by (nonlinear_arith)
        requires
            0 <= ty < down,
            0 <= r < th,
            src_row == ty * th + (th - 1 - r),
    {
        assert((ty + 1) * th <= down * th);
    }
    assert(0 <= t < across * down) by (nonlinear_arith)
        requires
            0 <= tx < across,
            0 <= ty < down,
            t == ty * across + tx,
    {
        assert((ty + 1) * across <= down * across);
    }
    assert(0 <= ty * th) by (nonlinear_arith)
        requires
            0 <= ty,
            1 <= th,
    ;
    assert(0 <= src_row * w && src_row * w + w <= w * h) by (nonlinear_arith)
        requires
            0 <= src_row < h,
            0 <= w,
    {
        assert((src_row + 1) * w <= h * w);
    }
    let cells = src_row * w + tx * tw;
    assert(0 <= cells && cells + tw <= w * h);
    assert(0 <= cells * px && cells * px + tw * px <= w * h * px && w * h <= w * h * px && 0 <= tw
        * px <= w * h * px) by (nonlinear_arith)
        requires
            0 <= cells,
            cells + tw <= w * h,
            1 <= tw,
            px >= 1,
    {
        assert((cells + tw) * px <= (w * h) * px);
        assert((cells + tw) * px == cells * px + tw * px);
    }
}

/// Appends the packed tiles of `img` to `dest`: the image's whole tiles, along the image's
/// rows of tiles, each tile with its pixel rows bottom row first.
pub fn make_into_tiles(dest: &mut Vec<u8>, img: &SourceImage, tile_size: UVec2)
    requires
        img.wf(),
        tile_size.x >= 1,
        tile_size.y >= 1,
    ensures
        final(dest)@ == old(dest)@ + packed(*img, tile_size),
{
    let total = img.data.len();
    let px = img.format.pixel_size as usize;
    let w = img.size.x as usize;
    let tw = tile_size.x as usize;
    let th = tile_size.y as usize;
    let across = (img.size.x / tile_size.x) as usize;
    let down = (img.size.y / tile_size.y) as usize;
    if across == 0 || down == 0 {
        assert(tile_count(*img, tile_size) == 0) by (nonlinear_arith)
            requires
                tiles_across(*img, tile_size) == 0 || tiles_down(*img, tile_size) == 0,
                tile_count(*img, tile_size) == tiles_across(*img, tile_size) * tiles_down(
                    *img,
                    tile_size,
                ),
        ;
        assert(dest@ =~= old(dest)@ + packed(*img, tile_size));
        return ;
    }
    proof {
        lemma_row_in_image(*img, tile_size, 0, 0, 0);
    }
    let len = tw * px;
    let mut ty: usize = 0;
    while ty < down
        invariant
            img.wf(),
            total == img.data@.len(),
            tile_size.x >= 1,
            tile_size.y >= 1,
            px == img.format.pixel_size,
            w == img.size.x,
            tw == tile_size.x,
            th == tile_size.y,
            across == tiles_across(*img, tile_size),
            down == tiles_down(*img, tile_size),
            across > 0,
            len == row_len(*img, tile_size),
            ty <= down,
            0 <= ty * across,
            dest@ == old(dest)@ + packed_tiles(*img, tile_size, (ty * across) as nat),
        decreases down - ty,
    {
        let mut tx: usize = 0;
        while tx < across
            invariant
                img.wf(),
                total == img.data@.len(),
                tile_size.x >= 1,
                tile_size.y >= 1,
                px == img.format.pixel_size,
                w == img.size.x,
                tw == tile_size.x,
                th == tile_size.y,
                across == tiles_across(*img, tile_size),
                down == tiles_down(*img, tile_size),
                len == row_len(*img, tile_size),
                ty < down,
                tx <= across,
                0 <= ty * across + tx,
                dest@ == old(dest)@ + packed_tiles(*img, tile_size, (ty * across + tx) as nat),
            decreases across - tx,
        {
            let ghost t: int = ty * across + tx;
            let ghost tiles_before = dest@;
            let mut r: usize = 0;
            while r < th
                invariant
                    img.wf(),
                    total == img.data@.len(),
                    tile_size.x >= 1,
                    tile_size.y >= 1,
                    px == img.format.pixel_size,
                    w == img.size.x,
                    tw == tile_size.x,
                    th == tile_size.y,
                    across == tiles_across(*img, tile_size),
                    down == tiles_down(*img, tile_size),
                    len == row_len(*img, tile_size),
                    ty < down,
                    tx < across,
                    t == ty * across + tx,
                    r <= th,
                    dest@ == tiles_before + tile_rows(*img, tile_size, t, r as nat),
                decreases th - r,
            {
                proof {
                    lemma_row_in_image(*img, tile_size, tx as int, ty as int, r as int);
                }
                let src_row = ty * th + (th - 1 - r);
                let start = (src_row * w + tx * tw) * px;
                let ghost rows_before = dest@;
                let mut k: usize = 0;
                while k < len
                    invariant
                        k <= len,
                        total == img.data@.len(),
                        start + len <= img.data@.len(),
                        dest@ == rows_before + img.data@.subrange(start as int, start + k),
                    decreases len - k,
                {
                    dest.push(img.data[start + k]);
                    k += 1;
                    assert(dest@ =~= rows_before + img.data@.subrange(start as int, start + k));
                }
                r += 1;
                assert(dest@ =~= tiles_before + tile_rows(*img, tile_size, t, r as nat));
            }
            tx += 1;
            assert(dest@ =~= old(dest)@ + packed_tiles(*img, tile_size, (ty * across + tx) as nat));
        }
        ty += 1;
        assert((ty - 1) * across + across == ty * across) by (nonlinear_arith);
    }
    assert(ty * across == tile_count(*img, tile_size)) by (nonlinear_arith)
        requires
            ty == tiles_down(*img, tile_size),
            across == tiles_across(*img, tile_size),
            tile_count(*img, tile_size) == tiles_across(*img, tile_size) * tiles_down(
                *img,
                tile_size,
            ),
    ;
}

/// The first `n` rows of a packed tile take `n` row lengths.
pub proof fn lemma_tile_rows_len(img: SourceImage, tile_size: UVec2, t: int, n: nat)
    requires
        img.wf(),
        tile_size.x >= 1,
        tile_size.y >= 1,
        0 <= t < tile_count(img, tile_size),
        n <= tile_size.y,
    ensures
        tile_rows(img, tile_size, t, n).len() == n * row_len(img, tile_size),
    decreases n,
{
    let across = tiles_across(img, tile_size);
    let down = tiles_down(img, tile_size);
    if n > 0 {
        lemma_tile_rows_len(img, tile_size, t, (n - 1) as nat);
        assert(across > 0 && down > 0) by (nonlinear_arith)
            requires
                0 <= t < across * down,
                across >= 0,
        ;
        let tx = t % across;
        let ty = t / across;
        assert(0 <= ty < down) by (nonlinear_arith)
            requires
                0 <= t < across * down,
                across > 0,
                ty == t / across,
        {
            assert(t == across * (t / across) + t % across);
            assert(0 <= t % across < across);
            if ty >= down {
                assert(across * ty >= across * down);
            }
        }
        assert(ty * across + tx == t) by (nonlinear_arith)
            requires
                across > 0,
                tx == t % across,
                ty == t / across,
        {
            assert(t == across * (t / across) + t % across);
        }
        lemma_row_in_image(img, tile_size, tx, ty, n - 1);
        assert(tile_row(img, tile_size, t, n - 1).len() == row_len(img, tile_size));
        assert((n - 1) * row_len(img, tile_size) + row_len(img, tile_size) == n * row_len(
            img,
            tile_size,
        )) by (nonlinear_arith);
    } else {
        assert(n * row_len(img, tile_size) == 0) by (nonlinear_arith)
            requires
                n == 0,
        ;
    }
}

/// The first `n` packed tiles take `n` tile lengths, and no fewer than `n` bytes.
pub proof fn lemma_packed_tiles_len(img: SourceImage, tile_size: UVec2, n: nat)
    requires
        img.wf(),
        tile_size.x >= 1,
        tile_size.y >= 1,
        n <= tile_count(img, tile_size),
    ensures
        packed_tiles(img, tile_size, n).len() == n * (tile_size.y * row_len(img, tile_size)),
        n <= packed_tiles(img, tile_size, n).len(),
    decreases n,
{
    let tile_len = tile_size.y * row_len(img, tile_size);
    assert(tile_len >= 1) by (nonlinear_arith)
        requires
            tile_len == tile_size.y * (tile_size.x * img.format.pixel_size),
            tile_size.x >= 1,
            tile_size.y >= 1,
            img.format.pixel_size >= 1,
    ;
    if n > 0 {
        lemma_packed_tiles_len(img, tile_size, (n - 1) as nat);
        lemma_tile_rows_len(img, tile_size, n - 1, tile_size.y as nat);
        assert((n - 1) * tile_len + tile_len == n * tile_len) by (nonlinear_arith);
    } else {
        assert(n * tile_len == 0) by (nonlinear_arith)
            requires
                n == 0,
        ;
    }
    assert(n <= n * tile_len) by (nonlinear_arith)
        requires
            tile_len >= 1,
            n >= 0,
    ;
}

/// The rows of a packed tile stand one after the other: the first `m` rows are the start
/// of the first `n`, for `m` up to `n`.
pub proof fn lemma_tile_rows_prefix(img: SourceImage, tile_size: UVec2, t: int, m: nat, n: nat)
    requires
        img.wf(),
        tile_size.x >= 1,
        tile_size.y >= 1,
        0 <= t < tile_count(img, tile_size),
        m <= n <= tile_size.y,
    ensures
        tile_rows(img, tile_size, t, n).subrange(0, m * row_len(img, tile_size)) == tile_rows(
            img,
            tile_size,
            t,
            m,
        ),
    decreases n,
{
    let len = row_len(img, tile_size);
    lemma_tile_rows_len(img, tile_size, t, n);
    lemma_tile_rows_len(img, tile_size, t, m);
    if m == n {
        assert(tile_rows(img, tile_size, t, n).subrange(0, m * len) =~= tile_rows(
            img,
            tile_size,
            t,
            m,
        ));
    } else {
        let shorter = tile_rows(img, tile_size, t, (n - 1) as nat);
        lemma_tile_rows_len(img, tile_size, t, (n - 1) as nat);
        lemma_tile_rows_prefix(img, tile_size, t, m, (n - 1) as nat);
        assert(m * len <= (n - 1) * len) by (nonlinear_arith)
            requires
                m <= n - 1,
                len >= 0,
        ;
        assert(tile_rows(img, tile_size, t, n).subrange(0, m * len) =~= shorter.subrange(
            0,
            m * len,
        ));
    }
}

/// The packed tiles stand one after the other: the first `m` tiles are the start of the
/// first `n`, for `m` up to `n`.
pub proof fn lemma_packed_tiles_prefix(img: SourceImage, tile_size: UVec2, m: nat, n: nat)
    requires
        img.wf(),
        tile_size.x >= 1,
        tile_size.y >= 1,
        m <= n <= tile_count(img, tile_size),
    ensures
        packed_tiles(img, tile_size, n).subrange(
            0,
            m * (tile_size.y * row_len(img, tile_size)),
        ) == packed_tiles(img, tile_size, m),
    decreases n,
{
    let len = tile_size.y * row_len(img, tile_size);
    lemma_packed_tiles_len(img, tile_size, n);
    lemma_packed_tiles_len(img, tile_size, m);
    if m == n {
        assert(packed_tiles(img, tile_size, n).subrange(0, m * len) =~= packed_tiles(
            img,
            tile_size,
            m,
        ));
    } else {
        let shorter = packed_tiles(img, tile_size, (n - 1) as nat);
        lemma_packed_tiles_len(img, tile_size, (n - 1) as nat);
        lemma_packed_tiles_prefix(img, tile_size, m, (n - 1) as nat);
        assert(0 <= m * len <= (n - 1) * len) by (nonlinear_arith)
            requires
                0 <= m <= n - 1,
                len >= 0,
        ;
        assert(packed_tiles(img, tile_size, n).subrange(0, m * len) =~= shorter.subrange(
            0,
            m * len,
        ));
    }
}

/// Where a row of a tile lies in the packed bytes: layer `t` of the texture is tile `t`,
/// and row `r` of the layer is the tile's pixel row `tile_size.y - 1 - r`, cut out of the
/// image at the tile's column.
pub proof fn lemma_packed_row(img: SourceImage, tile_size: UVec2, t: int, r: int)
    requires
        img.wf(),
        tile_size.x >= 1,
        tile_size.y >= 1,
        0 <= t < tile_count(img, tile_size),
        0 <= r < tile_size.y,
    ensures
        packed(img, tile_size).len() == tile_count(img, tile_size) * (tile_size.y * row_len(
            img,
            tile_size,
        )),
        0 <= (t * tile_size.y + r) * row_len(img, tile_size),
        (t * tile_size.y + r) * row_len(img, tile_size) + row_len(img, tile_size) <= packed(
            img,
            tile_size,
        ).len(),
        packed(img, tile_size).subrange(
            (t * tile_size.y + r) * row_len(img, tile_size),
            (t * tile_size.y + r) * row_len(img, tile_size) + row_len(img, tile_size),
        ) == tile_row(img, tile_size, t, r),
{
    let len = row_len(img, tile_size);
    let th = tile_size.y as int;
    let tile_len = th * len;
    let count = tile_count(img, tile_size);
    let all = packed(img, tile_size);
    lemma_packed_tiles_len(img, tile_size, count as nat);
    lemma_packed_tiles_len(img, tile_size, (t + 1) as nat);
    lemma_packed_tiles_len(img, tile_size, t as nat);
    lemma_packed_tiles_prefix(img, tile_size, (t + 1) as nat, count as nat);
    lemma_tile_rows_len(img, tile_size, t, th as nat);
    lemma_tile_rows_len(img, tile_size, t, (r + 1) as nat);
    lemma_tile_rows_len(img, tile_size, t, r as nat);
    lemma_tile_rows_prefix(img, tile_size, t, (r + 1) as nat, th as nat);
    let upto = packed_tiles(img, tile_size, (t + 1) as nat);
    let before = packed_tiles(img, tile_size, t as nat);
    let rows = tile_rows(img, tile_size, t, th as nat);
    let rows_upto = tile_rows(img, tile_size, t, (r + 1) as nat);
    let rows_before = tile_rows(img, tile_size, t, r as nat);
    let row = tile_row(img, tile_size, t, r);
    assert(upto == before + rows);
    assert(rows_upto == rows_before + row);
    assert(len >= 0 && 0 <= t * tile_len && (t + 1) * tile_len == t * tile_len + tile_len && (t
        + 1) * tile_len <= count * tile_len && (r + 1) * len == r * len + len && 0 <= r * len && (r
        + 1) * len <= tile_len && (t * th + r) * len == t * tile_len + r * len) by (nonlinear_arith)
        requires
            0 <= t < count,
            0 <= r < th,
            len == tile_size.x * img.format.pixel_size,
            tile_len == th * len,
    {
        assert(len >= 0);
        assert((r + 1) * len <= th * len);
        assert((t + 1) * tile_len <= count * tile_len);
        assert((t * th) * len == t * (th * len));
    }
    let start = t * tile_len + r * len;
    assert(row.len() == len);
    assert(all.subrange(start, start + len) =~= row) by {
        assert(all.subrange(0, (t + 1) * tile_len) == upto);
        assert forall|k: int| 0 <= k < len implies all.subrange(start, start + len)[k] == row[k] by {
            assert(all[start + k] == all.subrange(0, (t + 1) * tile_len)[start + k]);
            assert(upto[start + k] == rows[r * len + k]);
            assert(rows.subrange(0, (r + 1) * len) == rows_upto);
            assert(rows[r * len + k] == rows.subrange(0, (r + 1) * len)[r * len + k]);
            assert(rows_upto[r * len + k] == row[k]);
        }
    }
}

/// The layers of a packed sheet: the bytes packed from images of one pixel size are as many
/// tile lengths as the images hold tiles.
pub proof fn lemma_layer_count(
    handles: Seq<u64>,
    images: Map<u64, SourceImage>,
    tile_size: UVec2,
    pixel_size: int,
)
    requires
        tile_size.x >= 1,
        tile_size.y >= 1,
        forall|i: int|
            0 <= i < handles.len() && images.contains_key(#[trigger] handles[i]) ==> images[handles[i]].wf()
                && images[handles[i]].format.pixel_size == pixel_size,
    ensures
        layer_count(handles, images, tile_size) >= 0,
        packed_all(handles, images, tile_size).len() == layer_count(handles, images, tile_size) * (
        tile_size.y * (tile_size.x * pixel_size)),
    decreases handles.len(),
{
    let tile_len = tile_size.y * (tile_size.x * pixel_size);
    if handles.len() == 0 {
        assert(0 * tile_len == 0) by (nonlinear_arith);
    } else {
        let rest = handles.drop_last();
        assert forall|i: int| 0 <= i < rest.len() && images.contains_key(#[trigger] rest[i]) implies images[rest[i]].wf()
            && images[rest[i]].format.pixel_size == pixel_size by {
            assert(rest[i] == handles[i]);
        }
        lemma_layer_count(rest, images, tile_size, pixel_size);
        let before = layer_count(rest, images, tile_size);
        if images.contains_key(handles.last()) {
            let img = images[handles.last()];
            assert(handles.last() == handles[handles.len() - 1]);
            let count = tile_count(img, tile_size);
            assert(count >= 0) by (nonlinear_arith)
                requires
                    count == (img.size.x as int / tile_size.x as int) * (img.size.y as int
                        / tile_size.y as int),
                    tile_size.x >= 1,
                    tile_size.y >= 1,
            ;
            lemma_packed_tiles_len(img, tile_size, count as nat);
            assert((before + count) * tile_len == before * tile_len + count * tile_len)
                by (nonlinear_arith);
        } else {
            assert(packed_all(handles, images, tile_size) =~= packed_all(rest, images, tile_size));
        }
    }
}

/// The handles grow from each to the next, so that none occurs twice.
pub open spec fn strictly_increasing(handles: Seq<u64>) -> bool {
    forall|i: int, j: int| 0 <= i < j < handles.len() ==> handles[i] < handles[j]
}

/// The packed tiles of the loaded images among `handles`, image after image.
pub open spec fn packed_all(handles: Seq<u64>, images: Map<u64, SourceImage>, tile_size: UVec2) -> Seq<u8>
    decreases handles.len(),
{
    if handles.len() == 0 {
        Seq::empty()
    } else {
        packed_all(handles.drop_last(), images, tile_size) + (if images.contains_key(handles.last()) {
            packed(images[handles.last()], tile_size)
        } else {
            Seq::empty()
        })
    }
}

/// The number of tiles of the loaded images among `handles`.
pub open spec fn layer_count(handles: Seq<u64>, images: Map<u64, SourceImage>, tile_size: UVec2) -> int
    decreases handles.len(),
{
    if handles.len() == 0 {
        0
    } else {
        layer_count(handles.drop_last(), images, tile_size) + (if images.contains_key(handles.last()) {
            tile_count(images[handles.last()], tile_size)
        } else {
            0
        })
    }
}

/// The format of the first loaded image among `handles`.
pub open spec fn first_format(handles: Seq<u64>, images: Map<u64, SourceImage>) -> Option<PixelFormat>
    decreases handles.len(),
{
    if handles.len() == 0 {
        None
    } else {
        match first_format(handles.drop_last(), images) {
            Some(format) => Some(format),
            None => if images.contains_key(handles.last()) {
                Some(images[handles.last()].format)
            } else {
                None
            },
        }
    }
}

/// Adds `handle` to a list that grows from each handle to the next, at its place; a handle
/// that the list holds is not added again.
pub fn insert_sorted(handles: &mut Vec<u64>, handle: u64)
    requires
        strictly_increasing(old(handles)@),
    ensures
        strictly_increasing(final(handles)@),
        forall|h: u64| final(handles)@.contains(h) <==> (old(handles)@.contains(h) || h == handle),
{
    let mut at: usize = 0;
    while at < handles.len() && handles[at] < handle
        invariant
            at <= handles.len(),
            handles@ == old(handles)@,
            forall|i: int| 0 <= i < at ==> handles@[i] < handle,
        decreases handles.len() - at,
    {
        at += 1;
    }
    if at < handles.len() && handles[at] == handle {
        assert(handles@.contains(handle));
    } else {
        handles.insert(at, handle);
        proof {
            let before = old(handles)@;
            let after = handles@;
            assert forall|h: u64| after.contains(h) <==> (before.contains(h) || h == handle) by {
                if before.contains(h) {
                    let i = choose|i: int| 0 <= i < before.len() && before[i] == h;
                    if i < at {
                        assert(after[i] == h);
                    } else {
                        assert(after[i + 1] == h);
                    }
                }
                if h == handle {
                    assert(after[at as int] == h);
                }
                if after.contains(h) {
                    let i = choose|i: int| 0 <= i < after.len() && after[i] == h;
                    if i < at {
                        assert(before[i] == h);
                    } else if i > at {
                        assert(before[i - 1] == h);
                    }
                }
            }
            assert forall|i: int, j: int| 0 <= i < j < after.len() implies after[i] < after[j] by {
                if j < at {
                } else if j == at {
                } else if i < at {
                    assert(after[j] == before[j - 1]);
                    assert(before[at as int] > handle);
                    if j - 1 > at {
                        assert(before[at as int] < before[j - 1]);
                    }
                } else if i == at {
                    assert(after[j] == before[j - 1]);
                    if j - 1 > at {
                        assert(before[at as int] < before[j - 1]);
                    }
                } else {
                    assert(after[i] == before[i - 1]);
                    assert(after[j] == before[j - 1]);
                }
            }
        }
    }
}

/// What the renderer needs to allocate the sheet's texture: one layer per tile.
#[derive(Clone, Copy, Debug, PartialEq, Eq, Structural)]
pub struct AtlasLayout {
    /// Width and height of a layer in pixels.
    pub tile_size: UVec2,
    /// The number of layers.
    pub array_count: u32,
    pub format: PixelFormat,
}

/// Why a sheet cannot be handed to the renderer.
#[derive(Clone, Copy, Debug, PartialEq, Eq, Structural)]
pub enum PrepareAssetError {
    /// No image of the sheet is loaded yet: ask again at the next update.
    RetryNextUpdate,
}

/// Source images cut into tiles of one size and packed into the layers of one texture.
#[derive(Clone, Debug)]
pub struct TileSheet {
    /// The handles of the source images, each once, in growing order.
    pub tile_sets: Vec<u64>,
    /// Width and height of a tile in pixels.
    pub tile_size: UVec2,
    /// The packed tiles, layer after layer.
    pub tile_data: Vec<u8>,
    /// The number of layers.
    pub array_count: u32,
    /// The format of the packed pixels, once an image is loaded.
    pub format: Option<PixelFormat>,
}

impl TileSheet {
    /// Whether one of the sheet's images is among `updated`.
    pub open spec fn touched_by(&self, updated: Set<u64>) -> bool {
        exists|i: int| 0 <= i < self.tile_sets@.len() && updated.contains(#[trigger] self.tile_sets@[i])
    }

    /// Whether the sheet can be packed from `images`: tiles have at least one pixel each way,
    /// and the sheet's loaded images hold their pixels and share one format.
    pub open spec fn can_pack(&self, images: Map<u64, SourceImage>) -> bool {
        &&& self.tile_size.x >= 1
        &&& self.tile_size.y >= 1
        &&& forall|i: int|
            0 <= i < self.tile_sets@.len() && images.contains_key(#[trigger] self.tile_sets@[i])
                ==> images[self.tile_sets@[i]].wf()
        &&& forall|i: int, j: int|
            0 <= i < self.tile_sets@.len() && 0 <= j < self.tile_sets@.len()
                && images.contains_key(#[trigger] self.tile_sets@[i]) && images.contains_key(
                #[trigger] self.tile_sets@[j],
            ) ==> images[self.tile_sets@[i]].format == images[self.tile_sets@[j]].format
    }

    /// Whether the sheet can be packed from `images`.
    pub fn check_can_pack(&self, images: &HashMap<u64, SourceImage>) -> (b: bool)
        ensures
            b == self.can_pack(images@),
    {
        if self.tile_size.x < 1 || self.tile_size.y < 1 {
            return false;
        }
        let mut format: Option<PixelFormat> = None;
        let ghost mut first: int = 0;
        let mut i: usize = 0;
        while i < self.tile_sets.len()
            invariant
                i <= self.tile_sets.len(),
                forall|j: int|
                    0 <= j < i && images@.contains_key(#[trigger] self.tile_sets@[j])
                        ==> images@[self.tile_sets@[j]].wf() && format == Some(
                        images@[self.tile_sets@[j]].format,
                    ),
                format is Some ==> 0 <= first < i && images@.contains_key(self.tile_sets@[first])
                    && format == Some(images@[self.tile_sets@[first]].format),
            decreases self.tile_sets.len() - i,
        {
            match images.get(&self.tile_sets[i]) {
                Some(img) => {
                    assert(images@.contains_key(self.tile_sets@[i as int]));
                    if !img.is_well_formed() {
                        return false;
                    }
                    match format {
                        Some(seen) => {
                            if seen.id != img.format.id || seen.pixel_size != img.format.pixel_size {
                                assert(images@[self.tile_sets@[first]].format != images@[self.tile_sets@[i as int]].format);
                                return false;
                            }
                        },
                        None => {
                            format = Some(img.format);
                            proof {
                                first = i as int;
                            }
                        },
                    }
                },
                None => {},
            }
            i += 1;
        }
        true
    }

    /// A sheet over the given images, not packed yet. The handles are kept in growing order,
    /// each once, whatever order they are given in.
    pub fn new(tile_sets: Vec<u64>, tile_size: UVec2) -> (sheet: TileSheet)
        ensures
            strictly_increasing(sheet.tile_sets@),
            forall|h: u64| sheet.tile_sets@.contains(h) <==> tile_sets@.contains(h),
            sheet.tile_size == tile_size,
            sheet.tile_data@.len() == 0,
            sheet.array_count == 0,
            sheet.format is None,
    {
        let mut handles: Vec<u64> = Vec::new();
        let mut i: usize = 0;
        while i < tile_sets.len()
            invariant
                i <= tile_sets.len(),
                strictly_increasing(handles@),
                forall|h: u64|
                    handles@.contains(h) <==> exists|j: int| 0 <= j < i && tile_sets@[j] == h,
            decreases tile_sets.len() - i,
        {
            let ghost before = handles@;
            insert_sorted(&mut handles, tile_sets[i]);
            proof {
                assert forall|h: u64|
                    handles@.contains(h) <==> exists|j: int| 0 <= j < i + 1 && tile_sets@[j] == h by {
                    if h == tile_sets@[i as int] {
                        assert(0 <= i < i + 1 && tile_sets@[i as int] == h);
                    }
                    if before.contains(h) {
                        let j = choose|j: int| 0 <= j < i && tile_sets@[j] == h;
                        assert(0 <= j < i + 1 && tile_sets@[j] == h);
                    }
                }
            }
            i += 1;
        }
        proof {
            assert forall|h: u64| handles@.contains(h) <==> tile_sets@.contains(h) by {
                if handles@.contains(h) {
                    let j = choose|j: int| 0 <= j < i && tile_sets@[j] == h;
                    assert(tile_sets@[j] == h);
                }
                if tile_sets@.contains(h) {
                    let j = choose|j: int| 0 <= j < tile_sets@.len() && tile_sets@[j] == h;
                    assert(0 <= j < i && tile_sets@[j] == h);
                }
            }
        }
        TileSheet { tile_sets: handles, tile_size, tile_data: Vec::new(), array_count: 0, format: None }
    }

    /// The sheet that stands in where none is given: no image, one layer of one blank pixel.
    pub fn empty() -> (sheet: TileSheet)
        ensures
            sheet.tile_sets@.len() == 0,
            sheet.tile_size == (UVec2 { x: 1, y: 1 }),
            sheet.tile_data@ == seq![0u8, 0u8, 0u8, 0u8],
            sheet.array_count == 1,
            sheet.format == Some(PixelFormat { id: DEFAULT_FORMAT, pixel_size: 4 }),
    {
        let mut tile_data: Vec<u8> = Vec::new();
        tile_data.push(0);
        tile_data.push(0);
        tile_data.push(0);
        tile_data.push(0);
        assert(tile_data@ =~= seq![0u8, 0u8, 0u8, 0u8]);
        TileSheet {
            tile_sets: Vec::new(),
            tile_size: UVec2 { x: 1, y: 1 },
            tile_data,
            array_count: 1,
            format: Some(PixelFormat { id: DEFAULT_FORMAT, pixel_size: 4 }),
        }
    }

    /// Whether one of the sheet's images is among `updated_images`.
    pub fn is_touched_by(&self, updated_images: &HandleSet) -> (b: bool)
        ensures
            b == self.touched_by(updated_images@),
    {
        let mut i: usize = 0;
        while i < self.tile_sets.len()
            invariant
                i <= self.tile_sets.len(),
                forall|j: int|
                    0 <= j < i ==> !updated_images@.contains(#[trigger] self.tile_sets@[j]),
            decreases self.tile_sets.len() - i,
        {
            if updated_images.contains(self.tile_sets[i]) {
                assert(updated_images@.contains(self.tile_sets@[i as int]));
                return true;
            }
            i += 1;
        }
        false
    }

    /// Packs the sheet anew where one of its images is among `updated_images`, and leaves it
    /// as it is where none is.
    ///
    /// Packing takes the sheet's images in the order of their handles and skips those that
    /// `images` does not hold. With at least one image loaded, the sheet then holds the
    /// packed tiles of the loaded images, one layer per tile, in the format of the images.
    /// With none loaded it has no format, and keeps its bytes and its layer count.
    pub fn update_images(&mut self, images: &HashMap<u64, SourceImage>, updated_images: &HandleSet)
        requires
            old(self).can_pack(images@),
        ensures
            final(self).tile_sets == old(self).tile_sets,
            final(self).tile_size == old(self).tile_size,
            !old(self).touched_by(updated_images@) ==> *final(self) == *old(self),
            old(self).touched_by(updated_images@) ==> final(self).format == first_format(
                old(self).tile_sets@,
                images@,
            ),
            old(self).touched_by(updated_images@) && final(self).format is Some ==> {
                &&& final(self).tile_data@ == packed_all(
                    old(self).tile_sets@,
                    images@,
                    old(self).tile_size,
                )
                &&& final(self).array_count == layer_count(
                    old(self).tile_sets@,
                    images@,
                    old(self).tile_size,
                ) as u32
            },
            old(self).touched_by(updated_images@) && final(self).format is None ==> {
                &&& final(self).tile_data == old(self).tile_data
                &&& final(self).array_count == old(self).array_count
            },
    {
        if !self.is_touched_by(updated_images) {
            return ;
        }
        let mut data: Vec<u8> = Vec::new();
        let mut count: usize = 0;
        let mut format: Option<PixelFormat> = None;
        let mut i: usize = 0;
        while i < self.tile_sets.len()
            invariant
                i <= self.tile_sets.len(),
                *self == *old(self),
                self.can_pack(images@),
                data@ == packed_all(self.tile_sets@.take(i as int), images@, self.tile_size),
                count == layer_count(self.tile_sets@.take(i as int), images@, self.tile_size),
                count <= data@.len(),
                format == first_format(self.tile_sets@.take(i as int), images@),
            decreases self.tile_sets.len() - i,
        {
            let handle = self.tile_sets[i];
            proof {
                assert(self.tile_sets@.take(i + 1).drop_last() == self.tile_sets@.take(i as int));
                assert(self.tile_sets@.take(i + 1).last() == handle);
            }
            match images.get(&handle) {
                Some(img) => {
                    proof {
                        assert(images@.contains_key(self.tile_sets@[i as int]));
                        lemma_packed_tiles_len(
                            *img,
                            self.tile_size,
                            tile_count(*img, self.tile_size) as nat,
                        );
                        assert(tile_count(*img, self.tile_size) >= 0) by (nonlinear_arith)
                            requires
                                tile_count(*img, self.tile_size) == (img.size.x as int
                                    / self.tile_size.x as int) * (img.size.y as int
                                    / self.tile_size.y as int),
                                self.tile_size.x >= 1,
                                self.tile_size.y >= 1,
                        ;
                    }
                    make_into_tiles(&mut data, img, self.tile_size);
                    let packed_len = data.len();
                    let across = (img.size.x / self.tile_size.x) as usize;
                    let down = (img.size.y / self.tile_size.y) as usize;
                    assert(count + across * down <= packed_len);
                    count = count + across * down;
                    if format.is_none() {
                        format = Some(img.format);
                    }
                },
                None => {
                    assert(data@ + Seq::<u8>::empty() =~= data@);
                },
            }
            i += 1;
        }
        assert(self.tile_sets@.take(i as int) == self.tile_sets@);
        self.format = format;
        if format.is_some() {
            self.tile_data = data;
            self.array_count = #[verifier::truncate] (count as u32);
        }
    }

    /// What the renderer needs to allocate the sheet's texture, or the request to ask again
    /// while no image of the sheet is loaded.
    pub fn prepare_asset(&self) -> (layout: Result<AtlasLayout, PrepareAssetError>)
        ensures
            layout == (match self.format {
                Some(format) => Ok(
                    AtlasLayout {
                        tile_size: self.tile_size,
                        array_count: self.array_count,
                        format,
                    },
                ),
                None => Err(PrepareAssetError::RetryNextUpdate),
            }),
    {
        match self.format {
            Some(format) => Ok(
                AtlasLayout { tile_size: self.tile_size, array_count: self.array_count, format },
            ),
            None => Err(PrepareAssetError::RetryNextUpdate),
        }
    }
}

} // verus!
