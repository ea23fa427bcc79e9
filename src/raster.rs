use vstd::prelude::*;
use image::RgbaImage;
use crate::tile::{Tiles, tiles_view};
use vstd::arithmetic::div_mod::lemma_fundamental_div_mod;

verus! {

/// An RGBA color, one byte per channel: (red, green, blue, alpha).
pub type Rgba8 = (u8, u8, u8, u8);

/// Fully transparent black, the color of a fresh canvas.
pub open spec fn transparent() -> Rgba8 {
    (0u8, 0u8, 0u8, 0u8)
}

/// An image buffer of the `image` crate, seen through `canvas_pixels` and `canvas_extent`.
#[verifier::external_body]
pub struct Canvas {
    img: RgbaImage,
}

/// The pixels of a canvas, keyed by (column, row).
pub uninterp spec fn canvas_pixels(c: Canvas) -> Map<(u32, u32), Rgba8>;

/// The width and height of a canvas.
pub uninterp spec fn canvas_extent(c: Canvas) -> (u32, u32);

/// The pixel keys of a `width` by `height` image.
pub open spec fn within(p: (u32, u32), width: u32, height: u32) -> bool {
    p.0 < width && p.1 < height
}

/// Bytes of a pixel `(x, y)` in a row-major RGBA buffer `width` pixels wide.
pub open spec fn rgba_at(data: Seq<u8>, width: int, x: int, y: int) -> Rgba8 {
    let k = (y * width + x) * 4;
    (data[k], data[k + 1], data[k + 2], data[k + 3])
}

impl Canvas {
    /// Relies on image::ImageBuffer::new: an image of the given extent whose
    /// samples are all zero; it panics when 4 * width, or that times height,
    /// overflows usize.
    #[verifier::external_body]
    fn new(width: u32, height: u32) -> (c: Canvas)
        requires
            4 * width <= usize::MAX,
            4 * width * height <= usize::MAX,
        ensures
            canvas_extent(c) == (width, height),
            canvas_pixels(c) == Map::new(
                |p: (u32, u32)| within(p, width, height),
                |p: (u32, u32)| transparent(),
            ),
    {
        Canvas { img: RgbaImage::new(width, height) }
    }

    /// Relies on image::ImageBuffer::put_pixel: replaces the one pixel at (x, y);
    /// it panics outside the image.
    #[verifier::external_body]
    fn put_pixel(&mut self, x: u32, y: u32, color: Rgba8)
        requires
            canvas_pixels(*old(self)).dom().contains((x, y)),
        ensures
            canvas_extent(*final(self)) == canvas_extent(*old(self)),
            canvas_pixels(*final(self)) == canvas_pixels(*old(self)).insert((x, y), color),
    {
        self.img.put_pixel(x, y, image::Rgba([color.0, color.1, color.2, color.3]));
    }

    /// Relies on image::ImageBuffer::into_raw: the samples, row by row, four per pixel.
    #[verifier::external_body]
    fn into_raw(self) -> (data: Vec<u8>)
        ensures
            data@.len() == 4 * canvas_extent(self).0 * canvas_extent(self).1,
            forall|x: u32, y: u32|
                within((x, y), canvas_extent(self).0, canvas_extent(self).1) ==> #[trigger] rgba_at(
                    data@,
                    canvas_extent(self).0 as int,
                    x as int,
                    y as int,
                ) == canvas_pixels(self)[(x, y)],
    {
        self.img.into_raw()
    }
}

/// Color of a palette index: 0 and 8 are transparent, the rest of each group of
/// eight runs white, black, then greys from dark to light; an index past 15 is red.
pub open spec fn palette_color(p: u8) -> Rgba8 {
    if p > 15 {
        (255u8, 0u8, 0u8, 255u8)
    } else {
        let q = p % 8;
        if q == 0 {
            (0u8, 0u8, 0u8, 0u8)
        } else if q == 1 {
            (255u8, 255u8, 255u8, 255u8)
        } else if q == 2 {
            (0u8, 0u8, 0u8, 255u8)
        } else if q == 3 {
            (42u8, 42u8, 42u8, 255u8)
        } else if q == 4 {
            (85u8, 85u8, 85u8, 255u8)
        } else if q == 5 {
            (127u8, 127u8, 127u8, 255u8)
        } else if q == 6 {
            (170u8, 170u8, 170u8, 255u8)
        } else {
            (212u8, 212u8, 212u8, 255u8)
        }
    }
}

/// Color of a palette index; only indices 0 and 8 are transparent.
pub fn palette_to_rgb(p: u8) -> (r: Rgba8)
    ensures
        r == palette_color(p),
        r.3 == (if p == 0 || p == 8 {
            0u8
        } else {
            255u8
        }),
{
    match p {
        0x0 => (0, 0, 0, 0),
        0x1 => (255, 255, 255, 255),
        0x2 => (0, 0, 0, 255),
        0x3 => (42, 42, 42, 255),
        0x4 => (85, 85, 85, 255),
        0x5 => (127, 127, 127, 255),
        0x6 => (170, 170, 170, 255),
        0x7 => (212, 212, 212, 255),
        0x8 => (0, 0, 0, 0),
        0x9 => (255, 255, 255, 255),
        0xa => (0, 0, 0, 255),
        0xb => (42, 42, 42, 255),
        0xc => (85, 85, 85, 255),
        0xd => (127, 127, 127, 255),
        0xe => (170, 170, 170, 255),
        0xf => (212, 212, 212, 255),
        _ => (255, 0, 0, 255),
    }
}

/// Tiles laid side by side in one row of the image.
pub const TILES_PER_ROW: u32 = 16;

/// Pixels along each side of a tile.
pub const TILE_LENGTH: u32 = 8;

/// Width in pixels of the image of any number of tiles at `scale`.
pub open spec fn image_width(scale: nat) -> nat {
    16 * 8 * scale
}

/// Height in pixels of the image of `n` tiles at `scale`: one band of tiles per
/// started row of sixteen.
pub open spec fn image_height(n: nat, scale: nat) -> nat {
    ((n + 15) / 16) * 8 * scale
}

/// The image of `n` tiles at `scale` has a size that u32 and usize can hold.
pub open spec fn image_fits(n: nat, scale: nat) -> bool {
    &&& image_width(scale) <= u32::MAX
    &&& image_height(n, scale) <= u32::MAX
    &&& 4 * image_width(scale) <= usize::MAX
    &&& 4 * image_width(scale) * image_height(n, scale) <= usize::MAX
}

/// Index, within the tile sequence, of the tile that unscaled pixel `(u, v)` lies in.
pub open spec fn tile_of(u: int, v: int) -> int {
    (v / 8) * 16 + u / 8
}

/// Index, within its tile, of unscaled pixel `(u, v)`.
pub open spec fn cell_of(u: int, v: int) -> int {
    (v % 8) * 8 + u % 8
}

/// Color of unscaled pixel `(u, v)` of the tile grid; cells past the last tile are transparent.
pub open spec fn source_color(tiles: Seq<Seq<u8>>, u: int, v: int) -> Rgba8 {
    if tile_of(u, v) < tiles.len() {
        palette_color(tiles[tile_of(u, v)][cell_of(u, v)])
    } else {
        transparent()
    }
}

/// Color of pixel `(x, y)` of the image of `tiles` at `scale`.
pub open spec fn composed_color(tiles: Seq<Seq<u8>>, scale: nat, x: int, y: int) -> Rgba8 {
    source_color(tiles, x / scale as int, y / scale as int)
}

/// A composed image: `data` holds `width * height` pixels, row by row, four bytes each.
pub struct RasterImage {
    pub width: u32,
    pub height: u32,
    pub data: Vec<u8>,
}

impl RasterImage {
    /// The buffer holds exactly the image's pixels.
    pub open spec fn wf(&self) -> bool {
        self.data@.len() == 4 * self.width * self.height
    }

    /// Color of pixel `(x, y)`.
    pub open spec fn pixel(&self, x: int, y: int) -> Rgba8 {
        rgba_at(self.data@, self.width as int, x, y)
    }
}

proof fn lemma_le_mul(a: int, b: int)
    requires
        a >= 0,
        b >= 1,
    ensures
        a <= a * b,
{
    assert(a <= a * b) by (nonlinear_arith)
        requires
            a >= 0,
            b >= 1,
    ;
}

/// Width and height in pixels of the image of `num_tiles` tiles at `scale`.
pub fn image_dimensions(num_tiles: usize, scale: u32) -> (r: (u32, u32))
    requires
        scale >= 1,
        image_fits(num_tiles as nat, scale as nat),
    ensures
        r.0 == image_width(scale as nat),
        r.1 == image_height(num_tiles as nat, scale as nat),
{
    let pixels_per_row: u32 = TILE_LENGTH * TILES_PER_ROW * scale;
    let rows: usize = num_tiles / 16 + if num_tiles % 16 > 0 {
        1
    } else {
        0
    };
    assert(rows == (num_tiles + 15) / 16);
    proof {
        lemma_le_mul(rows * 8, scale as int);
    }
    let height: u32 = (rows as u32) * TILE_LENGTH * scale;
    (pixels_per_row, height)
}

/// Whether the image of `num_tiles` tiles at `scale` has a size that u32 and usize can hold.
pub fn fits_image(num_tiles: usize, scale: u32) -> (r: bool)
    ensures
        r == image_fits(num_tiles as nat, scale as nat),
{
    let s = scale as u128;
    let width: u128 = 128 * s;
    let rows: u128 = (num_tiles as u128 + 15) / 16;
    assert(rows * 8 * s <= 0x1_0000_0000_0000_0000 * 0x1_0000_0000) by (nonlinear_arith)
        requires
            rows * 8 <= 0x1_0000_0000_0000_0000,
            s <= 0x1_0000_0000,
    ;
    let height: u128 = rows * 8 * s;
    if width > u32::MAX as u128 || height > u32::MAX as u128 {
        return false;
    }
    assert(4 * width * height <= 4 * 0x1_0000_0000 * 0x1_0000_0000) by (nonlinear_arith)
        requires
            width <= 0x1_0000_0000,
            height <= 0x1_0000_0000,
    ;
    4 * width <= usize::MAX as u128 && 4 * width * height <= usize::MAX as u128
}

/// `m` with the `w` by `h` rectangle at `(x, y)` painted `color`, where `m` has pixels.
pub open spec fn fill(
    m: Map<(u32, u32), Rgba8>,
    x: int,
    y: int,
    w: int,
    h: int,
    color: Rgba8,
) -> Map<(u32, u32), Rgba8> {
    Map::new(
        |p: (u32, u32)| m.dom().contains(p),
        |p: (u32, u32)|
            if x <= p.0 < x + w && y <= p.1 < y + h {
                color
            } else {
                m[p]
            },
    )
}

/// Paints the `scale` by `scale` block at `(x, y)`.
fn put_pixel_at_scale(canvas: &mut Canvas, x: u32, y: u32, color: Rgba8, scale: u32)
    requires
        x + scale <= u32::MAX,
        y + scale <= u32::MAX,
        forall|p: (u32, u32)|
            x <= p.0 < x + scale && y <= p.1 < y + scale ==> canvas_pixels(*old(canvas)).dom().contains(p),
    ensures
        canvas_extent(*final(canvas)) == canvas_extent(*old(canvas)),
        canvas_pixels(*final(canvas)) == fill(
            canvas_pixels(*old(canvas)),
            x as int,
            y as int,
            scale as int,
            scale as int,
            color,
        ),
{
    let ghost m0 = canvas_pixels(*canvas);
    let mut i: u32 = 0;
    while i < scale
        invariant
            i <= scale,
            x + scale <= u32::MAX,
            y + scale <= u32::MAX,
            forall|p: (u32, u32)| x <= p.0 < x + scale && y <= p.1 < y + scale ==> m0.dom().contains(p),
            canvas_extent(*canvas) == canvas_extent(*old(canvas)),
            m0 == canvas_pixels(*old(canvas)),
            canvas_pixels(*canvas) == fill(m0, x as int, y as int, scale as int, i as int, color),
        decreases scale - i,
    {
        let ghost m1 = canvas_pixels(*canvas);
        let mut j: u32 = 0;
        while j < scale
            invariant
                i < scale,
                j <= scale,
                x + scale <= u32::MAX,
                y + scale <= u32::MAX,
                forall|p: (u32, u32)| x <= p.0 < x + scale && y <= p.1 < y + scale ==> m0.dom().contains(p),
                canvas_extent(*canvas) == canvas_extent(*old(canvas)),
                m1 == fill(m0, x as int, y as int, scale as int, i as int, color),
                canvas_pixels(*canvas) == fill(m1, x as int, (y + i) as int, j as int, 1, color),
            decreases scale - j,
        {
            let ghost before = canvas_pixels(*canvas);
            assert(m0.dom().contains(((x + j) as u32, (y + i) as u32)));
            canvas.put_pixel(x + j, y + i, color);
            assert(canvas_pixels(*canvas) =~= fill(m1, x as int, (y + i) as int, j + 1, 1, color));
            j += 1;
        }
        assert(canvas_pixels(*canvas) =~= fill(m0, x as int, y as int, scale as int, i + 1, color));
        i += 1;
    }
}

proof fn lemma_div_block(x: int, u: int, s: int)
    requires
        s > 0,
        x >= 0,
        u >= 0,
    ensures
        (x / s == u) <==> (u * s <= x < u * s + s),
{
    lemma_fundamental_div_mod(x, s);
    let q = x / s;
    let r = x % s;
    assert((q == u) <==> (u * s <= x < u * s + s)) by (nonlinear_arith)
        requires
            x == s * q + r,
            0 <= r < s,
            s > 0,
    ;
}

proof fn lemma_div_below(x: int, n: int, s: int)
    requires
        s > 0,
        0 <= x < n * s,
    ensures
        x / s < n,
{
    lemma_fundamental_div_mod(x, s);
    let q = x / s;
    assert(q < n) by (nonlinear_arith)
        requires
            x == s * q + x % s,
            x % s >= 0,
            x < n * s,
            s > 0,
    ;
}

proof fn lemma_cell_decomp(u: int, v: int, i: int, j: int)
    requires
        0 <= u < 128,
        0 <= v,
        0 <= i,
        0 <= j < 64,
    ensures
        (u == (i % 16) * 8 + j % 8 && v == (i / 16) * 8 + j / 8) <==> (tile_of(u, v) == i
            && cell_of(u, v) == j),
        0 <= cell_of(u, v) < 64,
        0 <= tile_of(u, v),
{
}

/// The canvas after the first `k` pixels of the tile sequence, in tile order, are painted.
spec fn painted(tiles: Seq<Seq<u8>>, scale: nat, width: u32, height: u32, k: int) -> Map<
    (u32, u32),
    Rgba8,
> {
    Map::new(
        |p: (u32, u32)| within(p, width, height),
        |p: (u32, u32)|
            {
                let u = p.0 as int / scale as int;
                let v = p.1 as int / scale as int;
                if tile_of(u, v) * 64 + cell_of(u, v) < k {
                    source_color(tiles, u, v)
                } else {
                    transparent()
                }
            },
    )
}

proof fn lemma_paint_step(
    tiles: Seq<Seq<u8>>,
    scale: nat,
    width: u32,
    height: u32,
    i: int,
    j: int,
    x: int,
    y: int,
)
    requires
        scale >= 1,
        width == image_width(scale),
        height == image_height(tiles.len(), scale),
        0 <= i < tiles.len(),
        0 <= j < 64,
        tiles[i].len() == 64,
        x == ((i % 16) * 8 + j % 8) * scale,
        y == ((i / 16) * 8 + j / 8) * scale,
    ensures
        x + scale <= width,
        y + scale <= height,
        fill(
            painted(tiles, scale, width, height, i * 64 + j),
            x,
            y,
            scale as int,
            scale as int,
            palette_color(tiles[i][j]),
        ) == painted(tiles, scale, width, height, i * 64 + j + 1),
{
    let s = scale as int;
    let u0 = (i % 16) * 8 + j % 8;
    let v0 = (i / 16) * 8 + j / 8;
    let rows = (tiles.len() + 15) / 16;
    assert(v0 + 1 <= rows * 8);
    assert((u0 + 1) * s <= 128 * s && (v0 + 1) * s <= rows * 8 * s) by (nonlinear_arith)
        requires
            u0 + 1 <= 128,
            v0 + 1 <= rows * 8,
            s >= 1,
    ;
    assert(x + s == (u0 + 1) * s && y + s == (v0 + 1) * s) by (nonlinear_arith)
        requires
            x == u0 * s,
            y == v0 * s,
    ;
    let k = i * 64 + j;
    let before = painted(tiles, scale, width, height, k);
    let after = painted(tiles, scale, width, height, k + 1);
    let filled = fill(before, x, y, s, s, palette_color(tiles[i][j]));
    assert forall|p: (u32, u32)| #[trigger] filled.dom().contains(p) implies filled[p] == after[p] by {
        let u = p.0 as int / s;
        let v = p.1 as int / s;
        lemma_div_block(p.0 as int, u0, s);
        lemma_div_block(p.1 as int, v0, s);
        lemma_div_below(p.0 as int, 128, s);
        lemma_cell_decomp(u, v, i, j);
    }
    assert(filled =~= after);
}

/// Lays `tiles` out sixteen to a row, each pixel a `scale` by `scale` block of its
/// palette color; grid cells after the last tile stay transparent.
pub fn tiles_to_image(tiles: &Tiles, scale: u32) -> (r: RasterImage)
    requires
        scale >= 1,
        image_fits(tiles@.len() as nat, scale as nat),
        forall|i: int| 0 <= i < tiles@.len() ==> (#[trigger] tiles@[i])@.len() == 64,
    ensures
        r.wf(),
        r.width == image_width(scale as nat),
        r.height == image_height(tiles@.len() as nat, scale as nat),
        forall|x: int, y: int|
            0 <= x < r.width && 0 <= y < r.height ==> #[trigger] r.pixel(x, y) == composed_color(
                tiles_view(tiles@),
                scale as nat,
                x,
                y,
            ),
{
    let ghost tv = tiles_view(tiles@);
    let (width, height) = image_dimensions(tiles.len(), scale);
    let mut canvas = Canvas::new(width, height);
    assert(canvas_pixels(canvas) =~= painted(tv, scale as nat, width, height, 0));
    let mut i: usize = 0;
    while i < tiles.len()
        invariant
            i <= tiles@.len(),
            tv == tiles_view(tiles@),
            scale >= 1,
            width == image_width(scale as nat),
            height == image_height(tiles@.len() as nat, scale as nat),
            forall|t: int| 0 <= t < tiles@.len() ==> (#[trigger] tiles@[t])@.len() == 64,
            canvas_extent(canvas) == (width, height),
            canvas_pixels(canvas) == painted(tv, scale as nat, width, height, i * 64),
        decreases tiles@.len() - i,
    {
        let tile = &tiles[i];
        assert(tv[i as int] == tile@);
        let mut j: usize = 0;
        while j < 64
            invariant
                i < tiles@.len(),
                j <= 64,
                tv == tiles_view(tiles@),
                tv[i as int] == tile@,
                tile@.len() == 64,
                scale >= 1,
                width == image_width(scale as nat),
                height == image_height(tiles@.len() as nat, scale as nat),
                canvas_extent(canvas) == (width, height),
                canvas_pixels(canvas) == painted(tv, scale as nat, width, height, i * 64 + j),
            decreases 64 - j,
        {
            let u: u32 = ((i % 16) * 8 + j % 8) as u32;
            proof {
                let rows = (tiles@.len() as int + 15) / 16;
                lemma_le_mul(rows * 8, scale as int);
                assert((i / 16) * 8 + j / 8 < rows * 8);
            }
            let v: u32 = ((i / 16) * 8 + j / 8) as u32;
            proof {
                lemma_paint_step(
                    tv,
                    scale as nat,
                    width,
                    height,
                    i as int,
                    j as int,
                    (u * scale) as int,
                    (v * scale) as int,
                );
                lemma_le_mul(u as int, scale as int);
            }
            let pixel_x: u32 = u * scale;
            let pixel_y: u32 = v * scale;
            let color = palette_to_rgb(tile[j]);
            put_pixel_at_scale(&mut canvas, pixel_x, pixel_y, color, scale);
            j += 1;
        }
        i += 1;
    }
    let data = canvas.into_raw();
    let r = RasterImage { width, height, data };
    assert forall|x: int, y: int| 0 <= x < r.width && 0 <= y < r.height implies #[trigger] r.pixel(
        x,
        y,
    ) == composed_color(tv, scale as nat, x, y) by {
        let p = (x as u32, y as u32);
        assert(within(p, width, height));
        assert(rgba_at(data@, width as int, p.0 as int, p.1 as int) == canvas_pixels(canvas)[p]);
    }
    r
}

/// A pixel of a composed image that shows a tile is transparent exactly when the
/// tile's palette index there is 0 or 8, and fully opaque otherwise.
pub proof fn lemma_composed_alpha(tiles: Seq<Seq<u8>>, scale: nat, x: int, y: int)
    requires
        scale >= 1,
        x >= 0,
        y >= 0,
        tile_of(x / scale as int, y / scale as int) < tiles.len(),
    ensures
        ({
            let u = x / scale as int;
            let v = y / scale as int;
            let p = tiles[tile_of(u, v)][cell_of(u, v)];
            composed_color(tiles, scale, x, y).3 == if p == 0 || p == 8 {
                0u8
            } else {
                255u8
            }
        }),
{
}

/// Every pixel of the `scale` by `scale` block that pixel `j` of tile `i` becomes
/// shows that pixel's palette color: transparent exactly for indices 0 and 8.
pub proof fn lemma_block_color(tiles: Seq<Seq<u8>>, scale: nat, i: int, j: int, dx: int, dy: int)
    requires
        scale >= 1,
        0 <= i < tiles.len(),
        tiles[i].len() == 64,
        0 <= j < 64,
        0 <= dx < scale,
        0 <= dy < scale,
    ensures
        ({
            let x = ((i % 16) * 8 + j % 8) * scale + dx;
            let y = ((i / 16) * 8 + j / 8) * scale + dy;
            &&& composed_color(tiles, scale, x, y) == palette_color(tiles[i][j])
            &&& composed_color(tiles, scale, x, y).3 == if tiles[i][j] == 0 || tiles[i][j] == 8 {
                0u8
            } else {
                255u8
            }
        }),
{
    let s = scale as int;
    let u0 = (i % 16) * 8 + j % 8;
    let v0 = (i / 16) * 8 + j / 8;
    let x = u0 * s + dx;
    let y = v0 * s + dy;
    assert(x >= 0 && y >= 0) by (nonlinear_arith)
        requires
            u0 >= 0,
            v0 >= 0,
            s >= 1,
            dx >= 0,
            dy >= 0,
            x == u0 * s + dx,
            y == v0 * s + dy,
    ;
    lemma_div_block(x, u0, s);
    lemma_div_block(y, v0, s);
    lemma_cell_decomp(u0, v0, i, j);
}

/// Terminal colors (256-color codes) of a palette index in the text preview:
/// background, and foreground where the default would not read; `None` for an
/// index shown uncolored.
pub open spec fn ansi_spec(p: u8) -> Option<(u8, Option<u8>)> {
    if p == 0 {
        Some((18u8, None))
    } else if p == 1 {
        Some((255u8, Some(232u8)))
    } else if p == 2 {
        Some((232u8, None))
    } else if p == 3 || p == 5 {
        Some((243u8, None))
    } else if p == 4 {
        Some((246u8, None))
    } else if p == 6 {
        Some((249u8, None))
    } else if p == 7 {
        Some((252u8, None))
    } else {
        None
    }
}

/// Terminal colors of a palette index in the text preview.
pub fn ansi_colors(p: u8) -> (r: Option<(u8, Option<u8>)>)
    ensures
        r == ansi_spec(p),
{
    match p {
        0 => Some((18, None)),
        1 => Some((255, Some(232))),
        2 => Some((232, None)),
        3 => Some((243, None)),
        4 => Some((246, None)),
        5 => Some((243, None)),
        6 => Some((249, None)),
        7 => Some((252, None)),
        _ => None,
    }
}

} // verus!
