use vstd::prelude::*;
use crate::bpp::Bpp;
use vstd::arithmetic::div_mod::lemma_fundamental_div_mod_converse;

verus! {

/// An 8x8 tile: 64 palette indices in row-major order.
pub type Tile = Vec<u8>;

/// Tiles in source order.
pub type Tiles = Vec<Tile>;

/// Byte offset, within an encoded tile, of bitplane `p` (0-based) of row `r`.
pub open spec fn plane_offset(f: Bpp, r: int, p: int) -> int {
    match f {
        Bpp::_1bpp => r,
        Bpp::_2bpp => 2 * r + p,
        Bpp::_3bpp => if p < 2 { 2 * r + p } else { 16 + r },
        Bpp::_4bpp => if p < 2 { 2 * r + p } else { 16 + 2 * r + (p - 2) },
    }
}

/// Row of the bitplane byte stored at offset `k` of an encoded tile.
pub open spec fn source_row(f: Bpp, k: int) -> int {
    match f {
        Bpp::_1bpp => k,
        Bpp::_2bpp => k / 2,
        Bpp::_3bpp => if k < 16 { k / 2 } else { k - 16 },
        Bpp::_4bpp => if k < 16 { k / 2 } else { (k - 16) / 2 },
    }
}

/// Bitplane (0-based) of the byte stored at offset `k` of an encoded tile.
pub open spec fn source_plane(f: Bpp, k: int) -> int {
    match f {
        Bpp::_1bpp => 0,
        Bpp::_2bpp => k % 2,
        Bpp::_3bpp => if k < 16 { k % 2 } else { 2 },
        Bpp::_4bpp => if k < 16 { k % 2 } else { 2 + (k - 16) % 2 },
    }
}

/// Bitplane `p` of row `r` as read from `chunk`: zero for a plane the format lacks
/// and for an offset past the end of the chunk.
pub open spec fn plane_byte(chunk: Seq<u8>, f: Bpp, r: int, p: int) -> u8 {
    if p < f.planes() && plane_offset(f, r, p) < chunk.len() {
        chunk[plane_offset(f, r, p)]
    } else {
        0
    }
}

/// Whether bit `c` of `b` is set, as 0 or 1.
pub open spec fn bit_at(b: u8, c: u8) -> u8 {
    if b & (1u8 << c) == (1u8 << c) {
        1
    } else {
        0
    }
}

/// Palette index of the pixel at bit position `c` (0 is the rightmost pixel)
/// of four bitplane bytes, weighted 1, 2, 4 and 8.
pub open spec fn pixel_index(c: u8, b1: u8, b2: u8, b3: u8, b4: u8) -> u8 {
    (bit_at(b1, c) + 2 * bit_at(b2, c) + 4 * bit_at(b3, c) + 8 * bit_at(b4, c)) as u8
}

/// The tile that a chunk decodes to under format `f`.
#[verifier::opaque]
pub open spec fn decode(chunk: Seq<u8>, f: Bpp) -> Seq<u8> {
    Seq::new(
        64,
        |i: int|
            pixel_index(
                (7 - i % 8) as u8,
                plane_byte(chunk, f, i / 8, 0),
                plane_byte(chunk, f, i / 8, 1),
                plane_byte(chunk, f, i / 8, 2),
                plane_byte(chunk, f, i / 8, 3),
            ),
    )
}

/// Contribution of bitplane `p` of palette index `px` to a bitplane byte at bit `c`.
pub open spec fn plane_bit(px: u8, p: u8, c: u8) -> u8 {
    if px & (1u8 << p) == (1u8 << p) {
        1u8 << c
    } else {
        0
    }
}

/// Bitplane `p` of row `r` of `tile`, gathered from its last `n` pixels
/// (the pixel at column `7 - c` lands on bit `c`).
pub open spec fn plane_acc(tile: Seq<u8>, r: int, p: u8, n: nat) -> u8
    decreases n,
{
    if n == 0 {
        0
    } else {
        plane_acc(tile, r, p, (n - 1) as nat) | plane_bit(tile[8 * r + 8 - n], p, (n - 1) as u8)
    }
}

/// Every index of `tile` fits in format `f`.
pub open spec fn fits(tile: Seq<u8>, f: Bpp) -> bool {
    forall|i: int| 0 <= i < tile.len() ==> (#[trigger] tile[i]) < f.index_limit()
}

/// The bytes that `tile` encodes to under format `f`.
#[verifier::opaque]
pub open spec fn encode(tile: Seq<u8>, f: Bpp) -> Seq<u8> {
    Seq::new(
        f.tile_bytes(),
        |k: int| plane_acc(tile, source_row(f, k), source_plane(f, k) as u8, 8),
    )
}

/// Why a tile could not be encoded.
#[derive(Debug, Clone, Copy, PartialEq, Eq, Structural)]
pub enum EncodeError {
    /// A palette index does not fit in the format's bitplanes.
    PaletteIndexOutOfRange,
}

/// The byte at `index` of `chunk`, or 0 past its end.
fn safe_chunk_index(chunk: &[u8], index: usize) -> (r: u8)
    ensures
        r == (if index < chunk@.len() { chunk@[index as int] } else { 0 }),
{
    if index >= chunk.len() {
        return 0;
    }
    chunk[index]
}

/// Palette index of the pixel in column `c` (counted from the right) of bitplanes 1 to 4.
fn get_pixel_palette(c: u8, bp1: u8, bp2: u8, bp3: u8, bp4: u8) -> (r: u8)
    requires
        c < 8,
    ensures
        r == pixel_index(c, bp1, bp2, bp3, bp4),
{
    let mask: u8 = 1u8 << c;
    let px_bp1: u8 = if (bp1 & mask) == mask { 1 } else { 0 };
    let px_bp2: u8 = if (bp2 & mask) == mask { 2 } else { 0 };
    let px_bp3: u8 = if (bp3 & mask) == mask { 4 } else { 0 };
    let px_bp4: u8 = if (bp4 & mask) == mask { 8 } else { 0 };
    px_bp4 + px_bp3 + px_bp2 + px_bp1
}

/// Decodes one chunk into a tile. Bytes missing at the end of a short chunk read as zero.
pub fn chunk_to_tile(chunk: &[u8], bpp: Bpp) -> (tile: Tile)
    ensures
        tile@ == decode(chunk@, bpp),
        tile@.len() == 64,
        fits(tile@, bpp),
{
    proof {
        lemma_decode_fits(chunk@, bpp);
        reveal(decode);
    }
    let mut tile: Tile = Vec::new();
    let mut r: usize = 0;
    while r < 8
        invariant
            r <= 8,
            tile@ =~= decode(chunk@, bpp).subrange(0, 8 * r as int),
        decreases 8 - r,
    {
        let mut bp1: u8 = 0;
        let mut bp2: u8 = 0;
        let mut bp3: u8 = 0;
        let mut bp4: u8 = 0;
        match bpp {
            Bpp::_1bpp => {
                bp1 = safe_chunk_index(chunk, r);
            },
            Bpp::_2bpp => {
                bp1 = safe_chunk_index(chunk, r * 2);
                bp2 = safe_chunk_index(chunk, r * 2 + 1);
            },
            Bpp::_3bpp => {
                bp1 = safe_chunk_index(chunk, r * 2);
                bp2 = safe_chunk_index(chunk, r * 2 + 1);
                bp3 = safe_chunk_index(chunk, 16 + r);
            },
            Bpp::_4bpp => {
                bp1 = safe_chunk_index(chunk, r * 2);
                bp2 = safe_chunk_index(chunk, r * 2 + 1);
                bp3 = safe_chunk_index(chunk, r * 2 + 16);
                bp4 = safe_chunk_index(chunk, r * 2 + 17);
            },
        }
        assert(bp1 == plane_byte(chunk@, bpp, r as int, 0));
        assert(bp2 == plane_byte(chunk@, bpp, r as int, 1));
        assert(bp3 == plane_byte(chunk@, bpp, r as int, 2));
        assert(bp4 == plane_byte(chunk@, bpp, r as int, 3));
        // leftmost pixel first: bit 7 down to bit 0
        let mut k: u8 = 0;
        while k < 8
            invariant
                r < 8,
                k <= 8,
                bp1 == plane_byte(chunk@, bpp, r as int, 0),
                bp2 == plane_byte(chunk@, bpp, r as int, 1),
                bp3 == plane_byte(chunk@, bpp, r as int, 2),
                bp4 == plane_byte(chunk@, bpp, r as int, 3),
                tile@ =~= decode(chunk@, bpp).subrange(0, 8 * r + k),
            decreases 8 - k,
        {
            let palette = get_pixel_palette(7 - k, bp1, bp2, bp3, bp4);
            tile.push(palette);
            proof {
                reveal(decode);
                let i = 8 * r + k;
                assert(i / 8 == r as int && i % 8 == k as int);
            }
            k += 1;
        }
        r += 1;
    }
    tile
}

/// Bitplane contributions, at bit `c`, of a pixel's palette index.
fn get_pixel_bitplanes(px: &u8, c: usize, format: Bpp) -> (r: (u8, u8, u8, u8))
    requires
        c < 8,
        *px < format.index_limit(),
    ensures
        r.0 == plane_bit(*px, 0, c as u8),
        r.1 == plane_bit(*px, 1, c as u8),
        r.2 == plane_bit(*px, 2, c as u8),
        r.3 == plane_bit(*px, 3, c as u8),
{
    let mask: u8 = 1u8 << (c as u8);
    let px_bp1: u8 = if *px & 1 == 1 { mask } else { 0 };
    let px_bp2: u8 = if *px & 2 == 2 { mask } else { 0 };
    let px_bp3: u8 = if *px & 4 == 4 { mask } else { 0 };
    let px_bp4: u8 = if *px & 8 == 8 { mask } else { 0 };
    proof {
        assert(1u8 << 0u8 == 1u8 && 1u8 << 1u8 == 2u8 && 1u8 << 2u8 == 4u8 && 1u8 << 3u8 == 8u8)
            by (bit_vector);
    }
    (px_bp1, px_bp2, px_bp3, px_bp4)
}

/// Encodes one tile; fails, writing nothing, when an index does not fit the format.
pub fn tile_to_file_format(tile: &Tile, format: Bpp) -> (r: Result<Vec<u8>, EncodeError>)
    requires
        tile@.len() == 64,
    ensures
        r is Ok <==> fits(tile@, format),
        r is Ok ==> r->Ok_0@ == encode(tile@, format),
        r is Err ==> r->Err_0 == EncodeError::PaletteIndexOutOfRange,
{
    reveal(encode);
    let max = format.max_palette_index();
    let mut i: usize = 0;
    while i < 64
        invariant
            i <= 64,
            tile@.len() == 64,
            max as nat + 1 == format.index_limit(),
            forall|j: int| 0 <= j < i ==> (#[trigger] tile@[j]) < format.index_limit(),
        decreases 64 - i,
    {
        if tile[i] > max {
            return Err(EncodeError::PaletteIndexOutOfRange);
        }
        i += 1;
    }
    let bytes_per_8x8 = format.bytes_per_8x8();
    let mut tile_file_bytes: Vec<u8> = vec![0u8; bytes_per_8x8];
    let mut r: usize = 0;
    while r < 8
        invariant
            r <= 8,
            tile@.len() == 64,
            fits(tile@, format),
            tile_file_bytes@.len() == format.tile_bytes(),
            forall|k: int|
                0 <= k < format.tile_bytes() ==> #[trigger] tile_file_bytes@[k] == if source_row(
                    format,
                    k,
                ) < r {
                    encode(tile@, format)[k]
                } else {
                    0
                },
        decreases 8 - r,
    {
        let mut row_bps: (u8, u8, u8, u8) = (0, 0, 0, 0);
        let mut c: usize = 0;
        while c < 8
            invariant
                r < 8,
                c <= 8,
                tile@.len() == 64,
                fits(tile@, format),
                row_bps.0 == plane_acc(tile@, r as int, 0, c as nat),
                row_bps.1 == plane_acc(tile@, r as int, 1, c as nat),
                row_bps.2 == plane_acc(tile@, r as int, 2, c as nat),
                row_bps.3 == plane_acc(tile@, r as int, 3, c as nat),
            decreases 8 - c,
        {
            let px_bps = get_pixel_bitplanes(&tile[r * 8 + 7 - c], c, format);
            row_bps.0 = row_bps.0 | px_bps.0;
            row_bps.1 = row_bps.1 | px_bps.1;
            row_bps.2 = row_bps.2 | px_bps.2;
            row_bps.3 = row_bps.3 | px_bps.3;
            c += 1;
        }
        let ghost before = tile_file_bytes@;
        match format {
            Bpp::_1bpp => {
                tile_file_bytes[r] = row_bps.0;
            },
            Bpp::_2bpp => {
                tile_file_bytes[r * 2] = row_bps.0;
                tile_file_bytes[r * 2 + 1] = row_bps.1;
            },
            Bpp::_3bpp => {
                tile_file_bytes[r * 2] = row_bps.0;
                tile_file_bytes[r * 2 + 1] = row_bps.1;
                tile_file_bytes[16 + r] = row_bps.2;
            },
            Bpp::_4bpp => {
                tile_file_bytes[r * 2] = row_bps.0;
                tile_file_bytes[r * 2 + 1] = row_bps.1;
                tile_file_bytes[r * 2 + 16] = row_bps.2;
                tile_file_bytes[r * 2 + 17] = row_bps.3;
            },
        }
        proof {
            reveal(encode);
            assert forall|k: int| 0 <= k < format.tile_bytes() implies #[trigger] tile_file_bytes@[k]
                == if source_row(format, k) < r + 1 {
                encode(tile@, format)[k]
            } else {
                0
            } by {
                if source_row(format, k) == r as int {
                    assert(plane_offset(format, r as int, source_plane(format, k)) == k);
                } else {
                    assert(tile_file_bytes@[k] == before[k]);
                }
            }
        }
        r += 1;
    }
    proof {
        reveal(encode);
        assert(tile_file_bytes@ =~= encode(tile@, format));
    }
    Ok(tile_file_bytes)
}

proof fn lemma_plane_bit_of_index(c: u8, b1: u8, b2: u8, b3: u8, b4: u8)
    by (bit_vector)
    requires
        c < 8,
    ensures
        plane_bit(pixel_index(c, b1, b2, b3, b4), 0, c) == b1 & (1u8 << c),
        plane_bit(pixel_index(c, b1, b2, b3, b4), 1, c) == b2 & (1u8 << c),
        plane_bit(pixel_index(c, b1, b2, b3, b4), 2, c) == b3 & (1u8 << c),
        plane_bit(pixel_index(c, b1, b2, b3, b4), 3, c) == b4 & (1u8 << c),
{
}

proof fn lemma_index_limit(c: u8, b1: u8, b2: u8, b3: u8, b4: u8)
    by (bit_vector)
    requires
        c < 8,
    ensures
        pixel_index(c, b1, 0, 0, 0) < 2,
        pixel_index(c, b1, b2, 0, 0) < 4,
        pixel_index(c, b1, b2, b3, 0) < 8,
        pixel_index(c, b1, b2, b3, b4) < 16,
{
}

proof fn lemma_byte_from_bits(b: u8)
    by (bit_vector)
    ensures
        b == 0u8 | (b & (1u8 << 0u8)) | (b & (1u8 << 1u8)) | (b & (1u8 << 2u8)) | (b & (1u8
            << 3u8)) | (b & (1u8 << 4u8)) | (b & (1u8 << 5u8)) | (b & (1u8 << 6u8)) | (b & (1u8
            << 7u8)),
{
}

/// A row's bitplane byte is rebuilt from the matching bit of each of its pixels.
proof fn lemma_plane_acc_rebuilds(tile: Seq<u8>, r: int, p: u8, b: u8)
    requires
        0 <= r < 8,
        tile.len() == 64,
        forall|m: int|
            0 <= m < 8 ==> #[trigger] plane_bit(tile[8 * r + m], p, (7 - m) as u8) == b & (1u8
                << (7 - m) as u8),
    ensures
        plane_acc(tile, r, p, 8) == b,
{
    reveal_with_fuel(plane_acc, 9);
    assert(plane_bit(tile[8 * r + 7], p, (7 - 7) as u8) == b & (1u8 << (7 - 7) as u8));
    assert(plane_bit(tile[8 * r + 6], p, (7 - 6) as u8) == b & (1u8 << (7 - 6) as u8));
    assert(plane_bit(tile[8 * r + 5], p, (7 - 5) as u8) == b & (1u8 << (7 - 5) as u8));
    assert(plane_bit(tile[8 * r + 4], p, (7 - 4) as u8) == b & (1u8 << (7 - 4) as u8));
    assert(plane_bit(tile[8 * r + 3], p, (7 - 3) as u8) == b & (1u8 << (7 - 3) as u8));
    assert(plane_bit(tile[8 * r + 2], p, (7 - 2) as u8) == b & (1u8 << (7 - 2) as u8));
    assert(plane_bit(tile[8 * r + 1], p, (7 - 1) as u8) == b & (1u8 << (7 - 1) as u8));
    assert(plane_bit(tile[8 * r + 0], p, (7 - 0) as u8) == b & (1u8 << (7 - 0) as u8));
    lemma_byte_from_bits(b);
}

/// Any chunk, of any length, decodes to 64 palette indices that all fit the format.
pub proof fn lemma_decode_fits(chunk: Seq<u8>, f: Bpp)
    ensures
        decode(chunk, f).len() == 64,
        fits(decode(chunk, f), f),
{
    reveal(decode);
    let tile = decode(chunk, f);
    assert forall|i: int| 0 <= i < 64 implies (#[trigger] tile[i]) < f.index_limit() by {
        lemma_index_limit(
            (7 - i % 8) as u8,
            plane_byte(chunk, f, i / 8, 0),
            plane_byte(chunk, f, i / 8, 1),
            plane_byte(chunk, f, i / 8, 2),
            plane_byte(chunk, f, i / 8, 3),
        );
    }
}

/// Decoding then encoding a whole chunk gives the chunk back.
pub proof fn lemma_round_trip_chunk(chunk: Seq<u8>, f: Bpp)
    requires
        chunk.len() == f.tile_bytes(),
    ensures
        encode(decode(chunk, f), f) == chunk,
{
    reveal(decode);
    reveal(encode);
    let tile = decode(chunk, f);
    assert forall|k: int| 0 <= k < f.tile_bytes() implies #[trigger] encode(tile, f)[k]
        == chunk[k] by {
        let r = source_row(f, k);
        let p = source_plane(f, k);
        assert(plane_offset(f, r, p) == k);
        assert(plane_byte(chunk, f, r, p) == chunk[k]);
        assert forall|m: int| 0 <= m < 8 implies #[trigger] plane_bit(
            tile[8 * r + m],
            p as u8,
            (7 - m) as u8,
        ) == chunk[k] & (1u8 << (7 - m) as u8) by {
            let i = 8 * r + m;
            assert(i / 8 == r && i % 8 == m);
            lemma_plane_bit_of_index(
                (7 - m) as u8,
                plane_byte(chunk, f, r, 0),
                plane_byte(chunk, f, r, 1),
                plane_byte(chunk, f, r, 2),
                plane_byte(chunk, f, r, 3),
            );
        }
        lemma_plane_acc_rebuilds(tile, r, p as u8, chunk[k]);
    }
    assert(encode(tile, f) =~= chunk);
}

/// The contents of each tile of a sequence.
pub open spec fn tiles_view(tiles: Seq<Tile>) -> Seq<Seq<u8>> {
    tiles.map_values(|t: Tile| t@)
}

/// Number of tiles that `n` bytes make under format `f`: a short last chunk still
/// makes a tile.
pub open spec fn tile_count(n: nat, f: Bpp) -> nat {
    ((n + f.tile_bytes() - 1) / (f.tile_bytes() as int)) as nat
}

/// The `i`-th chunk of `bin`: `tile_bytes` bytes, fewer for a short last chunk.
pub open spec fn chunk_at(bin: Seq<u8>, f: Bpp, i: int) -> Seq<u8> {
    let t = f.tile_bytes() as int;
    let end = if (i + 1) * t <= bin.len() { (i + 1) * t } else { bin.len() as int };
    bin.subrange(i * t, end)
}

/// The tiles that a byte stream decodes to, one per chunk.
pub open spec fn decode_all(bin: Seq<u8>, f: Bpp) -> Seq<Seq<u8>> {
    Seq::new(tile_count(bin.len(), f), |i: int| decode(chunk_at(bin, f, i), f))
}

/// The bytes that a sequence of tiles encodes to, tile after tile.
pub open spec fn encode_all(tiles: Seq<Seq<u8>>, f: Bpp) -> Seq<u8>
    decreases tiles.len(),
{
    if tiles.len() == 0 {
        Seq::empty()
    } else {
        encode_all(tiles.drop_last(), f) + encode(tiles.last(), f)
    }
}

proof fn lemma_ceil_div(n: int, t: int, i: int)
    requires
        t > 0,
        i >= 0,
        i * t - t < n <= i * t,
    ensures
        (n + t - 1) / t == i,
{
    lemma_fundamental_div_mod_converse(n + t - 1, t, i, n + t - 1 - i * t);
}

/// Splits a byte stream into chunks of the format's tile size and decodes each;
/// a short last chunk is decoded as if padded with zeros.
pub fn bin_to_tiles(bin: &Vec<u8>, format: Bpp) -> (tiles: Vec<Tile>)
    ensures
        tiles_view(tiles@) == decode_all(bin@, format),
{
    let size = format.bytes_per_8x8();
    let mut tiles: Vec<Tile> = Vec::new();
    let mut start: usize = 0;
    let ghost t = size as int;
    while start < bin.len()
        invariant
            size as nat == format.tile_bytes(),
            t == size as int,
            start <= bin@.len(),
            start == tiles@.len() * t || (start == bin@.len() && bin@.len() < tiles@.len() * t),
            tiles@.len() == 0 || tiles@.len() * t - t < bin@.len(),
            forall|j: int|
                0 <= j < tiles@.len() ==> (#[trigger] tiles@[j])@ == decode(
                    chunk_at(bin@, format, j),
                    format,
                ),
        decreases bin@.len() - start,
    {
        let end: usize = if bin.len() - start >= size { start + size } else { bin.len() };
        let chunk = vstd::slice::slice_subrange(bin.as_slice(), start, end);
        let tile = chunk_to_tile(chunk, format);
        proof {
            let i = tiles@.len() as int;
            assert((i + 1) * t == i * t + t) by (nonlinear_arith);
            assert(chunk@ == chunk_at(bin@, format, i));
        }
        tiles.push(tile);
        proof {
            let i = tiles@.len() as int;
            assert(i * t == (i - 1) * t + t) by (nonlinear_arith);
        }
        start = end;
    }
    proof {
        let n = tiles@.len() as int;
        assert(n * t - t < bin@.len() <= n * t);
        lemma_ceil_div(bin@.len() as int, t, n);
        assert(tile_count(bin@.len(), format) == n);
        assert(tiles_view(tiles@) =~= decode_all(bin@, format));
    }
    tiles
}

/// Access to the pixels of a tile by column and row.
pub trait TileExt {
    /// The tile's palette indices.
    spec fn cells(&self) -> Seq<u8>;

    /// Palette index at column `x`, row `y`.
    fn get(&self, x: usize, y: usize) -> (r: u8)
        requires
            x < 8,
            y < 8,
            self.cells().len() == 64,
        ensures
            r == self.cells()[y * 8 + x],
    ;

    /// Sets the palette index at column `x`, row `y`.
    fn set(&mut self, x: usize, y: usize, val: u8)
        requires
            x < 8,
            y < 8,
            old(self).cells().len() == 64,
        ensures
            final(self).cells() == old(self).cells().update(y * 8 + x, val),
    ;
}

impl TileExt for Tile {
    open spec fn cells(&self) -> Seq<u8> {
        self@
    }

    fn get(&self, x: usize, y: usize) -> (r: u8) {
        self[y * 8 + x]
    }

    fn set(&mut self, x: usize, y: usize, val: u8) {
        self[y * 8 + x] = val;
    }
}

/// Encoding of a whole sequence of tiles.
pub trait TilesExt {
    /// The tiles' palette indices.
    spec fn tiles(&self) -> Seq<Seq<u8>>;

    /// Encodes every tile, in order; fails, returning nothing, when an index of
    /// any tile does not fit the format.
    fn to_file(&self, format: Bpp) -> (r: Result<Vec<u8>, EncodeError>)
        requires
            forall|i: int| 0 <= i < self.tiles().len() ==> (#[trigger] self.tiles()[i]).len() == 64,
        ensures
            r is Ok <==> forall|i: int|
                0 <= i < self.tiles().len() ==> fits(#[trigger] self.tiles()[i], format),
            r is Ok ==> r->Ok_0@ == encode_all(self.tiles(), format),
            r is Err ==> r->Err_0 == EncodeError::PaletteIndexOutOfRange,
    ;
}

impl TilesExt for Tiles {
    open spec fn tiles(&self) -> Seq<Seq<u8>> {
        tiles_view(self@)
    }

    fn to_file(&self, format: Bpp) -> (r: Result<Vec<u8>, EncodeError>) {
        let mut bytes: Vec<u8> = Vec::new();
        let mut i: usize = 0;
        proof {
            assert forall|j: int| 0 <= j < self@.len() implies (#[trigger] self@[j])@.len()
                == 64 by {
                assert(self.tiles()[j] == self@[j]@);
            }
        }
        while i < self.len()
            invariant
                i <= self@.len(),
                forall|j: int| 0 <= j < self@.len() ==> (#[trigger] self@[j])@.len() == 64,
                forall|j: int| 0 <= j < i ==> fits(#[trigger] self@[j]@, format),
                bytes@ == encode_all(tiles_view(self@).take(i as int), format),
            decreases self@.len() - i,
        {
            assert(tiles_view(self@)[i as int] == self@[i as int]@);
            let mut tile_file_bytes = match tile_to_file_format(&self[i], format) {
                Ok(b) => b,
                Err(e) => {
                    assert(!fits(self.tiles()[i as int], format));
                    return Err(e);
                },
            };
            bytes.append(&mut tile_file_bytes);
            proof {
                let next = tiles_view(self@).take(i + 1);
                assert(next.drop_last() =~= tiles_view(self@).take(i as int));
            }
            i += 1;
        }
        proof {
            assert(tiles_view(self@).take(i as int) =~= tiles_view(self@));
            assert forall|j: int| 0 <= j < self.tiles().len() implies fits(
                #[trigger] self.tiles()[j],
                format,
            ) by {
                assert(self.tiles()[j] == self@[j]@);
            }
        }
        Ok(bytes)
    }
}

proof fn lemma_full_chunk(bin: Seq<u8>, f: Bpp, k: int, mt: int)
    requires
        0 <= k,
        mt == (k + 1) * (f.tile_bytes() as int),
        mt <= bin.len(),
    ensures
        chunk_at(bin, f, k) == bin.subrange(mt - f.tile_bytes(), mt),
        mt - f.tile_bytes() == k * (f.tile_bytes() as int),
{
    let t = f.tile_bytes() as int;
    assert(k * t + t == mt) by (nonlinear_arith)
        requires
            mt == (k + 1) * t,
    ;
}

proof fn lemma_encode_all_push(tiles: Seq<Seq<u8>>, m: int, f: Bpp)
    requires
        0 < m <= tiles.len(),
    ensures
        encode_all(tiles.take(m), f) == encode_all(tiles.take(m - 1), f) + encode(tiles[m - 1], f),
{
    assert(tiles.take(m).drop_last() =~= tiles.take(m - 1));
}

proof fn lemma_round_trip_prefix(bin: Seq<u8>, f: Bpp, m: int, mt: int)
    requires
        0 <= m <= decode_all(bin, f).len(),
        mt == m * (f.tile_bytes() as int),
        mt <= bin.len(),
    ensures
        encode_all(decode_all(bin, f).take(m), f) == bin.take(mt),
    decreases m,
{
    let t = f.tile_bytes() as int;
    let tiles = decode_all(bin, f);
    if m == 0 {
        assert(mt == 0) by (nonlinear_arith)
            requires
                m == 0,
                mt == m * t,
        ;
        assert(bin.take(0) =~= Seq::<u8>::empty());
        assert(tiles.take(0) =~= Seq::<Seq<u8>>::empty());
    } else {
        let k = m - 1;
        let kt = mt - t;
        assert(mt == (k + 1) * t && kt == k * t) by (nonlinear_arith)
            requires
                k == m - 1,
                mt == m * t,
                kt == mt - t,
        ;
        lemma_full_chunk(bin, f, k, mt);
        lemma_round_trip_prefix(bin, f, k, kt);
        lemma_encode_all_push(tiles, m, f);
        let chunk = chunk_at(bin, f, k);
        assert(tiles[k] == decode(chunk, f));
        lemma_round_trip_chunk(chunk, f);
        assert(bin.take(kt) + chunk =~= bin.take(mt));
    }
}

/// Decoding a byte stream whose length is a whole number of tiles and encoding
/// the tiles again gives the stream back; every decoded tile holds 64 indices
/// that fit the format.
pub proof fn lemma_round_trip(bin: Seq<u8>, f: Bpp)
    requires
        bin.len() % f.tile_bytes() == 0,
    ensures
        forall|i: int|
            0 <= i < decode_all(bin, f).len() ==> (#[trigger] decode_all(bin, f)[i]).len() == 64
                && fits(decode_all(bin, f)[i], f),
        encode_all(decode_all(bin, f), f) == bin,
{
    let t = f.tile_bytes() as int;
    let n = bin.len() as int / t;
    assert(bin.len() == n * t) by {
        vstd::arithmetic::div_mod::lemma_fundamental_div_mod(bin.len() as int, t);
    }
    lemma_ceil_div(bin.len() as int, t, n);
    assert forall|i: int| 0 <= i < decode_all(bin, f).len() implies (#[trigger] decode_all(
        bin,
        f,
    )[i]).len() == 64 && fits(decode_all(bin, f)[i], f) by {
        lemma_decode_fits(chunk_at(bin, f, i), f);
    }
    lemma_round_trip_prefix(bin, f, n, n * t);
    assert(decode_all(bin, f).take(n) =~= decode_all(bin, f));
    assert(bin.take(n * t) =~= bin);
}

/// Bitplane `p` of a row of pixels `t0` (leftmost) to `t7`, each pixel on bit `7 - m`.
spec fn row_plane(t0: u8, t1: u8, t2: u8, t3: u8, t4: u8, t5: u8, t6: u8, t7: u8, p: u8) -> u8 {
    0u8 | plane_bit(t7, p, 0) | plane_bit(t6, p, 1) | plane_bit(t5, p, 2) | plane_bit(t4, p, 3)
        | plane_bit(t3, p, 4) | plane_bit(t2, p, 5) | plane_bit(t1, p, 6) | plane_bit(t0, p, 7)
}

proof fn lemma_row_plane_bits(t0: u8, t1: u8, t2: u8, t3: u8, t4: u8, t5: u8, t6: u8, t7: u8, p: u8)
    by (bit_vector)
    requires
        p < 8,
    ensures
        bit_at(row_plane(t0, t1, t2, t3, t4, t5, t6, t7, p), 0) == bit_at(t7, p),
        bit_at(row_plane(t0, t1, t2, t3, t4, t5, t6, t7, p), 1) == bit_at(t6, p),
        bit_at(row_plane(t0, t1, t2, t3, t4, t5, t6, t7, p), 2) == bit_at(t5, p),
        bit_at(row_plane(t0, t1, t2, t3, t4, t5, t6, t7, p), 3) == bit_at(t4, p),
        bit_at(row_plane(t0, t1, t2, t3, t4, t5, t6, t7, p), 4) == bit_at(t3, p),
        bit_at(row_plane(t0, t1, t2, t3, t4, t5, t6, t7, p), 5) == bit_at(t2, p),
        bit_at(row_plane(t0, t1, t2, t3, t4, t5, t6, t7, p), 6) == bit_at(t1, p),
        bit_at(row_plane(t0, t1, t2, t3, t4, t5, t6, t7, p), 7) == bit_at(t0, p),
{
}

/// Layout of an encoded tile: bit `c` of the byte at the offset of bitplane `p`
/// of row `r` is bit `p` of the pixel in column `7 - c` of that row.
pub proof fn lemma_encode_bits(tile: Seq<u8>, f: Bpp, r: int, p: int, c: u8)
    requires
        tile.len() == 64,
        0 <= r < 8,
        0 <= p < f.planes(),
        c < 8,
    ensures
        0 <= plane_offset(f, r, p) < f.tile_bytes(),
        bit_at(encode(tile, f)[plane_offset(f, r, p)], c) == bit_at(tile[8 * r + 7 - c], p as u8),
{
    reveal(encode);
    reveal_with_fuel(plane_acc, 9);
    let k = plane_offset(f, r, p);
    assert(source_row(f, k) == r && source_plane(f, k) == p);
    let b = 8 * r;
    assert(encode(tile, f)[k] == row_plane(
        tile[b],
        tile[b + 1],
        tile[b + 2],
        tile[b + 3],
        tile[b + 4],
        tile[b + 5],
        tile[b + 6],
        tile[b + 7],
        p as u8,
    ));
    lemma_row_plane_bits(
        tile[b],
        tile[b + 1],
        tile[b + 2],
        tile[b + 3],
        tile[b + 4],
        tile[b + 5],
        tile[b + 6],
        tile[b + 7],
        p as u8,
    );
}

} // verus!
