use vstd::prelude::*;
use vstd::arithmetic::div_mod::{lemma_fundamental_div_mod_converse, lemma_mod_mod, lemma_mod_multiples_vanish, lemma_small_mod};

use crate::rustman::maze_maker::{byte_channel, channel, Colour};

verus! {

/// Rows at the top of the rendered text that the banner leaves out.
pub const OFF_TOP: u32 = 11;

/// Each text pixel becomes a block this many pixels apart in the banner.
pub const GAP: u32 = 4;

/// Whether text pixel `i` (row `i / w`, column `i % w`) of the banner mask
/// is lit: the pixel `OFF_TOP` rows further down in the rendered text
/// (four bytes a pixel, alpha last) is not fully transparent.
pub open spec fn mask_bit(pixels: Seq<u8>, w: int, h: int, pitch: int, i: int) -> u8 {
    let y = i / w + OFF_TOP;
    let x = i % w;
    if y < h && pixels[y * pitch + x * 4 + 3] > 0 { 1u8 } else { 0u8 }
}

/// The rendered text is large enough for every pixel the mask reads, and
/// the offsets fit the `u32` arithmetic they are computed in.
pub open spec fn text_readable(len: int, w: int, h: int, pitch: int) -> bool {
    &&& w * h <= u32::MAX
    &&& (h > OFF_TOP && w > 0) ==> (h - 1) * pitch + (w - 1) * 4 + 3 < len && (h - 1) * pitch + (w - 1) * 4 <= u32::MAX
}

/// The banner mask of a rendered text `w` pixels wide and `h` high: one
/// byte per text pixel, 1 where the text below the top `OFF_TOP` rows shows.
pub fn title_mask(pixels: &Vec<u8>, width: u32, height: u32, pitch: u32) -> (mask: Vec<u8>)
    requires
        text_readable(pixels@.len() as int, width as int, height as int, pitch as int),
    ensures
        mask@.len() == width * height,
        forall|i: int| 0 <= i < mask@.len() ==> #[trigger] mask@[i] == mask_bit(pixels@, width as int, height as int, pitch as int, i),
{
    let plen = pixels.len();
    let size = (width * height) as usize;
    let mut mask: Vec<u8> = Vec::new();
    let mut n: usize = 0;
    while n < size
        invariant
            n <= size,
            mask@.len() == n,
            forall|i: int| 0 <= i < n ==> #[trigger] mask@[i] == 0u8,
        decreases size - n,
    {
        mask.push(0);
        n = n + 1;
    }
    let ghost w = width as int;
    let ghost h = height as int;
    let ghost p = pitch as int;
    let mut y: u32 = OFF_TOP;
    while y < height
        invariant
            w == width as int,
            h == height as int,
            p == pitch as int,
            size == w * h,
            text_readable(pixels@.len() as int, w, h, p),
            plen == pixels@.len(),
            OFF_TOP <= y <= h || (y == OFF_TOP && h <= OFF_TOP),
            mask@.len() == size,
            forall|i: int| 0 <= i < size ==> #[trigger] mask@[i] == if i / w + OFF_TOP < y { mask_bit(pixels@, w, h, p, i) } else { 0u8 },
        decreases height - y,
    {
        let mut x: u32 = 0;
        while x < width
            invariant
                w == width as int,
                h == height as int,
                p == pitch as int,
                size == w * h,
                text_readable(pixels@.len() as int, w, h, p),
                plen == pixels@.len(),
                OFF_TOP <= y < h,
                x <= w,
                mask@.len() == size,
                forall|i: int| 0 <= i < size ==> #[trigger] mask@[i] == if i / w + OFF_TOP < y || (i / w + OFF_TOP == y && i % w < x) {
                    mask_bit(pixels@, w, h, p, i)
                } else {
                    0u8
                },
            decreases width - x,
        {
            assert(y * p + x * 4 <= (h - 1) * p + (w - 1) * 4) by (nonlinear_arith)
                requires y <= h - 1, x <= w - 1, p >= 0;
            let index = (y * pitch + x * 4) as usize;
            let val = pixels[index + 3];
            assert((y - OFF_TOP) * w + x < w * h) by (nonlinear_arith)
                requires OFF_TOP <= y < h, 0 <= x < w;
            let at = ((y - OFF_TOP) * width + x) as usize;
            let ghost before = mask@;
            if val > 0 {
                mask.set(at, 1);
            }
            proof {
                lemma_fundamental_div_mod_converse(at as int, w, (y - OFF_TOP) as int, x as int);
                assert forall|i: int| 0 <= i < size implies #[trigger] mask@[i] == if i / w + OFF_TOP < y || (i / w + OFF_TOP == y && i % w < x + 1) {
                    mask_bit(pixels@, w, h, p, i)
                } else {
                    0u8
                } by {
                    if i != at {
                        assert(mask@[i] == before[i]);
                        if i / w + OFF_TOP == y && i % w == x {
                            vstd::arithmetic::div_mod::lemma_fundamental_div_mod(i, w);
                            assert(i == w * (y - OFF_TOP) + x);
                            assert(w * (y - OFF_TOP) == (y - OFF_TOP) * w) by (nonlinear_arith);
                        }
                    }
                }
            }
            x = x + 1;
        }
        y = y + 1;
    }
    proof {
        assert forall|i: int| 0 <= i < size implies #[trigger] mask@[i] == mask_bit(pixels@, w, h, p, i) by {
            if i / w + OFF_TOP >= y {
                assert(i / w + OFF_TOP >= h);
            }
        }
    }
    mask
}


/// How far right banner row `y` of a mask `h` rows high is pushed: two
/// pixels more for each row further up, which slants the lettering.
pub open spec fn slant_of(h: int, y: int) -> int {
    2 * (h - 2 - y)
}

/// Text pixel `(y, x)` of the mask is lit.
pub open spec fn lit(mask: Seq<u8>, w: int, y: int, x: int) -> bool {
    mask[y * w + x] == 1
}

/// Byte `j` lies in the two-by-two pixel block whose top left pixel is at
/// row `row`, column `px`, its columns counted on past the end of a row
/// into the next as the buffer's bytes run.
pub open spec fn block_has(pitch: int, row: int, px: int, j: int) -> bool {
    let d = j - row * pitch - px * 3;
    (0 <= d < 6) || (pitch <= d < pitch + 6)
}

/// Every byte of a block starting at column `px` gets the channel that the
/// buffer's layout gives it: the block ends inside its row, or each row
/// holds a whole number of pixels.
pub open spec fn channels_line_up(pitch: int, px: int) -> bool {
    pitch % 3 == 0 || (px + 1) * 3 + 2 < pitch
}

/// Byte `j` belongs to the block of lit text pixel `(y, x)`: text pixel
/// `(y, x)` of every row but the last becomes the two-by-two pixel block at
/// row `4y`, column `4x + slant_of(h, y)`.
pub open spec fn banner_block(mask: Seq<u8>, w: int, h: int, pitch: int, y: int, x: int, j: int) -> bool {
    &&& 0 <= y < h - 1
    &&& 0 <= x < w
    &&& lit(mask, w, y, x)
    &&& block_has(pitch, GAP * y, GAP * x + slant_of(h, y), j)
}

/// Every lit text pixel's block lies inside the buffer, gets its channels
/// right, and has offsets that fit the `u32` arithmetic they are computed in.
pub open spec fn banner_fits(mask: Seq<u8>, w: int, h: int, pitch: int, len: int) -> bool {
    forall|y: int, x: int| 0 <= y < h - 1 && 0 <= x < w && #[trigger] lit(mask, w, y, x) ==> {
        &&& channels_line_up(pitch, GAP * x + slant_of(h, y))
        &&& (GAP * y + 1) * pitch + (GAP * x + 1 + slant_of(h, y)) * 3 + 2 < len
        &&& (GAP * y + 1) * pitch + (GAP * x + 1 + slant_of(h, y)) * 3 <= u32::MAX
    }
}

/// Byte `j` of the banner belongs to the block of some lit text pixel.
pub open spec fn banner_covers(mask: Seq<u8>, w: int, h: int, pitch: int, j: int) -> bool {
    exists|y: int, x: int| #[trigger] banner_block(mask, w, h, pitch, y, x, j)
}

/// Byte `j` belongs to the block of a lit text pixel painted before pixel
/// `(cy, cx)`: rows are painted from the bottom up, each left to right.
spec fn painted_before(mask: Seq<u8>, w: int, h: int, pitch: int, j: int, cy: int, cx: int) -> bool {
    exists|y: int, x: int| (y > cy || (y == cy && x < cx)) && #[trigger] banner_block(mask, w, h, pitch, y, x, j)
}

/// The byte written at row `row`, column `px`, channel `k` holds channel
/// `k` of its pixel when the channels line up.
proof fn lemma_write_channel(pitch: int, row: int, px: int, k: int)
    requires
        pitch > 0,
        0 <= row,
        0 <= px,
        0 <= k < 3,
        pitch % 3 == 0 || px * 3 + k < pitch,
    ensures
        byte_channel(pitch, row * pitch + px * 3 + k) == k,
{
    let v = px * 3 + k;
    let j = row * pitch + px * 3 + k;
    assert(j % pitch == v % pitch) by {
        lemma_mod_multiples_vanish(row, v, pitch);
        assert(pitch * row == row * pitch) by (nonlinear_arith);
    }
    assert(v % 3 == k);
    if v < pitch {
        assert(v % pitch == v) by {
            lemma_small_mod(v as nat, pitch as nat);
        }
    } else {
        let q = pitch / 3;
        assert(3 * q == pitch);
        assert((v % (3 * q)) % 3 == v % 3) by {
            lemma_mod_mod(v, 3, q);
        }
    }
}

/// Paints the two-by-two pixel block at `(row, px)` in `colour`.
fn fill_block(buffer: &mut Vec<u8>, pitch: usize, row: usize, px: usize, colour: Colour)
    requires
        pitch > 0,
        channels_line_up(pitch as int, px as int),
        (row + 1) * pitch + (px + 1) * 3 + 2 < old(buffer)@.len(),
    ensures
        final(buffer)@.len() == old(buffer)@.len(),
        forall|j: int| 0 <= j < old(buffer)@.len() ==> #[trigger] final(buffer)@[j] ==
            if block_has(pitch as int, row as int, px as int, j) {
                channel(colour, byte_channel(pitch as int, j))
            } else {
                old(buffer)@[j]
            },
{
    let ghost b0 = buffer@;
    let ghost p = pitch as int;
    let ghost base = row * p + px * 3;
    let len = buffer.len();
    assert(row + 2 <= (row + 1) * pitch + 1) by (nonlinear_arith)
        requires pitch >= 1;
    assert((row + 1) * p == row * p + p) by (nonlinear_arith);
    let mut yy = row;
    while yy < row + 2
        invariant
            b0 == old(buffer)@,
            p == pitch as int,
            base == row * p + px * 3,
            (row + 1) * p == row * p + p,
            pitch > 0,
            channels_line_up(p, px as int),
            len == b0.len(),
            row + 2 <= len,
            buffer@.len() == b0.len(),
            (row + 1) * pitch + (px + 1) * 3 + 2 < b0.len(),
            row <= yy <= row + 2,
            forall|j: int| 0 <= j < b0.len() ==> #[trigger] buffer@[j] ==
                if (yy > row && 0 <= j - base < 6) || (yy > row + 1 && p <= j - base < p + 6) {
                    channel(colour, byte_channel(p, j))
                } else {
                    b0[j]
                },
        decreases row + 2 - yy,
    {
        let mut xx = px;
        while xx < px + 2
            invariant
                b0 == old(buffer)@,
                p == pitch as int,
                base == row * p + px * 3,
                (row + 1) * p == row * p + p,
                pitch > 0,
                channels_line_up(p, px as int),
                len == b0.len(),
                buffer@.len() == b0.len(),
                (row + 1) * pitch + (px + 1) * 3 + 2 < b0.len(),
                row <= yy < row + 2,
                px <= xx <= px + 2,
                forall|j: int| 0 <= j < b0.len() ==> #[trigger] buffer@[j] ==
                    if (yy > row && 0 <= j - base < 6) || (yy == row && 0 <= j - base < 3 * (xx - px))
                        || (yy == row + 1 && p <= j - base < p + 3 * (xx - px)) {
                        channel(colour, byte_channel(p, j))
                    } else {
                        b0[j]
                    },
            decreases px + 2 - xx,
        {
            assert(yy * pitch + xx * 3 + 2 <= (row + 1) * pitch + (px + 1) * 3 + 2) by (nonlinear_arith)
                requires yy <= row + 1, xx <= px + 1, pitch >= 0;
            let offset = yy * pitch + xx * 3;
            let ghost before = buffer@;
            proof {
                lemma_write_channel(p, yy as int, xx as int, 0);
                lemma_write_channel(p, yy as int, xx as int, 1);
                lemma_write_channel(p, yy as int, xx as int, 2);
                assert(offset - base == if yy == row { 3 * (xx - px) } else { p + 3 * (xx - px) });
            }
            buffer.set(offset, colour.r);
            buffer.set(offset + 1, colour.g);
            buffer.set(offset + 2, colour.b);
            proof {
                assert forall|j: int| 0 <= j < b0.len() implies #[trigger] buffer@[j] ==
                    if (yy > row && 0 <= j - base < 6) || (yy == row && 0 <= j - base < 3 * (xx + 1 - px))
                        || (yy == row + 1 && p <= j - base < p + 3 * (xx + 1 - px)) {
                        channel(colour, byte_channel(p, j))
                    } else {
                        b0[j]
                    } by {
                    if j != offset && j != offset + 1 && j != offset + 2 {
                        assert(buffer@[j] == before[j]);
                    }
                }
            }
            xx = xx + 1;
        }
        yy = yy + 1;
    }
}

/// Draws the banner for a text mask `width` by `height` into an RGB24 buffer
/// with `pitch` bytes a row: each lit text pixel becomes a two-by-two block
/// in `colour`, four times as far apart, rows slanted; see `banner_block`.
pub fn paint_title(buffer: &mut Vec<u8>, pitch: usize, mask: &Vec<u8>, width: u32, height: u32, colour: Colour)
    requires
        pitch > 0,
        width * height <= u32::MAX,
        2 * height - 2 <= u32::MAX,
        mask@.len() == width * height,
        banner_fits(mask@, width as int, height as int, pitch as int, old(buffer)@.len() as int),
    ensures
        final(buffer)@.len() == old(buffer)@.len(),
        forall|j: int| 0 <= j < old(buffer)@.len() ==> #[trigger] final(buffer)@[j] ==
            if banner_covers(mask@, width as int, height as int, pitch as int, j) {
                channel(colour, byte_channel(pitch as int, j))
            } else {
                old(buffer)@[j]
            },
{
    let ghost b0 = buffer@;
    let ghost p = pitch as int;
    let ghost w = width as int;
    let ghost h = height as int;
    let mut slant: u32 = 0;
    let mut oppy: u32 = 1;
    while oppy < height
        invariant
            b0 == old(buffer)@,
            p == pitch as int,
            w == width as int,
            h == height as int,
            pitch > 0,
            w * h <= u32::MAX,
            2 * h - 2 <= u32::MAX,
            mask@.len() == w * h,
            banner_fits(mask@, w, h, p, b0.len() as int),
            buffer@.len() == b0.len(),
            1 <= oppy,
            oppy <= h || h == 0,
            slant == 2 * (oppy - 1),
            forall|j: int| 0 <= j < b0.len() ==> #[trigger] buffer@[j] ==
                if painted_before(mask@, w, h, p, j, h - 1 - oppy, 0) {
                    channel(colour, byte_channel(p, j))
                } else {
                    b0[j]
                },
        decreases height - oppy,
    {
        let y = height - oppy - 1;
        let mut x: u32 = 0;
        proof {
            assert forall|j: int| 0 <= j < b0.len() implies #[trigger] buffer@[j] ==
                if painted_before(mask@, w, h, p, j, y as int, 0) {
                    channel(colour, byte_channel(p, j))
                } else {
                    b0[j]
                } by {
                if painted_before(mask@, w, h, p, j, y as int, 0) {
                    let (y2, x2) = choose|y2: int, x2: int| (y2 > y || (y2 == y && x2 < 0)) && #[trigger] banner_block(mask@, w, h, p, y2, x2, j);
                    assert((y2 > h - 1 - oppy || (y2 == h - 1 - oppy && x2 < 0)) && banner_block(mask@, w, h, p, y2, x2, j));
                }
            }
        }
        while x < width
            invariant
                b0 == old(buffer)@,
                p == pitch as int,
                w == width as int,
                h == height as int,
                pitch > 0,
                w * h <= u32::MAX,
                mask@.len() == w * h,
                banner_fits(mask@, w, h, p, b0.len() as int),
                buffer@.len() == b0.len(),
                1 <= oppy < h,
                y == h - oppy - 1,
                slant == 2 * (oppy - 1),
                slant == slant_of(h, y as int),
                x <= w,
                2 * h - 2 <= u32::MAX,
                forall|j: int| 0 <= j < b0.len() ==> #[trigger] buffer@[j] ==
                    if painted_before(mask@, w, h, p, j, y as int, x as int) {
                        channel(colour, byte_channel(p, j))
                    } else {
                        b0[j]
                    },
            decreases width - x,
        {
            assert(y * w + x < w * h) by (nonlinear_arith)
                requires 0 <= y < h, 0 <= x < w;
            let index = y * width + x;
            let ghost before = buffer@;
            let is_lit = mask[index as usize] == 1;
            if is_lit {
                assert(lit(mask@, w, y as int, x as int));
                assert((GAP * y + 1) * p + (GAP * x + 1 + slant) * 3 + 2 < b0.len());
                assert(GAP * y + 1 <= (GAP * y + 1) * p) by (nonlinear_arith)
                    requires p >= 1, y >= 0;
                let row = (y * GAP) as usize;
                let px = (x * GAP + slant) as usize;
                fill_block(buffer, pitch, row, px, colour);
            }
            proof {
                assert(is_lit == lit(mask@, w, y as int, x as int));
                assert forall|j: int| 0 <= j < b0.len() implies #[trigger] buffer@[j] ==
                    if painted_before(mask@, w, h, p, j, y as int, x + 1) {
                        channel(colour, byte_channel(p, j))
                    } else {
                        b0[j]
                    } by {
                    if banner_block(mask@, w, h, p, y as int, x as int, j) {
                        assert((y > y || (y == y && x < x + 1)) && banner_block(mask@, w, h, p, y as int, x as int, j));
                    } else {
                        if painted_before(mask@, w, h, p, j, y as int, x + 1) {
                            let (y2, x2) = choose|y2: int, x2: int| (y2 > y || (y2 == y && x2 < x + 1)) && #[trigger] banner_block(mask@, w, h, p, y2, x2, j);
                            assert((y2 > y || (y2 == y && x2 < x)) && banner_block(mask@, w, h, p, y2, x2, j));
                        }
                        if painted_before(mask@, w, h, p, j, y as int, x as int) {
                            let (y2, x2) = choose|y2: int, x2: int| (y2 > y || (y2 == y && x2 < x)) && #[trigger] banner_block(mask@, w, h, p, y2, x2, j);
                            assert((y2 > y || (y2 == y && x2 < x + 1)) && banner_block(mask@, w, h, p, y2, x2, j));
                        }
                    }
                }
            }
            x = x + 1;
        }
        proof {
            assert forall|j: int| 0 <= j < b0.len() implies #[trigger] buffer@[j] ==
                if painted_before(mask@, w, h, p, j, h - 1 - (oppy + 1), 0) {
                    channel(colour, byte_channel(p, j))
                } else {
                    b0[j]
                } by {
                if painted_before(mask@, w, h, p, j, y as int, w) {
                    let (y2, x2) = choose|y2: int, x2: int| (y2 > y || (y2 == y && x2 < w)) && #[trigger] banner_block(mask@, w, h, p, y2, x2, j);
                    assert((y2 > h - 1 - (oppy + 1) || (y2 == h - 1 - (oppy + 1) && x2 < 0)) && banner_block(mask@, w, h, p, y2, x2, j));
                }
                if painted_before(mask@, w, h, p, j, h - 1 - (oppy + 1), 0) {
                    let (y2, x2) = choose|y2: int, x2: int| (y2 > h - 1 - (oppy + 1) || (y2 == h - 1 - (oppy + 1) && x2 < 0)) && #[trigger] banner_block(mask@, w, h, p, y2, x2, j);
                    assert((y2 > y || (y2 == y && x2 < w)) && banner_block(mask@, w, h, p, y2, x2, j));
                }
            }
        }
        slant = slant + 2;
        oppy = oppy + 1;
    }
    proof {
        assert forall|j: int| 0 <= j < b0.len() implies #[trigger] buffer@[j] ==
            if banner_covers(mask@, w, h, p, j) { channel(colour, byte_channel(p, j)) } else { b0[j] } by {
            if banner_covers(mask@, w, h, p, j) {
                let (y2, x2) = choose|y2: int, x2: int| #[trigger] banner_block(mask@, w, h, p, y2, x2, j);
                assert((y2 > h - 1 - oppy || (y2 == h - 1 - oppy && x2 < 0)) && banner_block(mask@, w, h, p, y2, x2, j));
            }
            if painted_before(mask@, w, h, p, j, h - 1 - oppy, 0) {
                let (y2, x2) = choose|y2: int, x2: int| (y2 > h - 1 - oppy || (y2 == h - 1 - oppy && x2 < 0)) && #[trigger] banner_block(mask@, w, h, p, y2, x2, j);
                assert(banner_block(mask@, w, h, p, y2, x2, j));
            }
        }
    }
}

} // verus!
