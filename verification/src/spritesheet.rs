//! Sprite sheet packing and splitting: fixed-grid layout geometry and the
//! exact pixel content of packed sheets and grid cells.

use vstd::prelude::*;

use crate::LibError;
use crate::raster::Raster;

verus! {

/// The placement of one source frame on a packed sheet: grid offset and the
/// source image's own size (cells are not tightly packed).
pub struct SpriteFrame {
    pub name: String,
    pub x: u32,
    pub y: u32,
    pub width: u32,
    pub height: u32,
}

/// The geometry of a packed sheet: overall size and the frame list, in input
/// order.
pub struct SpritesheetInfo {
    pub width: u32,
    pub height: u32,
    pub frames: Vec<SpriteFrame>,
}

/// The number of grid columns: the requested count, at least one.
pub open spec fn spec_cols(columns: u32) -> int {
    if columns < 1 {
        1
    } else {
        columns as int
    }
}

/// The number of grid rows: enough for all frames at `cols` per row.
pub open spec fn spec_rows(n: int, cols: int) -> int {
    (n + cols - 1) / cols
}

/// The widest frame width (zero when there are no frames).
pub open spec fn max_frame_w(images: Seq<(String, Raster)>) -> int
    decreases images.len(),
{
    if images.len() == 0 {
        0
    } else {
        let m = max_frame_w(images.drop_last());
        if images.last().1.width as int > m {
            images.last().1.width as int
        } else {
            m
        }
    }
}

/// The tallest frame height (zero when there are no frames).
pub open spec fn max_frame_h(images: Seq<(String, Raster)>) -> int
    decreases images.len(),
{
    if images.len() == 0 {
        0
    } else {
        let m = max_frame_h(images.drop_last());
        if images.last().1.height as int > m {
            images.last().1.height as int
        } else {
            m
        }
    }
}

/// The horizontal stride of a grid cell: widest frame plus padding.
pub open spec fn spec_stride_x(images: Seq<(String, Raster)>, padding: u32) -> int {
    max_frame_w(images) + padding as int
}

/// The vertical stride of a grid cell: tallest frame plus padding.
pub open spec fn spec_stride_y(images: Seq<(String, Raster)>, padding: u32) -> int {
    max_frame_h(images) + padding as int
}

/// The packed sheet width: all columns minus the trailing padding.
pub open spec fn spec_sheet_w(images: Seq<(String, Raster)>, columns: u32, padding: u32) -> int {
    spec_cols(columns) * spec_stride_x(images, padding) - padding as int
}

/// The packed sheet height: all rows minus the trailing padding.
pub open spec fn spec_sheet_h(images: Seq<(String, Raster)>, columns: u32, padding: u32) -> int {
    spec_rows(images.len() as int, spec_cols(columns)) * spec_stride_y(images, padding)
        - padding as int
}

/// The byte at flat offset `j` of the packed sheet: the sheet position is
/// decomposed into a grid cell and an offset inside the cell; where a frame
/// covers that offset the frame's own sample is shown, everywhere else
/// (padding, unused cell space, cells past the last frame) the sheet is
/// transparent black.
pub open spec fn merged_byte(
    images: Seq<(String, Raster)>,
    cols: int,
    sx: int,
    sy: int,
    sheet_w: int,
    j: int,
) -> u8 {
    let p = j / 4;
    let c = j % 4;
    let px = p % sheet_w;
    let py = p / sheet_w;
    let col = px / sx;
    let row = py / sy;
    let dx = px % sx;
    let dy = py % sy;
    let i = row * cols + col;
    if 0 <= i < images.len() && dx < images[i].1.width as int && dy < images[i].1.height as int {
        images[i].1.pixels@[4 * (dy * images[i].1.width as int + dx) + c]
    } else {
        0u8
    }
}

/// The complete sample buffer of the packed sheet.
pub open spec fn merged_pixels(
    images: Seq<(String, Raster)>,
    cols: int,
    sx: int,
    sy: int,
    sheet_w: int,
    len: nat,
) -> Seq<u8> {
    Seq::new(len, |j: int| merged_byte(images, cols, sx, sy, sheet_w, j))
}

/// The machine limits the packer needs: the grid arithmetic stays within the
/// 32-bit dimensions and the sheet buffer fits in memory.
pub open spec fn merge_fits(images: Seq<(String, Raster)>, columns: u32, padding: u32) -> bool {
    &&& images.len() <= u32::MAX
    &&& spec_stride_x(images, padding) <= u32::MAX
    &&& spec_stride_y(images, padding) <= u32::MAX
    &&& spec_cols(columns) * spec_stride_x(images, padding) <= u32::MAX
    &&& spec_rows(images.len() as int, spec_cols(columns)) * spec_stride_y(images, padding)
        <= u32::MAX
    &&& 4 * spec_sheet_w(images, columns, padding) * spec_sheet_h(images, columns, padding)
        <= usize::MAX
}

/// The widest frame width.
#[verifier::loop_isolation(false)]
fn compute_max_w(images: &Vec<(String, Raster)>) -> (r: u32)
    ensures
        r as int == max_frame_w(images@),
{
    let mut m: u32 = 0;
    let n = images.len();
    for i in 0..n
        invariant
            m as int == max_frame_w(images@.take(i as int)),
    {
        if images[i].1.width > m {
            m = images[i].1.width;
        }
        proof {
            assert(images@.take(i + 1).drop_last() =~= images@.take(i as int));
            assert(images@.take(i + 1).last() == images@[i as int]);
        }
    }
    proof {
        assert(images@.take(n as int) =~= images@);
    }
    m
}

/// The tallest frame height.
#[verifier::loop_isolation(false)]
fn compute_max_h(images: &Vec<(String, Raster)>) -> (r: u32)
    ensures
        r as int == max_frame_h(images@),
{
    let mut m: u32 = 0;
    let n = images.len();
    for i in 0..n
        invariant
            m as int == max_frame_h(images@.take(i as int)),
    {
        if images[i].1.height > m {
            m = images[i].1.height;
        }
        proof {
            assert(images@.take(i + 1).drop_last() =~= images@.take(i as int));
            assert(images@.take(i + 1).last() == images@[i as int]);
        }
    }
    proof {
        assert(images@.take(n as int) =~= images@);
    }
    m
}

/// Render the packed sheet's sample buffer, one byte at a time, exactly as
/// `merged_pixels` describes it.
#[verifier::loop_isolation(false)]
fn render_sheet(images: &Vec<(String, Raster)>, cols: u32, sx: u32, sy: u32, sw: u32, sh: u32) -> (r:
    Vec<u8>)
    requires
        forall|i: int| 0 <= i < images@.len() ==> (#[trigger] images@[i].1).wf(),
        cols >= 1,
        sw > 0 ==> sx >= 1,
        sh > 0 ==> sy >= 1,
        4 * (sw as int) * (sh as int) <= usize::MAX,
    ensures
        r@ == merged_pixels(
            images@,
            cols as int,
            sx as int,
            sy as int,
            sw as int,
            (4 * (sw as int) * (sh as int)) as nat,
        ),
{
    let ghost glen = (4 * (sw as int) * (sh as int)) as nat;
    proof {
        assert(0 <= (sw as int) * (sh as int) && (sw as int) * (sh as int) * 4 == 4 * (sw as int)
            * (sh as int)) by (nonlinear_arith)
            requires
                0 <= sw as int,
                0 <= sh as int,
        ;
    }
    let total: usize = ((sw as u64) * (sh as u64) * 4) as usize;
    let mut out: Vec<u8> = Vec::new();
    let pixel_count: usize = total / 4;
    proof {
        vstd::arithmetic::div_mod::lemma_div_multiples_vanish(
            (sw as int) * (sh as int),
            4,
        );
        assert(4 * ((sw as int) * (sh as int)) == 4 * (sw as int) * (sh as int))
            by (nonlinear_arith);
    }
    for p in 0..pixel_count
        invariant
            pixel_count == (sw as int) * (sh as int),
            out@.len() == 4 * p,
            out@ =~= merged_pixels(
                images@,
                cols as int,
                sx as int,
                sy as int,
                sw as int,
                glen,
            ).take(4 * p as int),
    {
        proof {
            assert(sw > 0 && sh > 0) by (nonlinear_arith)
                requires
                    (p as int) < (sw as int) * (sh as int),
                    0 <= p as int,
            ;
        }
        let p64 = p as u64;
        proof {
            vstd::arithmetic::div_mod::lemma_mod_division_less_than_divisor(p as int, sw as int);
            vstd::arithmetic::div_mod::lemma_fundamental_div_mod(p as int, sw as int);
            assert((p as int) / (sw as int) < sh as int && 0 <= (p as int) / (sw as int))
                by (nonlinear_arith)
                requires
                    (p as int) < (sw as int) * (sh as int),
                    0 <= p as int,
                    0 < sw as int,
                    (sw as int) * ((p as int) / (sw as int)) + (p as int) % (sw as int) == (
                    p as int),
                    0 <= (p as int) % (sw as int),
                    (p as int) % (sw as int) < (sw as int),
            ;
        }
        let px = (p64 % (sw as u64)) as u32;
        let py = (p64 / (sw as u64)) as u32;
        let col = px / sx;
        let row = py / sy;
        let dx = px % sx;
        let dy = py % sy;
        proof {
            assert((row as int) * (cols as int) + (col as int) < 0x1_0000_0000_0000_0000 && 0 <= (
            row as int) * (cols as int)) by (nonlinear_arith)
                requires
                    0 <= (row as int) < 0x1_0000_0000,
                    0 <= (cols as int) < 0x1_0000_0000,
                    0 <= (col as int) < 0x1_0000_0000,
            ;
        }
        let idx64 = (row as u64) * (cols as u64) + (col as u64);
        let ghost spec_i = (py as int) / (sy as int) * (cols as int) + (px as int) / (sx as int);
        let n64 = images.len() as u64;
        let mut b0: u8 = 0;
        let mut b1: u8 = 0;
        let mut b2: u8 = 0;
        let mut b3: u8 = 0;
        if idx64 < n64 {
            let i = idx64 as usize;
            let fw = images[i].1.width;
            let fh = images[i].1.height;
            if dx < fw && dy < fh {
                let plen = images[i].1.pixels.len();
                proof {
                    assert((dy as int) * (fw as int) + (dx as int) < (fw as int) * (fh as int)
                        && 0 <= (dy as int) * (fw as int)) by (nonlinear_arith)
                        requires
                            0 <= dx as int,
                            (dx as int) < (fw as int),
                            0 <= dy as int,
                            (dy as int) < (fh as int),
                    ;
                    assert(4 * ((dy as int) * (fw as int) + (dx as int)) + 3 < 4 * (fw as int) * (
                    fh as int)) by (nonlinear_arith)
                        requires
                            (dy as int) * (fw as int) + (dx as int) < (fw as int) * (fh as int),
                    ;
                    assert(plen as int == 4 * (fw as int) * (fh as int)) by (nonlinear_arith)
                        requires
                            plen as int == 4 * (fw as nat) * (fh as nat),
                    ;
                }
                let base64 = 4 * ((dy as u64) * (fw as u64) + (dx as u64));
                let base = base64 as usize;
                b0 = images[i].1.pixels[base];
                b1 = images[i].1.pixels[base + 1];
                b2 = images[i].1.pixels[base + 2];
                b3 = images[i].1.pixels[base + 3];
            }
        }
        out.push(b0);
        out.push(b1);
        out.push(b2);
        out.push(b3);
        proof {
            let ghost m = merged_pixels(
                images@,
                cols as int,
                sx as int,
                sy as int,
                sw as int,
                glen,
            );
            assert(4 * (p as int) + 4 <= glen) by (nonlinear_arith)
                requires
                    (p as int) < (sw as int) * (sh as int),
                    glen == 4 * (sw as int) * (sh as int),
            ;
            assert forall|c: int| 0 <= c < 4 implies #[trigger] ((4 * p + c) / 4) == p as int && (
            4 * p + c) % 4 == c by {
                vstd::arithmetic::div_mod::lemma_fundamental_div_mod_converse(
                    4 * p + c,
                    4,
                    p as int,
                    c,
                );
            }
            assert(out@ =~= m.take(4 * (p + 1) as int));
        }
    }
    proof {
        let ghost m = merged_pixels(images@, cols as int, sx as int, sy as int, sw as int, glen);
        assert(m.take(4 * pixel_count as int) =~= m);
    }
    out
}

/// Pack a list of named frames onto one sheet on a fixed grid, row-major in
/// input order. Exactly when the list is empty, the packer rejects it.
/// The grid has `max(columns, 1)` columns and as many rows as the frames
/// need; every cell is as large as the largest frame plus padding; frame `i`
/// sits at cell `(i mod cols, i div cols)`, keeps its own size in the
/// recorded geometry, and unused cell space stays transparent.
#[verifier::loop_isolation(false)]
pub fn merge_spritesheet(images: &Vec<(String, Raster)>, columns: u32, padding: u32) -> (r: Result<
    (Raster, SpritesheetInfo),
    LibError,
>)
    requires
        forall|i: int| 0 <= i < images@.len() ==> (#[trigger] images@[i].1).wf(),
        merge_fits(images@, columns, padding),
    ensures
        r is Err <==> images@.len() == 0,
        r is Err ==> r->Err_0 == LibError::InvalidInput,
        r is Ok ==> ({
            let (sheet, info) = r->Ok_0;
            let cols = spec_cols(columns);
            let sx = spec_stride_x(images@, padding);
            let sy = spec_stride_y(images@, padding);
            &&& sheet.width as int == spec_sheet_w(images@, columns, padding)
            &&& sheet.height as int == spec_sheet_h(images@, columns, padding)
            &&& sheet.wf()
            &&& sheet.pixels@ == merged_pixels(
                images@,
                cols,
                sx,
                sy,
                sheet.width as int,
                sheet.pixels@.len(),
            )
            &&& info.width == sheet.width
            &&& info.height == sheet.height
            &&& info.frames@.len() == images@.len()
            &&& forall|i: int|
                0 <= i < images@.len() ==> {
                    let f = #[trigger] info.frames@[i];
                    &&& f.name == images@[i].0
                    &&& f.x as int == (i % cols) * sx
                    &&& f.y as int == (i / cols) * sy
                    &&& f.width == images@[i].1.width
                    &&& f.height == images@[i].1.height
                }
        }),
{
    if images.len() == 0 {
        return Err(LibError::InvalidInput);
    }
    let n = images.len();
    let max_w = compute_max_w(images);
    let max_h = compute_max_h(images);
    let cols: u32 = if columns < 1 {
        1
    } else {
        columns
    };
    let sx: u32 = ((max_w as u64) + (padding as u64)) as u32;
    let sy: u32 = ((max_h as u64) + (padding as u64)) as u32;
    let rows64: u64 = ((n as u64) + (cols as u64) - 1) / (cols as u64);
    proof {
        assert(rows64 as int == spec_rows(n as int, cols as int));
        assert(spec_rows(n as int, cols as int) * (sy as int) <= u32::MAX);
        // one frame occupies the first cell, so a full stride (minus the
        // trailing padding) is available in both directions
        assert(rows64 as int >= 1) by (nonlinear_arith)
            requires
                n as int >= 1,
                cols as int >= 1,
                rows64 as int == ((n as int) + (cols as int) - 1) / (cols as int),
        ;
        assert((cols as int) * (sx as int) >= sx as int && (rows64 as int) * (sy as int)
            >= sy as int && (rows64 as int) * (sy as int) <= spec_rows(n as int, cols as int) * (
        sy as int)) by (nonlinear_arith)
            requires
                cols as int >= 1,
                rows64 as int >= 1,
                sx as int >= 0,
                sy as int >= 0,
                rows64 as int == spec_rows(n as int, cols as int),
        ;
    }
    let sheet_w64 = (cols as u64) * (sx as u64);
    let sheet_h64 = rows64 * (sy as u64);
    let sw: u32 = (sheet_w64 - (padding as u64)) as u32;
    let sh: u32 = (sheet_h64 - (padding as u64)) as u32;
    proof {
        assert(sx == 0 ==> (cols as int) * (sx as int) == 0) by (nonlinear_arith);
        assert(sy == 0 ==> (rows64 as int) * (sy as int) == 0) by (nonlinear_arith);
        assert(sw > 0 ==> sx >= 1);
        assert(sh > 0 ==> sy >= 1);
    }
    let pixels = render_sheet(images, cols, sx, sy, sw, sh);
    proof {
        assert(pixels@.len() == 4 * (sw as nat) * (sh as nat)) by (nonlinear_arith)
            requires
                pixels@.len() == 4 * (sw as int) * (sh as int),
        ;
    }
    let sheet = Raster { width: sw, height: sh, pixels };
    proof {
        // rows64 * cols covers all of 0 .. n, and no full extra row
        vstd::arithmetic::div_mod::lemma_fundamental_div_mod(
            (n as int) + (cols as int) - 1,
            cols as int,
        );
        vstd::arithmetic::div_mod::lemma_mod_division_less_than_divisor(
            (n as int) + (cols as int) - 1,
            cols as int,
        );
        assert((rows64 as int) * (cols as int) == ((n as int) + (cols as int) - 1) - ((n as int)
            + (cols as int) - 1) % (cols as int)) by (nonlinear_arith)
            requires
                rows64 as int == ((n as int) + (cols as int) - 1) / (cols as int),
                (cols as int) * (((n as int) + (cols as int) - 1) / (cols as int)) + ((n as int)
                    + (cols as int) - 1) % (cols as int) == (n as int) + (cols as int) - 1,
        ;
        assert((rows64 as int) * (cols as int) >= (n as int));
        assert((rows64 as int) * (cols as int) <= (n as int) + (cols as int) - 1);
    }
    let mut frames: Vec<SpriteFrame> = Vec::new();
    for i in 0..n
        invariant
            frames@.len() == i,
            forall|k: int|
                0 <= k < i as int ==> {
                    let f = #[trigger] frames@[k];
                    &&& f.name == images@[k].0
                    &&& f.x as int == (k % (cols as int)) * (sx as int)
                    &&& f.y as int == (k / (cols as int)) * (sy as int)
                    &&& f.width == images@[k].1.width
                    &&& f.height == images@[k].1.height
                },
    {
        let col64 = (i as u64) % (cols as u64);
        let row64 = (i as u64) / (cols as u64);
        proof {
            vstd::arithmetic::div_mod::lemma_mod_division_less_than_divisor(i as int, cols as int);
            vstd::arithmetic::div_mod::lemma_fundamental_div_mod(i as int, cols as int);
            assert((i as int) / (cols as int) < rows64 as int) by (nonlinear_arith)
                requires
                    (i as int) < n as int,
                    0 < cols as int,
                    (cols as int) * ((i as int) / (cols as int)) + (i as int) % (cols as int) == (
                    i as int),
                    0 <= (i as int) % (cols as int) < (cols as int),
                    (rows64 as int) * (cols as int) >= (n as int),
            ;
            assert(col64 as int * (sx as int) + (sx as int) <= (cols as int) * (sx as int)
                && col64 as int * (sx as int) >= 0) by (nonlinear_arith)
                requires
                    0 <= col64 as int,
                    (col64 as int) < (cols as int),
                    0 <= sx as int,
            ;
            assert(row64 as int * (sy as int) + (sy as int) <= rows64 as int * (sy as int)
                && row64 as int * (sy as int) >= 0) by (nonlinear_arith)
                requires
                    0 <= row64 as int,
                    (row64 as int) < (rows64 as int),
                    0 <= sy as int,
            ;
        }
        let fx = (col64 * (sx as u64)) as u32;
        let fy = (row64 * (sy as u64)) as u32;
        frames.push(
            SpriteFrame {
                name: images[i].0.clone(),
                x: fx,
                y: fy,
                width: images[i].1.width,
                height: images[i].1.height,
            },
        );
    }
    let info = SpritesheetInfo { width: sw, height: sh, frames };
    Ok((sheet, info))
}



/// Every frame is at most as wide as the widest frame.
proof fn lemma_max_frame_w_bound(images: Seq<(String, Raster)>, i: int)
    requires
        0 <= i < images.len(),
    ensures
        images[i].1.width as int <= max_frame_w(images),
    decreases images.len(),
{
    if i == images.len() - 1 {
        assert(images.last() == images[i]);
    } else {
        lemma_max_frame_w_bound(images.drop_last(), i);
        assert(images.drop_last()[i] == images[i]);
    }
}

/// Every frame is at most as tall as the tallest frame.
proof fn lemma_max_frame_h_bound(images: Seq<(String, Raster)>, i: int)
    requires
        0 <= i < images.len(),
    ensures
        images[i].1.height as int <= max_frame_h(images),
    decreases images.len(),
{
    if i == images.len() - 1 {
        assert(images.last() == images[i]);
    } else {
        lemma_max_frame_h_bound(images.drop_last(), i);
        assert(images.drop_last()[i] == images[i]);
    }
}

/// Every frame appears verbatim on the packed sheet: inside frame `i`'s
/// recorded rectangle, the sheet shows exactly the frame's own samples.
pub proof fn lemma_frame_pixels_on_sheet(
    images: Seq<(String, Raster)>,
    columns: u32,
    padding: u32,
    i: int,
    dx: int,
    dy: int,
    c: int,
)
    requires
        forall|k: int| 0 <= k < images.len() ==> (#[trigger] images[k].1).wf(),
        merge_fits(images, columns, padding),
        0 <= i < images.len(),
        0 <= dx < images[i].1.width as int,
        0 <= dy < images[i].1.height as int,
        0 <= c < 4,
    ensures
        ({
            let cols = spec_cols(columns);
            let sx = spec_stride_x(images, padding);
            let sy = spec_stride_y(images, padding);
            let sheet_w = spec_sheet_w(images, columns, padding);
            let fx = (i % cols) * sx;
            let fy = (i / cols) * sy;
            merged_byte(images, cols, sx, sy, sheet_w, 4 * ((fy + dy) * sheet_w + (fx + dx)) + c)
                == images[i].1.pixels@[4 * (dy * images[i].1.width as int + dx) + c]
        }),
{
    let cols = spec_cols(columns);
    let sx = spec_stride_x(images, padding);
    let sy = spec_stride_y(images, padding);
    let sheet_w = spec_sheet_w(images, columns, padding);
    let col = i % cols;
    let row = i / cols;
    let fx = col * sx;
    let fy = row * sy;
    let px = fx + dx;
    let py = fy + dy;
    let p = py * sheet_w + px;
    let j = 4 * p + c;
    lemma_max_frame_w_bound(images, i);
    lemma_max_frame_h_bound(images, i);
    assert(1 <= sheet_w) by (nonlinear_arith)
        requires
            1 <= cols,
            sx >= padding as int + 1,
            sheet_w == cols * sx - padding as int,
    ;
    vstd::arithmetic::div_mod::lemma_fundamental_div_mod(i, cols);
    vstd::arithmetic::div_mod::lemma_mod_division_less_than_divisor(i, cols);
    // the pixel's column offset stays inside the sheet
    assert(0 <= col && col < cols && 0 <= row) by (nonlinear_arith)
        requires
            cols * row + col == i,
            0 <= i,
            0 <= col < cols,
            1 <= cols,
    ;
    assert(px < cols * sx && 0 <= fx && 0 <= fy && dx < sx && dy < sy) by (nonlinear_arith)
        requires
            0 <= col,
            col < cols,
            0 <= row,
            0 <= dx,
            dx <= sx - (padding as int) - 1,
            0 <= dy,
            dy <= sy - (padding as int) - 1,
            0 <= padding as int,
            fx == col * sx,
            fy == row * sy,
            px == fx + dx,
            1 <= sx,
            1 <= sy,
    ;
    assert(0 <= p && 0 <= j) by (nonlinear_arith)
        requires
            0 <= py,
            0 <= px,
            0 <= sheet_w,
            p == py * sheet_w + px,
            j == 4 * p + c,
            0 <= c,
    ;
    // decompose the flat byte offset back into the grid coordinates
    vstd::arithmetic::div_mod::lemma_fundamental_div_mod_converse(j, 4, p, c);
    assert(px < sheet_w) by (nonlinear_arith)
        requires
            px < cols * sx,
            col < cols,
            px == col * sx + dx,
            dx <= sx - (padding as int) - 1,
            0 <= padding as int,
            sheet_w == cols * sx - padding as int,
            0 <= col,
            1 <= sx,
    ;
    vstd::arithmetic::div_mod::lemma_fundamental_div_mod_converse(p, sheet_w, py, px);
    vstd::arithmetic::div_mod::lemma_fundamental_div_mod_converse(px, sx, col, dx);
    vstd::arithmetic::div_mod::lemma_fundamental_div_mod_converse(py, sy, row, dy);
    assert(p == sheet_w * py + px) by (nonlinear_arith)
        requires
            p == py * sheet_w + px,
    ;
    assert(px == sx * col + dx && py == sy * row + dy) by (nonlinear_arith)
        requires
            px == col * sx + dx,
            py == row * sy + dy,
    ;
    assert(j / 4 == p && j % 4 == c);
    assert(p % sheet_w == px && p / sheet_w == py);
    assert(px / sx == col && px % sx == dx);
    assert(py / sy == row && py % sy == dy);
    assert(row * cols + col == i) by (nonlinear_arith)
        requires
            cols * row + col == i,
    ;
}

/// The sample buffer of the `w` by `h` region of `src` whose top-left corner
/// is at `(x, y)`.
pub open spec fn crop_pixels(src: Seq<u8>, src_w: int, x: int, y: int, w: int, h: int) -> Seq<u8> {
    Seq::new(
        (4 * w * h) as nat,
        |j: int|
            {
                let p = j / 4;
                let c = j % 4;
                let px = p % w;
                let py = p / w;
                src[4 * ((y + py) * src_w + (x + px)) + c]
            },
    )
}

/// Copy out a rectangular region of an image, pixel for pixel.
#[verifier::loop_isolation(false)]
pub fn crop(img: &Raster, x: u32, y: u32, w: u32, h: u32) -> (r: Raster)
    requires
        img.wf(),
        x as int + w as int <= img.width as int,
        y as int + h as int <= img.height as int,
    ensures
        r.width == w,
        r.height == h,
        r.wf(),
        r.pixels@ == crop_pixels(img.pixels@, img.width as int, x as int, y as int, w as int, h as int),
{
    let iw = img.width;
    let plen = img.pixels.len();
    proof {
        assert(4 * (w as int) * (h as int) <= plen as int && 0 <= (w as int) * (h as int) && (
        w as int) * (h as int) * 4 == 4 * (w as int) * (h as int)) by (nonlinear_arith)
            requires
                plen as int == 4 * (img.width as int) * (img.height as int),
                0 <= w as int,
                0 <= h as int,
                (w as int) <= (img.width as int),
                (h as int) <= (img.height as int),
        ;
    }
    let total: usize = ((w as u64) * (h as u64) * 4) as usize;
    let pixel_count: usize = total / 4;
    proof {
        vstd::arithmetic::div_mod::lemma_div_multiples_vanish((w as int) * (h as int), 4);
        assert(4 * ((w as int) * (h as int)) == 4 * (w as int) * (h as int)) by (nonlinear_arith);
    }
    let mut out: Vec<u8> = Vec::new();
    let ghost gcrop = crop_pixels(
        img.pixels@,
        img.width as int,
        x as int,
        y as int,
        w as int,
        h as int,
    );
    for p in 0..pixel_count
        invariant
            pixel_count == (w as int) * (h as int),
            out@.len() == 4 * p,
            out@ =~= gcrop.take(4 * p as int),
    {
        proof {
            assert(w > 0 && h > 0) by (nonlinear_arith)
                requires
                    (p as int) < (w as int) * (h as int),
                    0 <= p as int,
            ;
            vstd::arithmetic::div_mod::lemma_mod_division_less_than_divisor(p as int, w as int);
            vstd::arithmetic::div_mod::lemma_fundamental_div_mod(p as int, w as int);
            assert((p as int) / (w as int) < h as int && 0 <= (p as int) / (w as int))
                by (nonlinear_arith)
                requires
                    (p as int) < (w as int) * (h as int),
                    0 <= p as int,
                    0 < w as int,
                    (w as int) * ((p as int) / (w as int)) + (p as int) % (w as int) == (p as int),
                    0 <= (p as int) % (w as int),
                    (p as int) % (w as int) < (w as int),
            ;
        }
        let p64 = p as u64;
        let px = (p64 % (w as u64)) as u32;
        let py = (p64 / (w as u64)) as u32;
        proof {
            assert(((y as int) + (py as int)) * (iw as int) + ((x as int) + (px as int)) < (
            iw as int) * (img.height as int) && 0 <= ((y as int) + (py as int)) * (iw as int))
                by (nonlinear_arith)
                requires
                    0 <= (py as int),
                    (py as int) < (h as int),
                    0 <= (px as int),
                    (px as int) < (w as int),
                    (x as int) + (w as int) <= (iw as int),
                    (y as int) + (h as int) <= (img.height as int),
                    0 <= x as int,
                    0 <= y as int,
            ;
            assert(4 * (((y as int) + (py as int)) * (iw as int) + ((x as int) + (px as int))) + 3
                < 4 * (iw as int) * (img.height as int)) by (nonlinear_arith)
                requires
                    ((y as int) + (py as int)) * (iw as int) + ((x as int) + (px as int)) < (
                    iw as int) * (img.height as int),
            ;
            assert(plen as int == 4 * (iw as int) * (img.height as int)) by (nonlinear_arith)
                requires
                    plen as int == 4 * (iw as nat) * (img.height as nat),
            ;
        }
        let base64 = 4 * (((y as u64) + (py as u64)) * (iw as u64) + ((x as u64) + (px as u64)));
        let base = base64 as usize;
        out.push(img.pixels[base]);
        out.push(img.pixels[base + 1]);
        out.push(img.pixels[base + 2]);
        out.push(img.pixels[base + 3]);
        proof {
            assert(4 * (p as int) + 4 <= gcrop.len()) by (nonlinear_arith)
                requires
                    (p as int) < (w as int) * (h as int),
                    gcrop.len() == 4 * (w as int) * (h as int),
            ;
            assert forall|c: int| 0 <= c < 4 implies #[trigger] ((4 * p + c) / 4) == p as int && (
            4 * p + c) % 4 == c by {
                vstd::arithmetic::div_mod::lemma_fundamental_div_mod_converse(
                    4 * p + c,
                    4,
                    p as int,
                    c,
                );
            }
            assert(out@ =~= gcrop.take(4 * (p + 1) as int));
        }
    }
    proof {
        assert(gcrop.take(4 * pixel_count as int) =~= gcrop);
    }
    Raster { width: w, height: h, pixels: out }
}

/// Split an image on a grid into `rows * cols` equally sized sub-images, in
/// row-major order; each cell is `floor(width / cols)` by
/// `floor(height / rows)` and remainder pixels on the right and bottom edges
/// are dropped. Exactly when `rows` or `cols` is zero, the split is rejected.
#[verifier::loop_isolation(false)]
pub fn split_image_grid(img: &Raster, rows: u32, cols: u32) -> (r: Result<Vec<Raster>, LibError>)
    requires
        img.wf(),
        (rows as int) * (cols as int) <= usize::MAX,
    ensures
        r is Err <==> (rows == 0 || cols == 0),
        r is Err ==> r->Err_0 == LibError::InvalidInput,
        r is Ok ==> ({
            let v = r->Ok_0;
            let cw = (img.width as int) / (cols as int);
            let ch = (img.height as int) / (rows as int);
            &&& v@.len() == (rows as int) * (cols as int)
            &&& forall|k: int|
                0 <= k < v@.len() ==> {
                    let sub = #[trigger] v@[k];
                    &&& sub.width as int == cw
                    &&& sub.height as int == ch
                    &&& sub.wf()
                    &&& sub.pixels@ == crop_pixels(
                        img.pixels@,
                        img.width as int,
                        (k % (cols as int)) * cw,
                        (k / (cols as int)) * ch,
                        cw,
                        ch,
                    )
                }
        }),
{
    if rows == 0 || cols == 0 {
        return Err(LibError::InvalidInput);
    }
    let cw = img.width / cols;
    let ch = img.height / rows;
    proof {
        assert(0 <= (rows as int) * (cols as int)) by (nonlinear_arith)
            requires
                0 <= rows as int,
                0 <= cols as int,
        ;
        vstd::arithmetic::div_mod::lemma_fundamental_div_mod(img.width as int, cols as int);
        vstd::arithmetic::div_mod::lemma_mod_division_less_than_divisor(
            img.width as int,
            cols as int,
        );
        vstd::arithmetic::div_mod::lemma_fundamental_div_mod(img.height as int, rows as int);
        vstd::arithmetic::div_mod::lemma_mod_division_less_than_divisor(
            img.height as int,
            rows as int,
        );
        assert((cols as int) * (cw as int) <= img.width as int) by (nonlinear_arith)
            requires
                (cols as int) * ((img.width as int) / (cols as int)) + (img.width as int) % (
                cols as int) == img.width as int,
                0 <= (img.width as int) % (cols as int),
                cw as int == (img.width as int) / (cols as int),
        ;
        assert((rows as int) * (ch as int) <= img.height as int) by (nonlinear_arith)
            requires
                (rows as int) * ((img.height as int) / (rows as int)) + (img.height as int) % (
                rows as int) == img.height as int,
                0 <= (img.height as int) % (rows as int),
                ch as int == (img.height as int) / (rows as int),
        ;
    }
    let count: usize = ((rows as u64) * (cols as u64)) as usize;
    let mut result: Vec<Raster> = Vec::new();
    for k in 0..count
        invariant
            count == (rows as int) * (cols as int),
            result@.len() == k,
            forall|q: int|
                0 <= q < k as int ==> {
                    let sub = #[trigger] result@[q];
                    &&& sub.width == cw
                    &&& sub.height == ch
                    &&& sub.wf()
                    &&& sub.pixels@ == crop_pixels(
                        img.pixels@,
                        img.width as int,
                        (q % (cols as int)) * (cw as int),
                        (q / (cols as int)) * (ch as int),
                        cw as int,
                        ch as int,
                    )
                },
    {
        let k64 = k as u64;
        proof {
            vstd::arithmetic::div_mod::lemma_mod_division_less_than_divisor(k as int, cols as int);
            vstd::arithmetic::div_mod::lemma_fundamental_div_mod(k as int, cols as int);
            assert((k as int) / (cols as int) < rows as int && 0 <= (k as int) / (cols as int))
                by (nonlinear_arith)
                requires
                    (k as int) < (rows as int) * (cols as int),
                    0 <= k as int,
                    0 < cols as int,
                    (cols as int) * ((k as int) / (cols as int)) + (k as int) % (cols as int) == (
                    k as int),
                    0 <= (k as int) % (cols as int),
                    (k as int) % (cols as int) < (cols as int),
            ;
        }
        let col = (k64 % (cols as u64)) as u32;
        let row = (k64 / (cols as u64)) as u32;
        proof {
            assert((col as int) * (cw as int) + (cw as int) <= (cols as int) * (cw as int) && 0 <= (
            col as int) * (cw as int)) by (nonlinear_arith)
                requires
                    0 <= col as int,
                    (col as int) < (cols as int),
                    0 <= cw as int,
            ;
            assert((row as int) * (ch as int) + (ch as int) <= (rows as int) * (ch as int) && 0 <= (
            row as int) * (ch as int)) by (nonlinear_arith)
                requires
                    0 <= row as int,
                    (row as int) < (rows as int),
                    0 <= ch as int,
            ;
        }
        let cx = ((col as u64) * (cw as u64)) as u32;
        let cy = ((row as u64) * (ch as u64)) as u32;
        let sub = crop(img, cx, cy, cw, ch);
        result.push(sub);
    }
    Ok(result)
}

/// The pixel area covered by all grid cells together never exceeds the source
/// image's area: remainder pixels are dropped, not redistributed.
pub proof fn lemma_split_covered_area(w: u32, h: u32, rows: u32, cols: u32)
    requires
        rows >= 1,
        cols >= 1,
    ensures
        ((rows as int) * (cols as int)) * (((w as int) / (cols as int)) * ((h as int) / (
        rows as int))) <= (w as int) * (h as int),
{
    let cw = (w as int) / (cols as int);
    let ch = (h as int) / (rows as int);
    vstd::arithmetic::div_mod::lemma_fundamental_div_mod(w as int, cols as int);
    vstd::arithmetic::div_mod::lemma_mod_division_less_than_divisor(w as int, cols as int);
    vstd::arithmetic::div_mod::lemma_fundamental_div_mod(h as int, rows as int);
    vstd::arithmetic::div_mod::lemma_mod_division_less_than_divisor(h as int, rows as int);
    vstd::arithmetic::div_mod::lemma_div_pos_is_pos(w as int, cols as int);
    vstd::arithmetic::div_mod::lemma_div_pos_is_pos(h as int, rows as int);
    assert(((rows as int) * (cols as int)) * (cw * ch) <= (w as int) * (h as int))
        by (nonlinear_arith)
        requires
            (cols as int) * cw <= w as int,
            (rows as int) * ch <= h as int,
            0 <= cw,
            0 <= ch,
            0 < rows as int,
            0 < cols as int,
    ;
}

} // verus!
