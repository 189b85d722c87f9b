//! What the window draws, computed from plain values: colors, the shape of
//! the window, icon pixels.
use crate::config::Config;
use crate::model::{IconBitmap, MatchResult};
use crate::session::{list_start, message_rows, prompt_rows, spec_row_index};
use crate::text::{chars_of, decimal, lines, lines_chars, push_char, push_decimal, strings_of};
use vstd::prelude::*;

verus! {

/// The RGB part of a `0xAARRGGBB` color.
pub fn rgb(color: u32) -> (r: u32)
    ensures
        r == color % 0x0100_0000,
{
    assert(color & 0x00ff_ffff == color % 0x0100_0000) by (bit_vector);
    color & 0x00ff_ffff
}

// ---------------------------------------------------------------------------
// Window shape
// ---------------------------------------------------------------------------

/// A rectangle of the window shape, in pixels.
#[derive(Clone, Copy, Debug)]
pub struct XRectangle {
    pub x: i16,
    pub y: i16,
    pub width: u16,
    pub height: u16,
}

/// The smaller of two numbers.
pub open spec fn min_u32(a: u32, b: u32) -> u32 {
    if a < b {
        a
    } else {
        b
    }
}

/// The corner radius used: the requested one, at most half the width and
/// half the height.
pub open spec fn clamped_radius(width: u32, height: u32, radius: u32) -> u32 {
    min_u32(min_u32(radius, width / 2), height / 2)
}

/// The width left of a row once `inset` pixels are cut from each side
/// (saturating, as `u32::saturating_sub` and `saturating_mul` compute).
pub open spec fn row_span(width: u32, inset: u32) -> u32 {
    let cut: int = if inset * 2 > u32::MAX {
        u32::MAX as int
    } else {
        inset * 2
    };
    if width > cut {
        (width - cut) as u32
    } else {
        0
    }
}

/// The one-pixel-high rectangle of row `y` with the given inset.
pub open spec fn row_rect(width: u32, y: u32, inset: u32) -> XRectangle {
    XRectangle {
        x: min_u32(inset, 0x7fff) as i16,
        y: min_u32(y, 0x7fff) as i16,
        width: min_u32(row_span(width, inset), 0xffff) as u16,
        height: 1,
    }
}

/// The rectangles of the first `n` rows, leaving out rows with nothing left.
pub open spec fn row_rects(width: u32, insets: Seq<u32>, n: nat) -> Seq<XRectangle>
    decreases n,
{
    if n == 0 {
        Seq::empty()
    } else {
        let prev = row_rects(width, insets, (n - 1) as nat);
        let y = (n - 1) as int;
        if row_span(width, insets[y]) > 0 {
            prev.push(row_rect(width, y as u32, insets[y]))
        } else {
            prev
        }
    }
}

/// The shape of a `width` by `height` window with rounded corners, one
/// rectangle per row, where `insets[y]` is how far row `y` is cut in on each
/// side for the clamped radius; one rectangle for the whole window when the
/// clamped radius is 0, none for an empty window.
pub open spec fn spec_rounded_rectangles(
    width: u32,
    height: u32,
    radius: u32,
    insets: Seq<u32>,
) -> Seq<XRectangle> {
    if width == 0 || height == 0 {
        Seq::empty()
    } else if clamped_radius(width, height, radius) == 0 {
        seq![
            XRectangle {
                x: 0,
                y: 0,
                width: min_u32(width, 0xffff) as u16,
                height: min_u32(height, 0xffff) as u16,
            },
        ]
    } else {
        row_rects(width, insets, height as nat)
    }
}

/// The corner radius the window shape uses.
pub fn corner_radius(width: u32, height: u32, radius: u32) -> (r: u32)
    ensures
        r == clamped_radius(width, height, radius),
{
    let a = if radius < width / 2 {
        radius
    } else {
        width / 2
    };
    if a < height / 2 {
        a
    } else {
        height / 2
    }
}

fn span_of(width: u32, inset: u32) -> (r: u32)
    ensures
        r == row_span(width, inset),
{
    let cut: u32 = if inset > 0x7fff_ffff {
        u32::MAX
    } else {
        inset * 2
    };
    if width > cut {
        width - cut
    } else {
        0
    }
}

/// The rectangles of the window shape, given the inset of each row for
/// the clamped radius (which the caller computes by the corner geometry).
pub fn rounded_rectangles(width: u32, height: u32, radius: u32, insets: &Vec<u32>) -> (r: Vec<
    XRectangle,
>)
    requires
        clamped_radius(width, height, radius) > 0 ==> insets@.len() >= height,
    ensures
        r@ == spec_rounded_rectangles(width, height, radius, insets@),
{
    if width == 0 || height == 0 {
        return Vec::new();
    }
    let radius = corner_radius(width, height, radius);
    if radius == 0 {
        let w: u32 = if width < 0xffff {
            width
        } else {
            0xffff
        };
        let h: u32 = if height < 0xffff {
            height
        } else {
            0xffff
        };
        let mut v: Vec<XRectangle> = Vec::new();
        v.push(XRectangle { x: 0, y: 0, width: w as u16, height: h as u16 });
        return v;
    }
    let mut rects: Vec<XRectangle> = Vec::new();
    let mut y: u32 = 0;
    while y < height
        invariant
            y <= height,
            insets@.len() >= height,
            rects@ == row_rects(width, insets@, y as nat),
        decreases height - y,
    {
        let inset = insets[y as usize];
        let span = span_of(width, inset);
        if span > 0 {
            let x: u32 = if inset < 0x7fff {
                inset
            } else {
                0x7fff
            };
            let ry: u32 = if y < 0x7fff {
                y
            } else {
                0x7fff
            };
            let w: u32 = if span < 0xffff {
                span
            } else {
                0xffff
            };
            rects.push(XRectangle { x: x as i16, y: ry as i16, width: w as u16, height: 1 });
        }
        y = y + 1;
    }
    rects
}

// ---------------------------------------------------------------------------
// Icon pixels
// ---------------------------------------------------------------------------

/// A color channel `fg` over `bg` at opacity `a` of 255.
pub open spec fn blend(fg: u8, bg: u8, a: u8) -> u8 {
    ((fg * a + bg * (255 - a)) / 255) as u8
}

/// The red, green and blue channels of a color.
pub open spec fn channel(color: u32, shift: u32) -> u8 {
    ((color >> shift) & 0xff) as u8
}

/// The pixel count of an icon.
pub open spec fn pixel_count(icon: IconBitmap) -> int {
    icon.width * icon.height
}

/// The pixels to put on the window for an icon over a background color:
/// for each RGBA pixel, its blue, green and red channels blended over the
/// background's, then a zero byte.
pub open spec fn is_icon_image(icon: IconBitmap, background: u32, out: Seq<u8>) -> bool {
    let px = icon.rgba@;
    &&& out.len() == 4 * pixel_count(icon)
    &&& forall|i: int|
        #![trigger out[4 * i]]
        0 <= i < pixel_count(icon) ==> {
            let a = px[4 * i + 3];
            &&& out[4 * i] == blend(px[4 * i + 2], channel(background, 0), a)
            &&& out[4 * i + 1] == blend(px[4 * i + 1], channel(background, 8), a)
            &&& out[4 * i + 2] == blend(px[4 * i], channel(background, 16), a)
            &&& out[4 * i + 3] == 0
        }
}

fn blend_exec(fg: u8, bg: u8, a: u8) -> (r: u8)
    ensures
        r == blend(fg, bg, a),
{
    let f = fg as u32;
    let b = bg as u32;
    let al = a as u32;
    assert(f * al <= 255 * al) by (nonlinear_arith)
        requires
            f <= 255,
    ;
    assert(b * (255 - al) <= 255 * (255 - al)) by (nonlinear_arith)
        requires
            b <= 255,
            al <= 255,
    ;
    let sum = f * al + b * (255 - al);
    assert(sum / 255 <= 255) by (nonlinear_arith)
        requires
            sum <= 255 * 255,
    ;
    (sum / 255) as u8
}

/// The window pixels of an icon drawn over `background`.
pub fn icon_pixels(icon: &IconBitmap, background: u32) -> (r: Vec<u8>)
    requires
        pixel_count(*icon) <= u32::MAX,
        icon.rgba@.len() >= 4 * pixel_count(*icon),
    ensures
        is_icon_image(*icon, background, r@),
{
    let count = (icon.width * icon.height) as usize;
    let len = icon.rgba.len();
    let bg_r = ((background >> 16u32) & 0xff) as u8;
    let bg_g = ((background >> 8u32) & 0xff) as u8;
    let bg_b = ((background >> 0u32) & 0xff) as u8;
    let mut out: Vec<u8> = Vec::new();
    let mut i: usize = 0;
    while i < count
        invariant
            count == pixel_count(*icon),
            icon.rgba@.len() >= 4 * count,
            len == icon.rgba@.len(),
            i <= count,
            bg_r == channel(background, 16),
            bg_g == channel(background, 8),
            bg_b == channel(background, 0),
            out@.len() == 4 * i,
            forall|k: int|
                #![trigger out@[4 * k]]
                0 <= k < i ==> {
                    let px = icon.rgba@;
                    let a = px[4 * k + 3];
                    &&& out@[4 * k] == blend(px[4 * k + 2], channel(background, 0), a)
                    &&& out@[4 * k + 1] == blend(px[4 * k + 1], channel(background, 8), a)
                    &&& out@[4 * k + 2] == blend(px[4 * k], channel(background, 16), a)
                    &&& out@[4 * k + 3] == 0
                },
        decreases count - i,
    {
        let src = i * 4;
        let r = icon.rgba[src];
        let g = icon.rgba[src + 1];
        let b = icon.rgba[src + 2];
        let a = icon.rgba[src + 3];
        let ghost before = out@;
        out.push(blend_exec(b, bg_b, a));
        out.push(blend_exec(g, bg_g, a));
        out.push(blend_exec(r, bg_r, a));
        out.push(0u8);
        proof {
            assert forall|k: int|
                #![trigger out@[4 * k]]
                0 <= k < i + 1 implies {
                    let px = icon.rgba@;
                    let a = px[4 * k + 3];
                    &&& out@[4 * k] == blend(px[4 * k + 2], channel(background, 0), a)
                    &&& out@[4 * k + 1] == blend(px[4 * k + 1], channel(background, 8), a)
                    &&& out@[4 * k + 2] == blend(px[4 * k], channel(background, 16), a)
                    &&& out@[4 * k + 3] == 0
                } by {
                if k < i {
                    assert(out@[4 * k] == before[4 * k]);
                    assert(out@[4 * k + 1] == before[4 * k + 1]);
                    assert(out@[4 * k + 2] == before[4 * k + 2]);
                    assert(out@[4 * k + 3] == before[4 * k + 3]);
                }
            }
        }
        i = i + 1;
    }
    out
}

// ---------------------------------------------------------------------------
// Window geometry
// ---------------------------------------------------------------------------

/// `u32::saturating_mul`.
pub open spec fn sat_mul(a: u32, b: u32) -> u32 {
    if a * b > u32::MAX {
        u32::MAX
    } else {
        (a * b) as u32
    }
}

/// `u32::saturating_add`.
pub open spec fn sat_add(a: u32, b: u32) -> u32 {
    if a + b > u32::MAX {
        u32::MAX
    } else {
        (a + b) as u32
    }
}

/// `u32::saturating_sub`.
pub open spec fn sat_sub(a: u32, b: u32) -> u32 {
    if a < b {
        0
    } else {
        (a - b) as u32
    }
}

/// Half of an `i32`, rounded toward zero as Rust's `/` rounds.
pub open spec fn half_i32(v: i32) -> int {
    if v >= 0 {
        v / 2
    } else {
        -((-v) / 2)
    }
}

/// The sizes and offsets of the window, in pixels.
#[derive(Clone, Copy, Debug)]
pub struct WindowLayout {
    pub width: u32,
    pub height: u32,
    pub row_height: u32,
    pub content_x: i32,
    pub content_width: u32,
    pub baseline_offset: i32,
    pub icon_size: u32,
    pub icon_gap: i32,
}

/// The list rows of a window opened for `rows` rows: at least one, as a
/// `u32`.
pub open spec fn list_rows(rows: usize) -> u32 {
    (if rows >= 1 {
        rows
    } else {
        1
    }) as u32
}

/// The row height: the configured line height, 22 by default.
pub open spec fn row_height_of(config: Config) -> u32 {
    match config.line_height {
        Some(h) => h,
        None => 22,
    }
}

/// The row sums and the height product stay within `u32`.
pub open spec fn window_layout_fits(config: Config, rows: usize) -> bool {
    let n = prompt_rows(config) + message_rows(config) + list_rows(rows);
    &&& n <= u32::MAX
    &&& n * row_height_of(config) <= u32::MAX
}

/// The window's layout for `rows` list rows, a font whose digit is
/// `char_width` wide and whose baseline lies `font_baseline` below the top,
/// and icons scaled to `scaled_icon_size` when they are enabled: the width
/// holds the padding and `config.width` characters; the height the padding,
/// every row and the gaps after the message and prompt rows.
pub open spec fn spec_window_layout(
    config: Config,
    rows: usize,
    char_width: u32,
    font_baseline: i32,
    scaled_icon_size: u32,
) -> WindowLayout {
    let p = prompt_rows(config);
    let m = message_rows(config);
    let rh = row_height_of(config);
    let width = sat_add(sat_mul(config.horizontal_pad, 2), sat_mul(config.width, char_width));
    let height = sat_add(
        sat_add(sat_mul(config.vertical_pad, 2), ((p + m + list_rows(rows)) * rh) as u32),
        sat_mul(config.inner_pad, (p + m) as u32),
    );
    let half_row = half_i32(rh as i32) + 5;
    WindowLayout {
        width,
        height,
        row_height: rh,
        content_x: config.horizontal_pad as i32,
        content_width: sat_sub(width, sat_mul(config.horizontal_pad, 2)),
        baseline_offset: if font_baseline > half_row {
            font_baseline
        } else {
            half_row as i32
        },
        icon_size: if config.icons_enabled {
            scaled_icon_size
        } else {
            0
        },
        icon_gap: 10,
    }
}

fn sat_mul_exec(a: u32, b: u32) -> (r: u32)
    ensures
        r == sat_mul(a, b),
{
    match a.checked_mul(b) {
        Some(v) => v,
        None => u32::MAX,
    }
}

/// The number of message rows of the configuration.
pub fn message_row_count(config: &Config) -> (r: u32)
    ensures
        r == message_rows(*config),
{
    let mc = chars_of(config.message.as_str());
    if mc.len() == 0 {
        0
    } else {
        lines_chars(&mc).len() as u32
    }
}

/// Whether `window_layout` stays within `u32` for `rows` list rows.
pub fn window_layout_in_range(config: &Config, rows: usize) -> (r: bool)
    ensures
        r == window_layout_fits(*config, rows),
{
    let p: u64 = if config.hide_prompt {
        0
    } else {
        1
    };
    let m = message_row_count(config) as u64;
    let lr: u64 = if rows >= 1 {
        (rows as u32) as u64
    } else {
        1
    };
    let n = p + m + lr;
    if n > u32::MAX as u64 {
        return false;
    }
    let rh: u64 = match config.line_height {
        Some(h) => h as u64,
        None => 22,
    };
    assert(n * rh <= 0xffff_ffff * 0xffff_ffff) by (nonlinear_arith)
        requires
            n <= 0xffff_ffff,
            rh <= 0xffff_ffff,
    ;
    n * rh <= u32::MAX as u64
}

/// Computes the window's layout.
pub fn window_layout(
    config: &Config,
    rows: usize,
    char_width: u32,
    font_baseline: i32,
    scaled_icon_size: u32,
) -> (r: WindowLayout)
    requires
        window_layout_fits(*config, rows),
    ensures
        r == spec_window_layout(*config, rows, char_width, font_baseline, scaled_icon_size),
{
    let p: u32 = if config.hide_prompt {
        0
    } else {
        1
    };
    let m = message_row_count(config);
    let lr: u32 = if rows >= 1 {
        rows as u32
    } else {
        1
    };
    let rh: u32 = match config.line_height {
        Some(h) => h,
        None => 22,
    };
    let width = sat_mul_exec(config.horizontal_pad, 2).saturating_add(
        sat_mul_exec(config.width, char_width),
    );
    let height = sat_mul_exec(config.vertical_pad, 2).saturating_add((p + m + lr) * rh).saturating_add(
        sat_mul_exec(config.inner_pad, p + m),
    );
    let v = rh as i32;
    let half: i32 = if v >= 0 {
        v / 2
    } else {
        let pos: i64 = -(v as i64);
        (-(pos / 2)) as i32
    };
    let half_row = half + 5;
    WindowLayout {
        width,
        height,
        row_height: rh,
        content_x: config.horizontal_pad as i32,
        content_width: width.saturating_sub(sat_mul_exec(config.horizontal_pad, 2)),
        baseline_offset: if font_baseline > half_row {
            font_baseline
        } else {
            half_row
        },
        icon_size: if config.icons_enabled {
            scaled_icon_size
        } else {
            0
        },
        icon_gap: 10,
    }
}

/// The horizontal position of the window: the configured one, or centred
/// on a screen `screen_width` wide (not left of its edge).
pub open spec fn spec_window_x(config: Config, screen_width: i32, width: u32) -> i32 {
    if config.window_x >= 0 {
        config.window_x
    } else {
        let c = (screen_width - (width as i32)) / 2;
        if c > 0 {
            c as i32
        } else {
            0
        }
    }
}

/// Computes the horizontal position of the window.
pub fn window_x(config: &Config, screen_width: i32, width: u32) -> (r: i32)
    requires
        config.window_x < 0 ==> i32::MIN <= screen_width - (width as i32) <= i32::MAX,
    ensures
        r == spec_window_x(*config, screen_width, width),
{
    if config.window_x >= 0 {
        config.window_x
    } else {
        let c = (screen_width - (width as i32)) / 2;
        if c > 0 {
            c
        } else {
            0
        }
    }
}

// ---------------------------------------------------------------------------
// Frame
// ---------------------------------------------------------------------------

/// Where the text of a text operation comes from.
#[derive(Clone, Copy, Debug, PartialEq, Eq, Structural)]
pub enum TextSource {
    /// The given line of the configured message.
    MessageLine(usize),
    /// The prompt.
    Prompt,
    /// The placeholder, shown while nothing is typed.
    Placeholder,
    /// The typed input, as shown.
    Input,
    /// The match counter, `shown/total`.
    Counter,
    /// The label of the given shown match.
    Label(usize),
}

/// One drawing operation of a frame.  Colors are `0xRRGGBB`; a text's `y`
/// is its baseline.
#[derive(Clone, Copy, Debug, PartialEq, Eq, Structural)]
pub enum DrawOp {
    /// Fill a rectangle.
    Fill { x: i32, y: i32, width: u32, height: u32, color: u32 },
    /// Draw a text over a background color.
    Text { x: i32, y: i32, source: TextSource, color: u32, background: u32 },
    /// Draw the icon of the given shown match, top-left corner at `x`, `y`.
    Icon { row: usize, x: i32, y: i32, background: u32 },
    /// Mark the matched characters of the given shown match's label.
    Hint { row: usize, x: i32, y: i32, background: u32, color: u32 },
}

/// The RGB part of a color.
pub open spec fn rgb_of(c: u32) -> u32 {
    (c % 0x0100_0000) as u32
}

/// Division by two rounded toward zero, as Rust's `/` on `i32` rounds.
pub open spec fn trunc_half(v: int) -> int {
    if v >= 0 {
        v / 2
    } else {
        -((-v) / 2)
    }
}

/// Whether `v` is an `i32`.
pub open spec fn i32_fits(v: int) -> bool {
    i32::MIN <= v <= i32::MAX
}

/// How far down each message or prompt row moves the next one.
pub open spec fn line_step(config: Config, lay: WindowLayout) -> int {
    (lay.row_height as i32) as int + (config.inner_pad as i32) as int
}

/// The number of message lines drawn.
pub open spec fn message_count(config: Config) -> nat {
    if config.message@.len() == 0 {
        0
    } else {
        lines(config.message@).len()
    }
}

/// The baseline of the first text row.
pub open spec fn first_baseline(config: Config, lay: WindowLayout) -> int {
    (config.vertical_pad as i32) as int + lay.baseline_offset as int
}

/// The baseline of the prompt row, below the message rows.
pub open spec fn prompt_baseline(config: Config, lay: WindowLayout) -> int {
    first_baseline(config, lay) + message_count(config) * line_step(config, lay)
}

/// The top of the list, below the prompt row when there is one.
pub open spec fn list_top(config: Config, lay: WindowLayout) -> int {
    prompt_baseline(config, lay) + (if config.hide_prompt {
        0
    } else {
        line_step(config, lay)
    }) - lay.baseline_offset
}

/// The top of list row `idx`.
pub open spec fn row_top(config: Config, lay: WindowLayout, idx: int) -> int {
    list_top(config, lay) + idx * ((lay.row_height as i32) as int)
}

/// The prompt's width as drawn: at least 8 pixels.
pub open spec fn prompt_advance(prompt_width: i32) -> int {
    if prompt_width > 8 {
        prompt_width as int
    } else {
        8
    }
}

/// Where the text of a row starts: after the icon when there is one.
pub open spec fn row_text_x(lay: WindowLayout, has_icon: bool) -> int {
    if has_icon {
        lay.content_x + ((lay.icon_size as i32) as int + lay.icon_gap)
    } else {
        lay.content_x as int
    }
}

/// Every `i32` value the frame computes is in range.
pub open spec fn frame_fits(
    config: Config,
    lay: WindowLayout,
    rows: Seq<MatchResult>,
    prompt_width: i32,
    counter_width: i32,
) -> bool {
    let n = rows.len();
    let rh = (lay.row_height as i32) as int;
    let ic = (lay.icon_size as i32) as int;
    &&& n + 3 <= u32::MAX
    &&& (n + 3) * lay.row_height <= u32::MAX
    &&& n <= i32::MAX
    &&& i32_fits(first_baseline(config, lay))
    &&& i32_fits(line_step(config, lay))
    &&& forall|k: int|
        0 <= k <= message_count(config) ==> i32_fits(
            #[trigger] (first_baseline(config, lay) + k * line_step(config, lay)),
        )
    &&& !config.hide_prompt ==> {
        &&& i32_fits(lay.content_x + prompt_advance(prompt_width))
        &&& i32_fits(lay.content_x + prompt_advance(prompt_width) + 4)
        &&& i32_fits(prompt_baseline(config, lay) + line_step(config, lay))
    }
    &&& !config.hide_prompt && config.match_counter ==> {
        &&& i32_fits((lay.width as i32) - (config.horizontal_pad as i32))
        &&& i32_fits((lay.width as i32) - (config.horizontal_pad as i32) - counter_width)
    }
    &&& i32_fits(list_top(config, lay))
    &&& forall|idx: int|
        0 <= idx < n ==> {
            &&& i32_fits(#[trigger] (idx * rh))
            &&& i32_fits(row_top(config, lay, idx))
            &&& i32_fits(row_top(config, lay, idx) + lay.baseline_offset)
            &&& rows[idx].entry.icon is Some ==> {
                &&& i32_fits(rh - ic)
                &&& i32_fits(row_top(config, lay, idx) + trunc_half(rh - ic))
                &&& i32_fits(ic + lay.icon_gap)
                &&& i32_fits(row_text_x(lay, true))
            }
        }
}

/// The text operations of the first `k` message lines.
pub open spec fn message_ops(config: Config, lay: WindowLayout, k: nat) -> Seq<DrawOp> {
    Seq::new(
        k,
        |i: int|
            DrawOp::Text {
                x: lay.content_x,
                y: (first_baseline(config, lay) + i * line_step(config, lay)) as i32,
                source: TextSource::MessageLine(i as usize),
                color: rgb_of(config.colors.message),
                background: rgb_of(config.colors.background),
            },
    )
}

/// The operations of the prompt row: the prompt, then the input (or the
/// placeholder while nothing is typed), then the match counter at the right
/// edge when it is enabled.
pub open spec fn prompt_ops(
    config: Config,
    lay: WindowLayout,
    input_empty: bool,
    prompt_width: i32,
    counter_width: i32,
) -> Seq<DrawOp> {
    let y = prompt_baseline(config, lay) as i32;
    let bg = rgb_of(config.colors.background);
    let placeholder = input_empty && config.placeholder@.len() > 0;
    let counter_x = (lay.width as i32) - (config.horizontal_pad as i32) - counter_width;
    seq![
        DrawOp::Text {
            x: lay.content_x,
            y,
            source: TextSource::Prompt,
            color: rgb_of(config.colors.prompt),
            background: bg,
        },
        DrawOp::Text {
            x: (lay.content_x + prompt_advance(prompt_width) + 4) as i32,
            y,
            source: if placeholder {
                TextSource::Placeholder
            } else {
                TextSource::Input
            },
            color: if placeholder {
                rgb_of(config.colors.placeholder)
            } else {
                rgb_of(config.colors.input)
            },
            background: bg,
        },
    ] + if config.match_counter {
        seq![
            DrawOp::Text {
                x: if counter_x > lay.content_x {
                    counter_x as i32
                } else {
                    lay.content_x
                },
                y,
                source: TextSource::Counter,
                color: rgb_of(config.colors.counter),
                background: bg,
            },
        ]
    } else {
        Seq::empty()
    }
}

/// The operations of list row `idx` showing match `m`: the selection bar
/// when it is the selected row, the icon, the label, and the match marks.
pub open spec fn one_row_ops(
    config: Config,
    lay: WindowLayout,
    m: MatchResult,
    idx: int,
    selected: usize,
) -> Seq<DrawOp> {
    let top = row_top(config, lay, idx);
    let active = idx == selected;
    let c = config.colors;
    let has_icon = m.entry.icon is Some;
    let text_x = row_text_x(lay, has_icon) as i32;
    let y = (top + lay.baseline_offset) as i32;
    let bg = if active {
        rgb_of(c.selection_background)
    } else {
        rgb_of(c.background)
    };
    let bar = if active {
        seq![
            DrawOp::Fill {
                x: lay.content_x,
                y: top as i32,
                width: lay.content_width,
                height: sat_sub(lay.row_height, 1),
                color: rgb_of(c.selection_background),
            },
        ]
    } else {
        Seq::empty()
    };
    let icon = if has_icon {
        seq![
            DrawOp::Icon {
                row: idx as usize,
                x: lay.content_x,
                y: (top + trunc_half((lay.row_height as i32) - (lay.icon_size as i32))) as i32,
                background: rgb_of(c.background),
            },
        ]
    } else {
        Seq::empty()
    };
    let label = seq![
        DrawOp::Text {
            x: text_x,
            y,
            source: TextSource::Label(idx as usize),
            color: if active {
                rgb_of(c.selection_text)
            } else {
                rgb_of(c.text)
            },
            background: bg,
        },
    ];
    let hint = if m.matched_indices@.len() > 0 {
        seq![
            DrawOp::Hint {
                row: idx as usize,
                x: text_x,
                y,
                background: bg,
                color: if active {
                    rgb_of(c.selection_match)
                } else {
                    rgb_of(c.matched_text)
                },
            },
        ]
    } else {
        Seq::empty()
    };
    bar + icon + label + hint
}

/// The operations of the first `k` list rows.
pub open spec fn row_ops(
    config: Config,
    lay: WindowLayout,
    rows: Seq<MatchResult>,
    selected: usize,
    k: nat,
) -> Seq<DrawOp>
    decreases k,
{
    if k == 0 {
        Seq::empty()
    } else {
        row_ops(config, lay, rows, selected, (k - 1) as nat) + one_row_ops(
            config,
            lay,
            rows[k - 1],
            k - 1,
            selected,
        )
    }
}

/// A frame: the background, the message lines, the prompt row unless the
/// prompt is hidden, and the shown matches.
pub open spec fn spec_frame_ops(
    config: Config,
    lay: WindowLayout,
    input_empty: bool,
    rows: Seq<MatchResult>,
    selected: usize,
    prompt_width: i32,
    counter_width: i32,
) -> Seq<DrawOp> {
    let background = DrawOp::Fill {
        x: 0,
        y: 0,
        width: lay.width,
        height: sat_add(sat_mul(config.vertical_pad, 2), ((rows.len() + 3) * lay.row_height) as u32),
        color: rgb_of(config.colors.background),
    };
    seq![background] + message_ops(config, lay, message_count(config)) + (if config.hide_prompt {
        Seq::empty()
    } else {
        prompt_ops(config, lay, input_empty, prompt_width, counter_width)
    }) + row_ops(config, lay, rows, selected, rows.len())
}

fn rgb_exec(c: u32) -> (r: u32)
    ensures
        r == rgb_of(c),
{
    rgb(c)
}

fn push_row_ops(
    ops: &mut Vec<DrawOp>,
    config: &Config,
    lay: &WindowLayout,
    rows: &[MatchResult],
    idx: usize,
    selected: usize,
    row_start: i32,
    prompt_width: i32,
    counter_width: i32,
)
    requires
        frame_fits(*config, *lay, rows@, prompt_width, counter_width),
        idx < rows@.len(),
        row_start == list_top(*config, *lay),
    ensures
        final(ops)@ == old(ops)@ + one_row_ops(*config, *lay, rows@[idx as int], idx as int, selected),
{
    let ghost before = ops@;
    let c = &config.colors;
    let bg = rgb_exec(c.background);
    let rh = lay.row_height as i32;
    let ic = lay.icon_size as i32;
    let item = &rows[idx];
    assert(i32_fits(idx * (rh as int)));
    assert(i32_fits(row_top(*config, *lay, idx as int)));
    let row_y = row_start + (idx as i32) * rh;
    let active = idx == selected;
    let sel_bg = rgb_exec(c.selection_background);
    if active {
        ops.push(
            DrawOp::Fill {
                x: lay.content_x,
                y: row_y,
                width: lay.content_width,
                height: lay.row_height.saturating_sub(1),
                color: sel_bg,
            },
        );
    }
    let ghost after_bar = ops@;
    let fg = if active {
        rgb_exec(c.selection_text)
    } else {
        rgb_exec(c.text)
    };
    let mut text_x = lay.content_x;
    if item.entry.icon.is_some() {
        let d = rh - ic;
        let half: i32 = if d >= 0 {
            d / 2
        } else {
            let pos: i64 = -(d as i64);
            (-(pos / 2)) as i32
        };
        ops.push(DrawOp::Icon { row: idx, x: lay.content_x, y: row_y + half, background: bg });
        text_x = text_x + (ic + lay.icon_gap);
    }
    let ghost after_icon = ops@;
    let row_bg = if active {
        sel_bg
    } else {
        bg
    };
    ops.push(
        DrawOp::Text {
            x: text_x,
            y: row_y + lay.baseline_offset,
            source: TextSource::Label(idx),
            color: fg,
            background: row_bg,
        },
    );
    let ghost after_label = ops@;
    if item.matched_indices.len() > 0 {
        ops.push(
            DrawOp::Hint {
                row: idx,
                x: text_x,
                y: row_y + lay.baseline_offset,
                background: row_bg,
                color: if active {
                    rgb_exec(c.selection_match)
                } else {
                    rgb_exec(c.matched_text)
                },
            },
        );
    }
    proof {
        let m = rows@[idx as int];
        let top = row_top(*config, *lay, idx as int);
        assert(row_y == top);
        assert(text_x == row_text_x(*lay, m.entry.icon is Some));
        let spec_ops = one_row_ops(*config, *lay, m, idx as int, selected);
        let bar = if active {
            seq![
                DrawOp::Fill {
                    x: lay.content_x,
                    y: top as i32,
                    width: lay.content_width,
                    height: sat_sub(lay.row_height, 1),
                    color: rgb_of(config.colors.selection_background),
                },
            ]
        } else {
            Seq::<DrawOp>::empty()
        };
        assert(after_bar =~= before + bar);
    }
}

/// The drawing operations of a frame, given the shown input, the shown
/// matches and the selected one among them, and the measured width of the
/// prompt and of the match counter's text.
pub fn frame_ops(
    config: &Config,
    lay: &WindowLayout,
    input: &str,
    rows: &[MatchResult],
    selected: usize,
    prompt_width: i32,
    counter_width: i32,
) -> (r: Vec<DrawOp>)
    requires
        frame_fits(*config, *lay, rows@, prompt_width, counter_width),
    ensures
        r@ == spec_frame_ops(
            *config,
            *lay,
            input@.len() == 0,
            rows@,
            selected,
            prompt_width,
            counter_width,
        ),
{
    let c = &config.colors;
    let bg = rgb_exec(c.background);
    let n = rows.len();
    let mut ops: Vec<DrawOp> = Vec::new();
    let fill_h = sat_mul_exec(config.vertical_pad, 2).saturating_add((n as u32 + 3) * lay.row_height);
    ops.push(DrawOp::Fill { x: 0, y: 0, width: lay.width, height: fill_h, color: bg });
    let ghost bg_op = ops@[0];
    let mut cursor_y: i32 = config.vertical_pad as i32 + lay.baseline_offset;
    let mc = chars_of(config.message.as_str());
    let m: usize = if mc.len() == 0 {
        0
    } else {
        lines_chars(&mc).len()
    };
    let step = lay.row_height as i32 + config.inner_pad as i32;
    let mut k: usize = 0;
    assert(0 * line_step(*config, *lay) == 0);
    while k < m
        invariant
            frame_fits(*config, *lay, rows@, prompt_width, counter_width),
            m == message_count(*config),
            step == line_step(*config, *lay),
            bg == rgb_of(config.colors.background),
            *c == config.colors,
            k <= m,
            cursor_y == first_baseline(*config, *lay) + k * line_step(*config, *lay),
            ops@ == seq![bg_op] + message_ops(*config, *lay, k as nat),
        decreases m - k,
    {
        let ghost before = ops@;
        let op = DrawOp::Text {
            x: lay.content_x,
            y: cursor_y,
            source: TextSource::MessageLine(k),
            color: rgb_exec(c.message),
            background: bg,
        };
        ops.push(op);
        proof {
            let ms = message_ops(*config, *lay, (k + 1) as nat);
            assert(i32_fits(first_baseline(*config, *lay) + k * line_step(*config, *lay)));
            let v = first_baseline(*config, *lay) + k * line_step(*config, *lay);
            assert(v as i32 == cursor_y);
            assert(ms[k as int] == DrawOp::Text {
                x: lay.content_x,
                y: v as i32,
                source: TextSource::MessageLine(k),
                color: rgb_of(config.colors.message),
                background: rgb_of(config.colors.background),
            });
            assert(op == DrawOp::Text {
                x: lay.content_x,
                y: cursor_y,
                source: TextSource::MessageLine(k),
                color: rgb_of(config.colors.message),
                background: bg,
            });
            assert(ms[k as int] == op);
            assert(ms =~= message_ops(*config, *lay, k as nat).push(op));
        }
        assert(i32_fits(first_baseline(*config, *lay) + (k + 1) * line_step(*config, *lay)));
        assert(first_baseline(*config, *lay) + (k + 1) * line_step(*config, *lay) == cursor_y
            + step) by (nonlinear_arith)
            requires
                cursor_y == first_baseline(*config, *lay) + k * line_step(*config, *lay),
                step == line_step(*config, *lay),
        ;
        cursor_y = cursor_y + step;
        k = k + 1;
        assert(ops@ == seq![bg_op] + message_ops(*config, *lay, k as nat));
    }
    assert(cursor_y == prompt_baseline(*config, *lay));
    if !config.hide_prompt {
        let ghost before = ops@;
        let pw: i32 = if prompt_width > 8 {
            prompt_width
        } else {
            8
        };
        ops.push(
            DrawOp::Text {
                x: lay.content_x,
                y: cursor_y,
                source: TextSource::Prompt,
                color: rgb_exec(c.prompt),
                background: bg,
            },
        );
        let placeholder = chars_of(input).len() == 0 && chars_of(config.placeholder.as_str()).len()
            > 0;
        ops.push(
            DrawOp::Text {
                x: lay.content_x + pw + 4,
                y: cursor_y,
                source: if placeholder {
                    TextSource::Placeholder
                } else {
                    TextSource::Input
                },
                color: if placeholder {
                    rgb_exec(c.placeholder)
                } else {
                    rgb_exec(c.input)
                },
                background: bg,
            },
        );
        if config.match_counter {
            let cx = lay.width as i32 - config.horizontal_pad as i32 - counter_width;
            ops.push(
                DrawOp::Text {
                    x: if cx > lay.content_x {
                        cx
                    } else {
                        lay.content_x
                    },
                    y: cursor_y,
                    source: TextSource::Counter,
                    color: rgb_exec(c.counter),
                    background: bg,
                },
            );
        }
        assert(ops@ == before + prompt_ops(
            *config,
            *lay,
            input@.len() == 0,
            prompt_width,
            counter_width,
        ));
        cursor_y = cursor_y + step;
    }
    let row_start = cursor_y - lay.baseline_offset;
    assert(row_start == list_top(*config, *lay));
    let ghost head = ops@;
    let mut idx: usize = 0;
    while idx < n
        invariant
            frame_fits(*config, *lay, rows@, prompt_width, counter_width),
            n == rows@.len(),
            row_start == list_top(*config, *lay),
            idx <= n,
            ops@ == head + row_ops(*config, *lay, rows@, selected, idx as nat),
        decreases n - idx,
    {
        push_row_ops(&mut ops, config, lay, rows, idx, selected, row_start, prompt_width, counter_width);
        idx = idx + 1;
    }
    ops
}

fn fits_i32(v: i128) -> (r: bool)
    ensures
        r == i32_fits(v as int),
{
    i32::MIN as i128 <= v && v <= i32::MAX as i128
}

/// Whether every `i32` value of `frame_ops` is in range.
#[verifier::spinoff_prover]
#[verifier::rlimit(40)]
pub fn frame_in_range(
    config: &Config,
    lay: &WindowLayout,
    rows: &[MatchResult],
    prompt_width: i32,
    counter_width: i32,
) -> (r: bool)
    ensures
        r == frame_fits(*config, *lay, rows@, prompt_width, counter_width),
{
    let n = rows.len();
    if n as u128 + 3 > u32::MAX as u128 {
        return false;
    }
    assert((n + 3) * lay.row_height <= 0xffff_ffff * 0xffff_ffff) by (nonlinear_arith)
        requires
            n + 3 <= 0xffff_ffff,
            lay.row_height <= 0xffff_ffff,
    ;
    if (n as u128 + 3) * (lay.row_height as u128) > u32::MAX as u128 {
        return false;
    }
    if n as u128 > i32::MAX as u128 {
        return false;
    }
    let first = (config.vertical_pad as i32) as i128 + lay.baseline_offset as i128;
    if !fits_i32(first) {
        return false;
    }
    let step = (lay.row_height as i32) as i128 + (config.inner_pad as i32) as i128;
    if !fits_i32(step) {
        return false;
    }
    let mc = chars_of(config.message.as_str());
    let m: usize = if mc.len() == 0 {
        0
    } else {
        lines_chars(&mc).len()
    };
    let mut k: usize = 0;
    let mut v: i128 = first;
    loop
        invariant
            m == message_count(*config),
            first == first_baseline(*config, *lay),
            step == line_step(*config, *lay),
            i32_fits(step as int),
            k <= m,
            v == first + k * step,
            forall|j: int| 0 <= j < k ==> i32_fits(#[trigger] (first_baseline(*config, *lay) + j * line_step(*config, *lay))),
        ensures
            k == m || !i32_fits(v as int),
            v == first + k * step,
            forall|j: int| 0 <= j < k ==> i32_fits(#[trigger] (first_baseline(*config, *lay) + j * line_step(*config, *lay))),
        decreases m - k,
    {
        if !fits_i32(v) || k == m {
            break;
        }
        assert(first + (k + 1) * step == v + step) by (nonlinear_arith)
            requires
                v == first + k * step,
        ;
        v = v + step;
        k = k + 1;
    }
    if !fits_i32(v) {
        return false;
    }
    assert(forall|j: int| 0 <= j <= message_count(*config) ==> i32_fits(
        #[trigger] (first_baseline(*config, *lay) + j * line_step(*config, *lay)),
    ));
    let prompt_y = v;
    assert(prompt_y == prompt_baseline(*config, *lay));
    let mut after_prompt = prompt_y;
    if !config.hide_prompt {
        let adv: i128 = if prompt_width > 8 {
            prompt_width as i128
        } else {
            8
        };
        if !fits_i32(lay.content_x as i128 + adv) || !fits_i32(lay.content_x as i128 + adv + 4) {
            return false;
        }
        if !fits_i32(prompt_y + step) {
            return false;
        }
        after_prompt = prompt_y + step;
        if config.match_counter {
            let w = (lay.width as i32) as i128 - (config.horizontal_pad as i32) as i128;
            if !fits_i32(w) || !fits_i32(w - counter_width as i128) {
                return false;
            }
        }
    }
    let top = after_prompt - lay.baseline_offset as i128;
    if !fits_i32(top) {
        return false;
    }
    assert(top == list_top(*config, *lay));
    let rh = (lay.row_height as i32) as i128;
    let ic = (lay.icon_size as i32) as i128;
    let mut idx: usize = 0;
    while idx < n
        invariant
            n == rows@.len(),
            n <= i32::MAX,
            top == list_top(*config, *lay),
            i32_fits(top as int),
            rh == (lay.row_height as i32) as int,
            ic == (lay.icon_size as i32) as int,
            idx <= n,
            forall|j: int|
                0 <= j < idx ==> {
                    &&& i32_fits(#[trigger] (j * rh))
                    &&& i32_fits(row_top(*config, *lay, j))
                    &&& i32_fits(row_top(*config, *lay, j) + lay.baseline_offset)
                    &&& rows@[j].entry.icon is Some ==> {
                        &&& i32_fits(rh - ic)
                        &&& i32_fits(row_top(*config, *lay, j) + trunc_half(rh - ic))
                        &&& i32_fits(ic + lay.icon_gap)
                        &&& i32_fits(row_text_x(*lay, true))
                    }
                },
        decreases n - idx,
    {
        assert(idx * rh <= 0x7fff_ffff * 0x8000_0000 && idx * rh >= -(0x7fff_ffff * 0x8000_0000))
            by (nonlinear_arith)
            requires
                0 <= idx <= 0x7fff_ffff,
                -0x8000_0000 <= rh <= 0x7fff_ffff,
        ;
        let off = (idx as i128) * rh;
        if !fits_i32(off) {
            return false;
        }
        let row_y = top + off;
        if !fits_i32(row_y) || !fits_i32(row_y + lay.baseline_offset as i128) {
            return false;
        }
        if rows[idx].entry.icon.is_some() {
            let d = rh - ic;
            if !fits_i32(d) {
                return false;
            }
            let half: i128 = if d >= 0 {
                d / 2
            } else {
                -((-d) / 2)
            };
            if !fits_i32(row_y + half) {
                return false;
            }
            let g = ic + lay.icon_gap as i128;
            if !fits_i32(g) || !fits_i32(lay.content_x as i128 + g) {
                return false;
            }
        }
        idx = idx + 1;
    }
    assert(n + 3 <= u32::MAX);
    assert((n + 3) * lay.row_height <= u32::MAX);
    assert(i32_fits(first_baseline(*config, *lay)));
    assert(i32_fits(line_step(*config, *lay)));
    assert(!config.hide_prompt ==> i32_fits(prompt_baseline(*config, *lay) + line_step(*config, *lay)));
    assert(i32_fits(list_top(*config, *lay)));
    true
}

/// How far a glyph moves the pen: its width, at least 8 pixels.
pub open spec fn glyph_advance(w: i32) -> int {
    if w > 8 {
        w as int
    } else {
        8
    }
}

/// Where glyph `k` of a label starts, the glyphs before it being `widths`
/// wide.
pub open spec fn glyph_x(start: i32, widths: Seq<i32>, k: nat) -> int
    decreases k,
{
    if k == 0 {
        start as int
    } else {
        glyph_x(start, widths, (k - 1) as nat) + glyph_advance(widths[k - 1])
    }
}

/// The matched glyphs among the first `k`, with where each starts.
pub open spec fn glyph_marks(start: i32, widths: Seq<i32>, indices: Seq<usize>, k: nat) -> Seq<
    (usize, i32),
>
    decreases k,
{
    if k == 0 {
        Seq::empty()
    } else {
        let prev = glyph_marks(start, widths, indices, (k - 1) as nat);
        if indices.contains((k - 1) as usize) {
            prev.push(((k - 1) as usize, glyph_x(start, widths, (k - 1) as nat) as i32))
        } else {
            prev
        }
    }
}

/// Where to draw the matched characters of a label whose glyphs are
/// `widths` wide, starting at `start`: each glyph at a position in
/// `indices`, with its horizontal position.  `None` when a position leaves
/// the `i32` range.
pub fn hint_positions(start: i32, widths: &Vec<i32>, indices: &Vec<usize>) -> (r: Option<
    Vec<(usize, i32)>,
>)
    ensures
        r is Some <==> forall|k: int|
            0 <= k <= widths@.len() ==> i32_fits(#[trigger] glyph_x(start, widths@, k as nat)),
        r matches Some(v) ==> v@ == glyph_marks(start, widths@, indices@, widths@.len()),
{
    let mut out: Vec<(usize, i32)> = Vec::new();
    let mut x: i32 = start;
    let mut k: usize = 0;
    while k < widths.len()
        invariant
            k <= widths@.len(),
            x == glyph_x(start, widths@, k as nat),
            forall|j: int| 0 <= j <= k ==> i32_fits(#[trigger] glyph_x(start, widths@, j as nat)),
            out@ == glyph_marks(start, widths@, indices@, k as nat),
        decreases widths@.len() - k,
    {
        let mut marked = false;
        let mut j: usize = 0;
        while j < indices.len()
            invariant
                j <= indices@.len(),
                marked == exists|t: int| 0 <= t < j && indices@[t] == k,
            decreases indices@.len() - j,
        {
            if indices[j] == k {
                marked = true;
            }
            j = j + 1;
        }
        assert(marked == indices@.contains(k));
        if marked {
            out.push((k, x));
        }
        let w = widths[k];
        let adv: i64 = if w > 8 {
            w as i64
        } else {
            8
        };
        let next = x as i64 + adv;
        if next > i32::MAX as i64 {
            assert(!i32_fits(glyph_x(start, widths@, (k + 1) as nat)));
            return None;
        }
        x = next as i32;
        k = k + 1;
    }
    Some(out)
}

/// The text of the match counter: shown matches, `/`, all matches.
pub open spec fn counter_text(shown: usize, total: usize) -> Seq<char> {
    decimal(shown as nat) + seq!['/'] + decimal(total as nat)
}

/// Writes the match counter.
pub fn match_counter_text(shown: usize, total: usize) -> (r: String)
    ensures
        r@ == counter_text(shown, total),
{
    let mut s = String::new();
    push_decimal(&mut s, shown as u64);
    push_char(&mut s, '/');
    push_decimal(&mut s, total as u64);
    s
}

/// The lines of the configured message, as drawn.
pub fn message_lines(config: &Config) -> (r: Vec<String>)
    ensures
        r@.len() == message_count(*config),
        forall|i: int| 0 <= i < r@.len() ==> #[trigger] r@[i]@ == lines(config.message@)[i],
{
    let mc = chars_of(config.message.as_str());
    if mc.len() == 0 {
        return Vec::new();
    }
    let ls = lines_chars(&mc);
    strings_of(&ls)
}

/// The list is drawn where clicks look for it, and a click inside a drawn
/// list row picks that row.
pub proof fn click_picks_drawn_row(config: Config, lay: WindowLayout, idx: int, y: i32)
    requires
        0 < lay.row_height <= i32::MAX,
        i32_fits(list_top(config, lay)),
        0 <= idx,
        row_top(config, lay, idx) <= y < row_top(config, lay, idx) + lay.row_height,
    ensures
        list_top(config, lay) == list_start(config, lay.row_height),
        spec_row_index(config, y, lay.row_height) == idx,
{
    let m = message_count(config) as int;
    let step = line_step(config, lay);
    assert(m * step + step == (m + 1) * step) by (nonlinear_arith);
    let rh = lay.row_height as int;
    assert((lay.row_height as i32) as int == rh);
    let d = y - list_top(config, lay);
    assert(idx * rh <= d < idx * rh + rh);
    assert(d / rh == idx) by (nonlinear_arith)
        requires
            idx * rh <= d < idx * rh + rh,
            rh > 0,
            idx >= 0,
    ;
    assert(d <= 0xffff_ffff);
    assert(idx <= d);
}

} // verus!
