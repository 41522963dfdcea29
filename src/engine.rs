use vstd::arithmetic::div_mod::{
    lemma_add_mod_noop, lemma_mul_mod_noop_left, lemma_sub_mod_noop,
};
use vstd::prelude::*;

verus! {

/// Denominator of the fixed-point `main_ratio`: a ratio of `r` stands for `r / RATIO_SCALE`.
pub const RATIO_SCALE: i64 = 1_000_000;

/// Horizontal and vertical offset between two cascaded views of the stack layout.
pub const CASCADE_STEP: u32 = 15;

/// One layout mode with its parameters.
#[derive(Clone, Copy, Debug, PartialEq, Eq, Structural)]
pub enum LayoutConfig {
    /// A main view on the left, the others stacked in a column on its right.
    /// `main_ratio` is the share of the usable width given to the main view,
    /// in millionths (see `RATIO_SCALE`); it is not clamped.
    Tile { gap: u32, main_ratio: i64 },
    /// All views cascaded from the top-left corner.
    Stack,
}

/// Where one view goes, relative to the top-left corner of the usable area.
#[derive(Clone, Copy, Debug, PartialEq, Eq, Structural)]
pub struct Rect {
    pub x: i32,
    pub y: i32,
    pub width: u32,
    pub height: u32,
}

/// A computed layout: the mode's indicator and one rectangle per view.
#[derive(Debug)]
pub struct GeneratedLayout {
    pub layout_name: String,
    pub views: Vec<Rect>,
}

/// `v` reduced modulo 2^32, as unsigned 32-bit arithmetic wraps.
pub open spec fn wrap_u32(v: int) -> u32 {
    (v % 0x1_0000_0000) as u32
}

/// The two's-complement reading of `v` as a signed 32-bit integer.
pub open spec fn as_i32(v: u32) -> i32 {
    if v < 0x8000_0000 {
        v as i32
    } else {
        (v - 0x1_0000_0000) as i32
    }
}

/// The indicator string of a mode.
pub open spec fn layout_name_of(c: LayoutConfig) -> Seq<char> {
    match c {
        LayoutConfig::Tile { .. } => seq!['[', ']', '='],
        LayoutConfig::Stack => seq!['[', '[', ']'],
    }
}

/// `floor(width * main_ratio - gap / 2)`, saturated into `0 ..= u32::MAX`.
pub open spec fn main_width_of(width: u32, gap: u32, main_ratio: i64) -> u32 {
    let v = (2 * width * main_ratio - gap * RATIO_SCALE) / (2 * RATIO_SCALE);
    if v < 0 {
        0
    } else if v > u32::MAX {
        u32::MAX
    } else {
        v as u32
    }
}

/// Height of each stacked view of the tile layout, for `view_count >= 2`.
pub open spec fn stack_height_of(view_count: u32, height: u32, gap: u32) -> u32 {
    (wrap_u32(height - gap * (view_count - 2)) as int / (view_count - 1) as int) as u32
}

/// Rectangle `i` of the tile layout, for `view_count >= 2`: the main view first,
/// then the stacked views from top to bottom.
pub open spec fn tile_rect(
    view_count: u32,
    width: u32,
    height: u32,
    gap: u32,
    main_ratio: i64,
    i: int,
) -> Rect {
    let mw = main_width_of(width, gap, main_ratio);
    let sh = stack_height_of(view_count, height, gap);
    if i == 0 {
        Rect { x: 0, y: 0, width: mw, height }
    } else {
        Rect {
            x: as_i32(wrap_u32(mw + gap)),
            y: as_i32(wrap_u32((sh + gap) * (i - 1))),
            width: wrap_u32(width - mw - gap),
            height: sh,
        }
    }
}

/// Rectangle `i` of the stack layout.
pub open spec fn stack_rect(view_count: u32, width: u32, height: u32, i: int) -> Rect {
    let shift = CASCADE_STEP * (view_count - 1);
    Rect {
        x: as_i32(wrap_u32(CASCADE_STEP * i)),
        y: as_i32(wrap_u32(CASCADE_STEP * i)),
        width: wrap_u32(width - shift),
        height: wrap_u32(height - shift),
    }
}

/// The rectangles of a layout: exactly `view_count` of them.
pub open spec fn layout_rects(c: LayoutConfig, view_count: u32, width: u32, height: u32) -> Seq<
    Rect,
> {
    match c {
        LayoutConfig::Tile { gap, main_ratio } => if view_count == 1 {
            seq![Rect { x: 0, y: 0, width, height }]
        } else {
            Seq::new(view_count as nat, |i: int| tile_rect(view_count, width, height, gap, main_ratio, i))
        },
        LayoutConfig::Stack => Seq::new(view_count as nat, |i: int| stack_rect(view_count, width, height, i)),
    }
}

proof fn lemma_wrap_sub(a: int, b: int, c: int)
    requires
        wrap_u32(a) == wrap_u32(b),
    ensures
        wrap_u32(a - c) == wrap_u32(b - c),
        wrap_u32(c - a) == wrap_u32(c - b),
        wrap_u32(a + c) == wrap_u32(b + c),
        wrap_u32(a * c) == wrap_u32(b * c),
{
    let m = 0x1_0000_0000int;
    lemma_sub_mod_noop(a, c, m);
    lemma_sub_mod_noop(b, c, m);
    lemma_sub_mod_noop(c, a, m);
    lemma_sub_mod_noop(c, b, m);
    lemma_add_mod_noop(a, c, m);
    lemma_add_mod_noop(b, c, m);
    lemma_mul_mod_noop_left(a, c, m);
    lemma_mul_mod_noop_left(b, c, m);
}

proof fn lemma_wrap_id(v: u32)
    ensures
        wrap_u32(v as int) == v,
{
}

fn sub_wrap(a: u32, b: u32) -> (r: u32)
    ensures
        r == wrap_u32(a - b),
{
    a.wrapping_sub(b)
}

fn add_wrap(a: u32, b: u32) -> (r: u32)
    ensures
        r == wrap_u32(a + b),
{
    a.wrapping_add(b)
}

fn mul_wrap(a: u32, b: u32) -> (r: u32)
    ensures
        r == wrap_u32(a * b),
{
    let r = a.wrapping_mul(b);
    assert(a as nat * b as nat == a * b);
    r
}

fn to_i32(v: u32) -> (r: i32)
    ensures
        r == as_i32(v),
{
    if v < 0x8000_0000 {
        v as i32
    } else {
        ((v - 0x8000_0000) as i32) - 0x7fff_ffff - 1
    }
}

impl LayoutConfig {
    /// The indicator reported with a computed layout: `[]=` for tile, `[[]` for stack.
    pub fn name(&self) -> (r: String)
        ensures
            r@ == layout_name_of(*self),
    {
        match self {
            LayoutConfig::Tile { .. } => {
                let r = "[]=".to_owned();
                proof {
                    reveal_strlit("[]=");
                }
                assert(r@ =~= seq!['[', ']', '=']);
                r
            },
            LayoutConfig::Stack => {
                let r = "[[]".to_owned();
                proof {
                    reveal_strlit("[[]");
                }
                assert(r@ =~= seq!['[', '[', ']']);
                r
            },
        }
    }
}

fn main_width(width: u32, gap: u32, main_ratio: i64) -> (r: u32)
    ensures
        r == main_width_of(width, gap, main_ratio),
{
    let w = width as i128;
    let m = main_ratio as i128;
    assert(-0x1_0000_0000_0000_0000_0000_0000 <= 2 * w * m <= 0x1_0000_0000_0000_0000_0000_0000)
        by (nonlinear_arith)
        requires
            0 <= w <= u32::MAX,
            i64::MIN <= m <= i64::MAX,
    ;
    let num: i128 = 2 * w * m - (gap as i128) * 1_000_000;
    assert(num == 2 * width * main_ratio - gap * RATIO_SCALE);
    if num < 0 {
        assert(num as int / (2 * RATIO_SCALE) < 0) by (nonlinear_arith)
            requires
                num < 0,
        ;
        0
    } else {
        let q: u128 = (num as u128) / 2_000_000;
        assert(q == num as int / (2 * RATIO_SCALE));
        if q > u32::MAX as u128 {
            u32::MAX
        } else {
            q as u32
        }
    }
}

/// Places `view_count` views in a `usable_width` by `usable_height` area with
/// the layout `config`. Every input is accepted; sizes wrap around as unsigned
/// 32-bit arithmetic does where the area is too small for the gaps or cascade.
pub fn compute(config: &LayoutConfig, view_count: u32, usable_width: u32, usable_height: u32) -> (r:
    GeneratedLayout)
    ensures
        r.layout_name@ == layout_name_of(*config),
        r.views@ == layout_rects(*config, view_count, usable_width, usable_height),
{
    let layout_name = config.name();
    let mut views: Vec<Rect> = Vec::new();
    match *config {
        LayoutConfig::Tile { gap, main_ratio } => {
            if view_count == 1 {
                views.push(Rect { x: 0, y: 0, width: usable_width, height: usable_height });
                assert(views@ =~= layout_rects(*config, view_count, usable_width, usable_height));
            } else if view_count >= 2 {
                let mw = main_width(usable_width, gap, main_ratio);
                let stack_width = sub_wrap(sub_wrap(usable_width, mw), gap);
                let spent = mul_wrap(gap, view_count - 2);
                let stack_height = sub_wrap(usable_height, spent) / (view_count - 1);
                proof {
                    lemma_wrap_id(wrap_u32(usable_width - mw));
                    lemma_wrap_sub(wrap_u32(usable_width - mw) as int, usable_width - mw, gap as int);
                    lemma_wrap_id(spent);
                    lemma_wrap_sub(spent as int, gap * (view_count - 2), usable_height as int);
                }
                let x = to_i32(add_wrap(mw, gap));
                let step = add_wrap(stack_height, gap);
                views.push(Rect { x: 0, y: 0, width: mw, height: usable_height });
                let mut i: u32 = 0;
                while i < view_count - 1
                    invariant
                        2 <= view_count,
                        i <= view_count - 1,
                        views@.len() == i + 1,
                        mw == main_width_of(usable_width, gap, main_ratio),
                        stack_height == stack_height_of(view_count, usable_height, gap),
                        stack_width == wrap_u32(usable_width - mw - gap),
                        x == as_i32(wrap_u32(mw + gap)),
                        step == wrap_u32(stack_height + gap),
                        forall|j: int|
                            0 <= j <= i ==> views@[j] == tile_rect(
                                view_count,
                                usable_width,
                                usable_height,
                                gap,
                                main_ratio,
                                j,
                            ),
                    decreases view_count - 1 - i,
                {
                    let y = to_i32(mul_wrap(step, i));
                    proof {
                        lemma_wrap_id(step);
                        lemma_wrap_sub(step as int, stack_height + gap, i as int);
                    }
                    views.push(Rect { x, y, width: stack_width, height: stack_height });
                    i = i + 1;
                }
                assert(views@ =~= layout_rects(*config, view_count, usable_width, usable_height));
            } else {
                assert(views@ =~= layout_rects(*config, view_count, usable_width, usable_height));
            }
        },
        LayoutConfig::Stack => {
            if view_count > 0 {
                let shift = mul_wrap(CASCADE_STEP, view_count - 1);
                let width = sub_wrap(usable_width, shift);
                let height = sub_wrap(usable_height, shift);
                proof {
                    lemma_wrap_id(shift);
                    lemma_wrap_sub(shift as int, CASCADE_STEP * (view_count - 1), usable_width as int);
                    lemma_wrap_sub(shift as int, CASCADE_STEP * (view_count - 1), usable_height as int);
                }
                let mut i: u32 = 0;
                while i < view_count
                    invariant
                        i <= view_count,
                        views@.len() == i,
                        width == wrap_u32(usable_width - CASCADE_STEP * (view_count - 1)),
                        height == wrap_u32(usable_height - CASCADE_STEP * (view_count - 1)),
                        forall|j: int|
                            0 <= j < i ==> views@[j] == stack_rect(
                                view_count,
                                usable_width,
                                usable_height,
                                j,
                            ),
                    decreases view_count - i,
                {
                    let offset = to_i32(mul_wrap(CASCADE_STEP, i));
                    views.push(Rect { x: offset, y: offset, width, height });
                    i = i + 1;
                }
            }
            assert(views@ =~= layout_rects(*config, view_count, usable_width, usable_height));
        },
    }
    GeneratedLayout { layout_name, views }
}

/// With a single view the tile layout gives it the whole usable area, whatever
/// the gap and the ratio.
pub proof fn lemma_single_tile_view_fills_area(gap: u32, main_ratio: i64, width: u32, height: u32)
    ensures
        layout_rects(LayoutConfig::Tile { gap, main_ratio }, 1, width, height) == seq![
            Rect { x: 0, y: 0, width, height },
        ],
{
}

} // verus!
