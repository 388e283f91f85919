//! Glyphs that are drawn as filled rectangles instead of through a font, so that
//! neighbouring cells join without gaps.
use vstd::prelude::*;
use crate::types;

verus! {

pub const BOX_DIR_LEFT: u8 = 0x01;

pub const BOX_DIR_RIGHT: u8 = 0x02;

pub const BOX_DIR_UP: u8 = 0x04;

pub const BOX_DIR_DOWN: u8 = 0x08;

/// How thick the strokes of a box-drawing glyph are.
#[derive(Clone, Copy, Debug, PartialEq, Eq, Structural)]
pub enum BoxWeight {
    Light,
    Heavy,
    Double,
}

/// The edges of the cell that a box-drawing glyph's strokes reach.
pub struct BoxSides {
    pub left: bool,
    pub right: bool,
    pub up: bool,
    pub down: bool,
}

/// The edges that the strokes of `ch` reach, if it is a box-drawing glyph.
pub open spec fn box_sides(ch: char) -> Option<BoxSides> {
    match ch {
        '─' | '━' | '═' => Some(BoxSides { left: true, right: true, up: false, down: false }),
        '│' | '┃' | '║' => Some(BoxSides { left: false, right: false, up: true, down: true }),
        '┌' | '┏' | '╔' | '╭' => Some(BoxSides { left: false, right: true, up: false, down: true }),
        '┐' | '┓' | '╗' | '╮' => Some(BoxSides { left: true, right: false, up: false, down: true }),
        '└' | '┗' | '╚' | '╰' => Some(BoxSides { left: false, right: true, up: true, down: false }),
        '┘' | '┛' | '╝' | '╯' => Some(BoxSides { left: true, right: false, up: true, down: false }),
        '├' | '┣' | '╠' => Some(BoxSides { left: false, right: true, up: true, down: true }),
        '┤' | '┫' | '╣' => Some(BoxSides { left: true, right: false, up: true, down: true }),
        '┬' | '┳' | '╦' => Some(BoxSides { left: true, right: true, up: false, down: true }),
        '┴' | '┻' | '╩' => Some(BoxSides { left: true, right: true, up: true, down: false }),
        '┼' | '╋' | '╬' => Some(BoxSides { left: true, right: true, up: true, down: true }),
        _ => None,
    }
}

/// How thick the strokes of `ch` are.
pub open spec fn box_weight(ch: char) -> BoxWeight {
    match ch {
        '━' | '┃' | '┏' | '┓' | '┗' | '┛' | '┣' | '┫' | '┳' | '┻' | '╋' => BoxWeight::Heavy,
        '═' | '║' | '╔' | '╗' | '╚' | '╝' | '╠' | '╣' | '╦' | '╩' | '╬' => BoxWeight::Double,
        _ => BoxWeight::Light,
    }
}

/// The edges as one bit each.
pub open spec fn sides_mask(sides: BoxSides) -> int {
    types::bit(sides.left) * BOX_DIR_LEFT + types::bit(sides.right) * BOX_DIR_RIGHT + types::bit(
        sides.up,
    ) * BOX_DIR_UP + types::bit(sides.down) * BOX_DIR_DOWN
}

/// The edges that the strokes of a box-drawing glyph reach, one bit each, and
/// how thick the strokes are; nothing for another character.
pub fn box_drawing_mask(ch: char) -> (r: Option<(u8, BoxWeight)>)
    ensures
        r is Some <==> box_sides(ch) is Some,
        r matches Some(m) ==> m.0 == sides_mask(box_sides(ch).unwrap()) && m.1 == box_weight(ch),
{
    let mask: u8 = match ch {
        '─' | '━' | '═' => 0x03,
        '│' | '┃' | '║' => 0x0c,
        '┌' | '┏' | '╔' | '╭' => 0x0a,
        '┐' | '┓' | '╗' | '╮' => 0x09,
        '└' | '┗' | '╚' | '╰' => 0x06,
        '┘' | '┛' | '╝' | '╯' => 0x05,
        '├' | '┣' | '╠' => 0x0e,
        '┤' | '┫' | '╣' => 0x0d,
        '┬' | '┳' | '╦' => 0x0b,
        '┴' | '┻' | '╩' => 0x07,
        '┼' | '╋' | '╬' => 0x0f,
        _ => return None,
    };
    let weight = match ch {
        '━' | '┃' | '┏' | '┓' | '┗' | '┛' | '┣' | '┫' | '┳' | '┻' | '╋' => BoxWeight::Heavy,
        '═' | '║' | '╔' | '╗' | '╚' | '╝' | '╠' | '╣' | '╦' | '╩' | '╬' => BoxWeight::Double,
        _ => BoxWeight::Light,
    };
    Some((mask, weight))
}

/// How far a stroke runs across the cell, in halves of it: nothing, the first
/// half, the second half, or all of it.
pub open spec fn stroke(first: bool, second: bool) -> Option<(u8, u8)> {
    if first && second {
        Some((0u8, 2u8))
    } else if first {
        Some((0u8, 1u8))
    } else if second {
        Some((1u8, 2u8))
    } else {
        None
    }
}

/// The strokes of a box-drawing glyph through the middle of its cell, each as
/// start and end in halves of the cell.
#[derive(Clone, Copy, Debug, PartialEq, Eq)]
pub struct BoxStrokes {
    pub horizontal: Option<(u8, u8)>,
    pub vertical: Option<(u8, u8)>,
    pub weight: BoxWeight,
}

/// The strokes of a box-drawing glyph; nothing for another character.
pub fn box_strokes(ch: char) -> (r: Option<BoxStrokes>)
    ensures
        r is Some <==> box_sides(ch) is Some,
        r matches Some(s) ==> ({
            let sides = box_sides(ch).unwrap();
            &&& s.horizontal == stroke(sides.left, sides.right)
            &&& s.vertical == stroke(sides.up, sides.down)
            &&& s.weight == box_weight(ch)
        }),
{
    match box_drawing_mask(ch) {
        Some((mask, weight)) => {
            let left = mask % 2 >= 1;
            let right = mask % 4 >= 2;
            let up = mask % 8 >= 4;
            let down = mask >= 8;
            Some(
                BoxStrokes {
                    horizontal: halves(left, right),
                    vertical: halves(up, down),
                    weight,
                },
            )
        },
        None => None,
    }
}

fn halves(first: bool, second: bool) -> (r: Option<(u8, u8)>)
    ensures
        r == stroke(first, second),
{
    if first && second {
        Some((0, 2))
    } else if first {
        Some((0, 1))
    } else if second {
        Some((1, 2))
    } else {
        None
    }
}

/// A filled part of a cell, in eighths of its width and height.
#[derive(Clone, Copy, Debug, PartialEq, Eq)]
pub struct BlockRect {
    pub x: u8,
    pub y: u8,
    pub w: u8,
    pub h: u8,
}

pub open spec fn eighths(x: u8, y: u8, w: u8, h: u8) -> BlockRect {
    BlockRect { x, y, w, h }
}

/// The parts of the cell that a block glyph fills: halves, eighths and
/// quadrants. The shades are left to the font.
pub open spec fn block_rects(ch: char) -> Option<Seq<BlockRect>> {
    match ch {
        '█' => Some(seq![eighths(0, 0, 8, 8)]),
        '▀' => Some(seq![eighths(0, 0, 8, 4)]),
        '▄' => Some(seq![eighths(0, 4, 8, 4)]),
        '▌' => Some(seq![eighths(0, 0, 4, 8)]),
        '▐' => Some(seq![eighths(4, 0, 4, 8)]),
        '▁' => Some(seq![eighths(0, 7, 8, 1)]),
        '▂' => Some(seq![eighths(0, 6, 8, 2)]),
        '▃' => Some(seq![eighths(0, 5, 8, 3)]),
        '▅' => Some(seq![eighths(0, 3, 8, 5)]),
        '▆' => Some(seq![eighths(0, 2, 8, 6)]),
        '▇' => Some(seq![eighths(0, 1, 8, 7)]),
        '▏' => Some(seq![eighths(0, 0, 1, 8)]),
        '▎' => Some(seq![eighths(0, 0, 2, 8)]),
        '▍' => Some(seq![eighths(0, 0, 3, 8)]),
        '▋' => Some(seq![eighths(0, 0, 5, 8)]),
        '▊' => Some(seq![eighths(0, 0, 6, 8)]),
        '▉' => Some(seq![eighths(0, 0, 7, 8)]),
        '▔' => Some(seq![eighths(0, 0, 8, 1)]),
        '▕' => Some(seq![eighths(7, 0, 1, 8)]),
        '▖' => Some(seq![eighths(0, 4, 4, 4)]),
        '▗' => Some(seq![eighths(4, 4, 4, 4)]),
        '▘' => Some(seq![eighths(0, 0, 4, 4)]),
        '▝' => Some(seq![eighths(4, 0, 4, 4)]),
        '▙' => Some(seq![eighths(0, 0, 4, 8), eighths(4, 4, 4, 4)]),
        '▟' => Some(seq![eighths(4, 0, 4, 8), eighths(0, 4, 4, 4)]),
        '▛' => Some(seq![eighths(0, 0, 8, 4), eighths(0, 4, 4, 4)]),
        '▜' => Some(seq![eighths(0, 0, 8, 4), eighths(4, 4, 4, 4)]),
        '▚' => Some(seq![eighths(0, 0, 4, 4), eighths(4, 4, 4, 4)]),
        '▞' => Some(seq![eighths(4, 0, 4, 4), eighths(0, 4, 4, 4)]),
        _ => None,
    }
}

/// A light, medium or dark shade.
pub open spec fn is_shade(ch: char) -> bool {
    ch == '░' || ch == '▒' || ch == '▓'
}

/// Whether `ch` is a block glyph that fills parts of its cell.
pub fn has_block_rects(ch: char) -> (r: bool)
    ensures
        r == block_rects(ch) is Some,
{
    match ch {
        '█' | '▀' | '▄' | '▌' | '▐' | '▁' | '▂' | '▃' | '▅' | '▆' | '▇' | '▏' | '▎' | '▍' | '▋' | '▊' | '▉' | '▔' | '▕' | '▖' | '▗' | '▘' | '▝' | '▙' | '▟' | '▛' | '▜' | '▚' | '▞' => true,
        _ => false,
    }
}

/// Whether `ch` is a block, eighth-block or shade character.
pub fn is_block_char(ch: char) -> (r: bool)
    ensures
        r == (block_rects(ch) is Some || is_shade(ch)),
{
    has_block_rects(ch) || ch == '░' || ch == '▒' || ch == '▓'
}

/// The parts of the cell that a block glyph fills; nothing for another
/// character.
pub fn block_char_rects(ch: char) -> (r: Option<Vec<BlockRect>>)
    ensures
        r is Some <==> block_rects(ch) is Some,
        r matches Some(v) ==> v@ == block_rects(ch).unwrap(),
{
    let rects: Vec<BlockRect> = match ch {
        '█' => vec![BlockRect { x: 0, y: 0, w: 8, h: 8 }],
        '▀' => vec![BlockRect { x: 0, y: 0, w: 8, h: 4 }],
        '▄' => vec![BlockRect { x: 0, y: 4, w: 8, h: 4 }],
        '▌' => vec![BlockRect { x: 0, y: 0, w: 4, h: 8 }],
        '▐' => vec![BlockRect { x: 4, y: 0, w: 4, h: 8 }],
        '▁' => vec![BlockRect { x: 0, y: 7, w: 8, h: 1 }],
        '▂' => vec![BlockRect { x: 0, y: 6, w: 8, h: 2 }],
        '▃' => vec![BlockRect { x: 0, y: 5, w: 8, h: 3 }],
        '▅' => vec![BlockRect { x: 0, y: 3, w: 8, h: 5 }],
        '▆' => vec![BlockRect { x: 0, y: 2, w: 8, h: 6 }],
        '▇' => vec![BlockRect { x: 0, y: 1, w: 8, h: 7 }],
        '▏' => vec![BlockRect { x: 0, y: 0, w: 1, h: 8 }],
        '▎' => vec![BlockRect { x: 0, y: 0, w: 2, h: 8 }],
        '▍' => vec![BlockRect { x: 0, y: 0, w: 3, h: 8 }],
        '▋' => vec![BlockRect { x: 0, y: 0, w: 5, h: 8 }],
        '▊' => vec![BlockRect { x: 0, y: 0, w: 6, h: 8 }],
        '▉' => vec![BlockRect { x: 0, y: 0, w: 7, h: 8 }],
        '▔' => vec![BlockRect { x: 0, y: 0, w: 8, h: 1 }],
        '▕' => vec![BlockRect { x: 7, y: 0, w: 1, h: 8 }],
        '▖' => vec![BlockRect { x: 0, y: 4, w: 4, h: 4 }],
        '▗' => vec![BlockRect { x: 4, y: 4, w: 4, h: 4 }],
        '▘' => vec![BlockRect { x: 0, y: 0, w: 4, h: 4 }],
        '▝' => vec![BlockRect { x: 4, y: 0, w: 4, h: 4 }],
        '▙' => vec![BlockRect { x: 0, y: 0, w: 4, h: 8 }, BlockRect { x: 4, y: 4, w: 4, h: 4 }],
        '▟' => vec![BlockRect { x: 4, y: 0, w: 4, h: 8 }, BlockRect { x: 0, y: 4, w: 4, h: 4 }],
        '▛' => vec![BlockRect { x: 0, y: 0, w: 8, h: 4 }, BlockRect { x: 0, y: 4, w: 4, h: 4 }],
        '▜' => vec![BlockRect { x: 0, y: 0, w: 8, h: 4 }, BlockRect { x: 4, y: 4, w: 4, h: 4 }],
        '▚' => vec![BlockRect { x: 0, y: 0, w: 4, h: 4 }, BlockRect { x: 4, y: 4, w: 4, h: 4 }],
        '▞' => vec![BlockRect { x: 4, y: 0, w: 4, h: 4 }, BlockRect { x: 0, y: 4, w: 4, h: 4 }],
        _ => return None,
    };
    assert(rects@ =~= block_rects(ch).unwrap());
    Some(rects)
}

/// What a block glyph fills lies inside its cell and is not empty.
pub proof fn law_blocks_stay_in_cell(ch: char, i: int)
    requires
        block_rects(ch) matches Some(rects) && 0 <= i < rects.len(),
    ensures
        ({
            let rect = block_rects(ch).unwrap()[i];
            0 < rect.w && 0 < rect.h && rect.x + rect.w <= 8 && rect.y + rect.h <= 8
        }),
{
}

/// No glyph is both a block, or a shade, and made of strokes.
pub proof fn law_block_or_box(ch: char)
    ensures
        !(block_rects(ch) is Some || is_shade(ch)) || box_sides(ch) is None,
{
}

/// A shade fills no part of its cell: the font draws it.
pub proof fn law_shades_are_not_filled(ch: char)
    requires
        is_shade(ch),
    ensures
        block_rects(ch) is None,
{
}

/// Each box-drawing glyph reaches the edges that its Unicode name lists, and no
/// others: a corner named "down and right" reaches down and right, a tee named
/// "vertical and right" reaches up, down and right, and so on, whatever the weight.
pub proof fn law_strokes_reach_the_named_edges(ch: char)
    ensures
        box_sides(ch) is Some <==> matches!(
            ch,
            '─' | '━' | '═' | '│' | '┃' | '║' | '┌' | '┏' | '╔' | '╭' | '┐' | '┓' | '╗' | '╮' | '└'
                | '┗' | '╚' | '╰' | '┘' | '┛' | '╝' | '╯' | '├' | '┣' | '╠' | '┤' | '┫' | '╣' | '┬'
                | '┳' | '╦' | '┴' | '┻' | '╩' | '┼' | '╋' | '╬'
        ),
        box_sides(ch) matches Some(sides) ==> {
            &&& sides.left <==> matches!(
                ch,
                '─' | '━' | '═' | '┐' | '┓' | '╗' | '╮' | '┘' | '┛' | '╝' | '╯' | '┤' | '┫' | '╣'
                    | '┬' | '┳' | '╦' | '┴' | '┻' | '╩' | '┼' | '╋' | '╬'
            )
            &&& sides.right <==> matches!(
                ch,
                '─' | '━' | '═' | '┌' | '┏' | '╔' | '╭' | '└' | '┗' | '╚' | '╰' | '├' | '┣' | '╠'
                    | '┬' | '┳' | '╦' | '┴' | '┻' | '╩' | '┼' | '╋' | '╬'
            )
            &&& sides.up <==> matches!(
                ch,
                '│' | '┃' | '║' | '└' | '┗' | '╚' | '╰' | '┘' | '┛' | '╝' | '╯' | '├' | '┣' | '╠'
                    | '┤' | '┫' | '╣' | '┴' | '┻' | '╩' | '┼' | '╋' | '╬'
            )
            &&& sides.down <==> matches!(
                ch,
                '│' | '┃' | '║' | '┌' | '┏' | '╔' | '╭' | '┐' | '┓' | '╗' | '╮' | '├' | '┣' | '╠'
                    | '┤' | '┫' | '╣' | '┬' | '┳' | '╦' | '┼' | '╋' | '╬'
            )
        },
{
}

/// Glyphs that are mirror images of one another have mirrored edges: the first list
/// of pairs exchanges left and right and agrees on up and down.
pub proof fn law_mirrored_left_to_right(a: char, b: char)
    requires
        matches!(
            (a, b),
            ('┌', '┐') | ('└', '┘') | ('├', '┤') | ('┏', '┓') | ('┗', '┛') | ('┣', '┫') | ('╔', '╗')
                | ('╚', '╝') | ('╠', '╣') | ('╭', '╮') | ('╰', '╯')
        ),
    ensures
        ({
            let (s, t) = (box_sides(a).unwrap(), box_sides(b).unwrap());
            &&& box_sides(a) is Some && box_sides(b) is Some
            &&& s.left == t.right && s.right == t.left && s.left != s.right
            &&& s.up == t.up && s.down == t.down
            &&& box_weight(a) == box_weight(b)
        }),
{
}

/// Glyphs that are mirror images of one another have mirrored edges: these pairs
/// exchange up and down and agree on left and right.
pub proof fn law_mirrored_top_to_bottom(a: char, b: char)
    requires
        matches!(
            (a, b),
            ('┌', '└') | ('┐', '┘') | ('┬', '┴') | ('┏', '┗') | ('┓', '┛') | ('┳', '┻') | ('╔', '╚')
                | ('╗', '╝') | ('╦', '╩') | ('╭', '╰') | ('╮', '╯')
        ),
    ensures
        ({
            let (s, t) = (box_sides(a).unwrap(), box_sides(b).unwrap());
            &&& box_sides(a) is Some && box_sides(b) is Some
            &&& s.up == t.down && s.down == t.up && s.up != s.down
            &&& s.left == t.left && s.right == t.right
            &&& box_weight(a) == box_weight(b)
        }),
{
}

/// Glyphs of one weight that differ are drawn differently; only a rounded corner
/// has the edges of the square one.
pub proof fn law_glyphs_of_one_weight_differ(a: char, b: char)
    requires
        a != b,
        box_sides(a) is Some,
        box_sides(b) is Some,
        box_weight(a) == box_weight(b),
        !matches!(a, '╭' | '╮' | '╯' | '╰'),
        !matches!(b, '╭' | '╮' | '╯' | '╰'),
    ensures
        box_sides(a) != box_sides(b),
{
}

/// A heavy glyph and a double one have the edges of the light one, and weights of
/// their own.
pub proof fn law_weights_share_the_edges(light: char, heavy: char, double: char)
    requires
        matches!(
            (light, heavy, double),
            ('─', '━', '═') | ('│', '┃', '║') | ('┌', '┏', '╔') | ('┐', '┓', '╗') | ('└', '┗', '╚')
                | ('┘', '┛', '╝') | ('├', '┣', '╠') | ('┤', '┫', '╣') | ('┬', '┳', '╦')
                | ('┴', '┻', '╩') | ('┼', '╋', '╬')
        ),
    ensures
        box_sides(light) is Some,
        box_sides(heavy) == box_sides(light),
        box_sides(double) == box_sides(light),
        box_weight(light) == BoxWeight::Light,
        box_weight(heavy) == BoxWeight::Heavy,
        box_weight(double) == BoxWeight::Double,
        box_weight('╭') == BoxWeight::Light,
        box_weight('╮') == BoxWeight::Light,
        box_weight('╯') == BoxWeight::Light,
        box_weight('╰') == BoxWeight::Light,
{
}

/// The four edges stand in the four lowest bits: left, right, up, down, from the
/// lowest on.
pub proof fn law_mask_holds_the_edges(sides: BoxSides)
    ensures
        0 <= sides_mask(sides) < 16,
        sides.left <==> sides_mask(sides) % 2 == 1,
        sides.right <==> sides_mask(sides) / 2 % 2 == 1,
        sides.up <==> sides_mask(sides) / 4 % 2 == 1,
        sides.down <==> sides_mask(sides) / 8 == 1,
{
}

/// A stroke runs through the middle of the cell, and reaches exactly the edges that
/// it is to reach.
pub proof fn law_strokes_meet_in_the_middle(first: bool, second: bool)
    ensures
        stroke(first, second) is None <==> !first && !second,
        stroke(first, second) matches Some((from, to)) ==> {
            &&& from <= 1 <= to <= 2
            &&& from < to
            &&& from == 0 <==> first
            &&& to == 2 <==> second
        },
{
}

/// A block glyph fills the eighth of the cell in column `x` and row `y`, both
/// counted from 0, from the left and from the top.
pub open spec fn fills(ch: char, x: int, y: int) -> bool {
    match block_rects(ch) {
        Some(rects) => exists|i: int|
            0 <= i < rects.len() && #[trigger] rects[i].x <= x < rects[i].x + rects[i].w
                && rects[i].y <= y < rects[i].y + rects[i].h,
        None => false,
    }
}

proof fn lemma_fills(ch: char, x: int, y: int)
    ensures
        block_rects(ch) matches Some(rects) ==> {
            let (a, b) = (rects[0], rects[1]);
            &&& 1 <= rects.len() <= 2
            &&& fills(ch, x, y) <==> (a.x <= x < a.x + a.w && a.y <= y < a.y + a.h) || (rects.len()
                == 2 && b.x <= x < b.x + b.w && b.y <= y < b.y + b.h)
        },
{
}

/// The blocks are the glyphs from U+2580 to U+259F, but for the three shades, which
/// are U+2591 to U+2593.
pub proof fn law_which_glyphs_are_blocks(ch: char)
    ensures
        block_rects(ch) is Some <==> 0x2580 <= ch as u32 <= 0x259f && !(0x2591 <= ch as u32
            <= 0x2593),
        is_shade(ch) <==> 0x2591 <= ch as u32 <= 0x2593,
{
}

/// The lower blocks fill from the bottom, one eighth more for each code point from
/// U+2581 to the full block, U+2588; the left blocks fill from the left, one eighth
/// less for each code point from there to U+258F.
pub proof fn law_partial_blocks_grow_by_eighths(ch: char, x: int, y: int)
    requires
        0x2581 <= ch as u32 <= 0x258f,
        0 <= x < 8,
        0 <= y < 8,
    ensures
        ch as u32 <= 0x2588 ==> (fills(ch, x, y) <==> y >= 8 - (ch as u32 - 0x2580)),
        ch as u32 >= 0x2588 ==> (fills(ch, x, y) <==> x < 0x2590 - ch as u32),
{
    lemma_fills(ch, x, y);
}

/// The upper half and the upper eighth fill from the top, the right half and the
/// right eighth from the right.
pub proof fn law_upper_and_right_blocks(x: int, y: int)
    requires
        0 <= x < 8,
        0 <= y < 8,
    ensures
        fills('▀', x, y) <==> y < 4,
        fills('▔', x, y) <==> y < 1,
        fills('▐', x, y) <==> x >= 4,
        fills('▕', x, y) <==> x >= 7,
        fills('▀', x, y) <==> !fills('▄', x, y),
        fills('▐', x, y) <==> !fills('▌', x, y),
        fills('▔', x, y) <==> fills('▁', x, 7 - y),
        fills('▕', x, y) <==> fills('▏', 7 - x, y),
{
    lemma_fills('▀', x, y);
    lemma_fills('▔', x, y);
    lemma_fills('▐', x, y);
    lemma_fills('▕', x, y);
    lemma_fills('▄', x, y);
    lemma_fills('▌', x, y);
    lemma_fills('▁', x, 7 - y);
    lemma_fills('▏', 7 - x, y);
}

/// The quadrant blocks fill the quarters of the cell that their Unicode names list.
pub proof fn law_quadrants(ch: char, x: int, y: int)
    requires
        0x2596 <= ch as u32 <= 0x259f,
        0 <= x < 8,
        0 <= y < 8,
    ensures
        x < 4 && y < 4 ==> (fills(ch, x, y) <==> matches!(ch, '▘' | '▙' | '▚' | '▛' | '▜')),
        x >= 4 && y < 4 ==> (fills(ch, x, y) <==> matches!(ch, '▛' | '▜' | '▝' | '▞' | '▟')),
        x < 4 && y >= 4 ==> (fills(ch, x, y) <==> matches!(ch, '▖' | '▙' | '▛' | '▞' | '▟')),
        x >= 4 && y >= 4 ==> (fills(ch, x, y) <==> matches!(ch, '▗' | '▙' | '▚' | '▜' | '▟')),
{
    lemma_fills(ch, x, y);
}

/// No part of a cell is filled twice.
pub proof fn law_blocks_do_not_overlap(ch: char, i: int, j: int)
    requires
        block_rects(ch) matches Some(rects) && 0 <= i < j < rects.len(),
    ensures
        ({
            let a = block_rects(ch).unwrap()[i];
            let b = block_rects(ch).unwrap()[j];
            a.x + a.w <= b.x || b.x + b.w <= a.x || a.y + a.h <= b.y || b.y + b.h <= a.y
        }),
{
}

} // verus!
