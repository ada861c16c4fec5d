//! The picture: every screen column shows a vertical stripe of the wall that
//! its ray hit, shaded by distance.

use vstd::prelude::*;

verus! {

/// The glyphs from faintest to densest.
pub const ASCII_CHARS: [u8; 92] = [
    96, 96, 46, 45, 39, 58, 95, 44, 94, 61, 59, 62, 60, 43, 33, 114, 99, 42, 47, 122, 63, 115, 76,
    84, 118, 41, 74, 55, 40, 124, 70, 105, 123, 67, 125, 102, 73, 51, 49, 116, 108, 117, 91, 110,
    101, 111, 90, 53, 89, 120, 106, 121, 97, 93, 50, 69, 83, 119, 113, 107, 80, 54, 104, 57, 100,
    52, 86, 112, 79, 71, 98, 85, 65, 75, 88, 72, 109, 56, 82, 68, 35, 36, 66, 103, 48, 77, 78, 87,
    81, 37, 38, 64,
];

/// The brightness of each glyph, in ten-thousandths, in rising order. The
/// last entry lies above every brightness that a hit can have.
pub const ASCII_BRIGHTNESS: [u16; 92] = [
    0, 751, 829, 848, 1227, 1403, 1559, 1850, 2183, 2417, 2571, 2852, 2902, 2919, 3099, 3192, 3232,
    3294, 3384, 3609, 3619, 3667, 3737, 3747, 3838, 3921, 3960, 3984, 3993, 4075, 4091, 4101, 4200,
    4230, 4247, 4274, 4293, 4328, 4382, 4385, 4420, 4473, 4477, 4503, 4562, 4580, 4610, 4638, 4667,
    4686, 4693, 4703, 4833, 4881, 4944, 4953, 4992, 5509, 5567, 5569, 5591, 5602, 5602, 5650, 5776,
    5777, 5818, 5870, 5972, 5999, 6043, 6049, 6093, 6099, 6465, 6561, 6595, 6631, 6714, 6759, 6809,
    6816, 6925, 7039, 7086, 7235, 7302, 7332, 7602, 7834, 8037, 11000,
];

/// The highest brightness that has a glyph.
pub const MAX_BRIGHTNESS: u16 = 11000;

/// What is shown where nothing was hit: a blank.
pub const BACKGROUND: u8 = 32;

/// What is shown where the hit lies on a line of the cell grid: a bar.
pub const GRID_LINE: u8 = 124;

/// What closes a stripe at its top and at its bottom: an equals sign.
pub const CAP: u8 = 61;

/// What one screen column shows of the wall that its ray hit.
#[derive(Clone, Copy, Debug, PartialEq, Eq)]
pub struct Stripe {
    /// Half the height of the stripe in rows, as the distance gives it.
    pub line_height: i32,
    /// Whether the hit lies on a line of the cell grid.
    pub on_grid_line: bool,
    /// How bright the wall is at that distance, in ten-thousandths.
    pub brightness: u16,
}

/// `i` is the place of the first glyph that is at least as bright as
/// `level`.
pub open spec fn is_rank(level: u16, i: int) -> bool {
    &&& 0 <= i < 92
    &&& ASCII_BRIGHTNESS@[i] >= level
    &&& forall|k: int| 0 <= k < i ==> ASCII_BRIGHTNESS@[k] < level
}

/// The first glyph that is at least as bright as `level`.
pub open spec fn shade(level: u16) -> u8 {
    ASCII_CHARS@[choose|i: int| is_rank(level, i)]
}

/// Half the height of a stripe on a screen of `height` rows: what the
/// distance gives, but no more than half the screen.
pub open spec fn half_height(height: int, line_height: int) -> int {
    if line_height > height / 2 {
        height / 2
    } else {
        line_height
    }
}

/// The glyph in row `row` of a column on a screen of `height` rows. A
/// stripe reaches as far above the middle row as below it; its first row
/// and the row after its last are caps.
pub open spec fn glyph_at(height: int, column: Option<Stripe>, row: int) -> u8 {
    match column {
        None => BACKGROUND,
        Some(stripe) => {
            let half = half_height(height, stripe.line_height as int);
            let top = height / 2 - half;
            let bottom = height / 2 + half;
            if row == top || row == bottom {
                CAP
            } else if top < row < bottom {
                if stripe.on_grid_line {
                    GRID_LINE
                } else {
                    shade(stripe.brightness)
                }
            } else {
                BACKGROUND
            }
        },
    }
}

/// Every stripe has a brightness for which there is a glyph.
pub open spec fn drawable(columns: Seq<Option<Stripe>>) -> bool {
    forall|c: int|
        0 <= c < columns.len() ==> match #[trigger] columns[c] {
            Some(stripe) => stripe.brightness <= MAX_BRIGHTNESS,
            None => true,
        }
}

/// The place of the first glyph that is at least as bright as `level`.
pub fn brightness_rank(level: u16) -> (i: usize)
    requires
        level <= MAX_BRIGHTNESS,
    ensures
        is_rank(level, i as int),
{
    let mut i: usize = 0;
    assert(ASCII_BRIGHTNESS@[91] == 11000);
    while ASCII_BRIGHTNESS[i] < level
        invariant
            0 <= i < 92,
            level <= 11000,
            ASCII_BRIGHTNESS@[91] == 11000,
            forall|k: int| 0 <= k < i ==> ASCII_BRIGHTNESS@[k] < level,
        decreases 92 - i,
    {
        i = i + 1;
    }
    i
}

/// The glyph for a wall of brightness `level`: the nearer the wall, the
/// brighter it is and the denser the glyph.
pub fn get_char_by_dist(level: u16) -> (glyph: u8)
    requires
        level <= MAX_BRIGHTNESS,
    ensures
        glyph == shade(level),
{
    let i: usize = brightness_rank(level);
    proof {
        let j = choose|j: int| is_rank(level, j);
        assert(is_rank(level, i as int));
        assert(is_rank(level, j));
        if j < i {
            assert(ASCII_BRIGHTNESS@[j] < level);
        }
        if i < j {
            assert(ASCII_BRIGHTNESS@[i as int] < level);
        }
        assert(j == i);
    }
    ASCII_CHARS[i]
}

/// The glyph in row `row` of a column.
pub fn glyph(height: usize, column: &Option<Stripe>, row: usize) -> (out: u8)
    requires
        height <= i32::MAX,
        row < height,
        match *column {
            Some(stripe) => stripe.brightness <= MAX_BRIGHTNESS,
            None => true,
        },
    ensures
        out == glyph_at(height as int, *column, row as int),
{
    match column {
        None => BACKGROUND,
        Some(stripe) => {
            let middle: i64 = (height / 2) as i64;
            let mut line_height: i64 = stripe.line_height as i64;
            if line_height > middle {
                line_height = middle;
            }
            let top: i64 = middle - line_height;
            let bottom: i64 = middle + line_height;
            let at: i64 = row as i64;
            if at == top || at == bottom {
                CAP
            } else if top < at && at < bottom {
                if stripe.on_grid_line {
                    GRID_LINE
                } else {
                    get_char_by_dist(stripe.brightness)
                }
            } else {
                BACKGROUND
            }
        },
    }
}

/// Paints a frame of `height` rows with one column for each entry of
/// `columns`: a shaded stripe where the column's ray hit a wall, background
/// where it hit nothing.
pub fn draw(height: usize, columns: &Vec<Option<Stripe>>) -> (frame: Vec<Vec<u8>>)
    requires
        height <= i32::MAX,
        drawable(columns@),
    ensures
        frame@.len() == height,
        forall|r: int| 0 <= r < height ==> (#[trigger] frame@[r])@.len() == columns@.len(),
        forall|r: int, c: int|
            0 <= r < height && 0 <= c < columns@.len() ==> #[trigger] frame@[r]@[c] == glyph_at(
                height as int,
                columns@[c],
                r,
            ),
{
    let width: usize = columns.len();
    let mut frame: Vec<Vec<u8>> = Vec::new();
    for i in 0..height
        invariant
            height <= i32::MAX,
            width == columns@.len(),
            drawable(columns@),
            frame@.len() == i,
            forall|r: int| 0 <= r < i ==> (#[trigger] frame@[r])@.len() == width,
            forall|r: int, c: int|
                0 <= r < i && 0 <= c < width ==> #[trigger] frame@[r]@[c] == glyph_at(
                    height as int,
                    columns@[c],
                    r,
                ),
    {
        let mut line: Vec<u8> = Vec::new();
        for j in 0..width
            invariant
                height <= i32::MAX,
                i < height,
                width == columns@.len(),
                drawable(columns@),
                line@.len() == j,
                forall|c: int|
                    0 <= c < j ==> #[trigger] line@[c] == glyph_at(
                        height as int,
                        columns@[c],
                        i as int,
                    ),
        {
            assert(columns@[j as int] == columns@[j as int]);
            line.push(glyph(height, &columns[j], i));
        }
        frame.push(line);
    }
    frame
}

} // verus!
