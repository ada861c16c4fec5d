use ascii_maze::view::{
    brightness_rank, draw, get_char_by_dist, glyph, Stripe, ASCII_BRIGHTNESS, ASCII_CHARS,
    BACKGROUND, CAP, GRID_LINE, MAX_BRIGHTNESS,
};

fn stripe(line_height: i32, on_grid_line: bool, brightness: u16) -> Option<Stripe> {
    Some(Stripe { line_height, on_grid_line, brightness })
}

fn column(height: usize, hit: &Option<Stripe>) -> String {
    let mut out = String::new();
    for row in 0..height {
        out.push(glyph(height, hit, row) as char);
    }
    out
}

#[test]
fn the_glyph_table_is_the_brightness_ramp() {
    let ramp = "``.-':_,^=;><+!rc*/z?sLTv)J7(|Fi{C}fI31tlu[neoZ5Yxjya]2ESwqkP6h9d4VpOGbUAKXHm8RD#$Bg0MNWQ%&@";
    assert_eq!(ramp.as_bytes(), &ASCII_CHARS[..]);
    assert_eq!(ASCII_BRIGHTNESS.len(), 92);
    for k in 1..92 {
        assert!(ASCII_BRIGHTNESS[k - 1] <= ASCII_BRIGHTNESS[k]);
    }
    assert_eq!(ASCII_BRIGHTNESS[91], MAX_BRIGHTNESS);
    assert_eq!(BACKGROUND, b' ');
    assert_eq!(GRID_LINE, b'|');
    assert_eq!(CAP, b'=');
}

#[test]
fn rank_is_the_first_glyph_at_least_as_bright() {
    assert_eq!(brightness_rank(0), 0);
    assert_eq!(brightness_rank(1), 1);
    assert_eq!(brightness_rank(751), 1);
    assert_eq!(brightness_rank(752), 2);
    assert_eq!(brightness_rank(5602), 61);
    assert_eq!(brightness_rank(5603), 63);
    assert_eq!(brightness_rank(8037), 90);
    assert_eq!(brightness_rank(8038), 91);
    assert_eq!(brightness_rank(10000), 91);
    assert_eq!(brightness_rank(11000), 91);
    for level in 0..=11000u16 {
        let i = brightness_rank(level);
        assert!(ASCII_BRIGHTNESS[i] >= level);
        assert!(i == 0 || ASCII_BRIGHTNESS[i - 1] < level);
    }
}

#[test]
fn near_walls_get_dense_glyphs_and_far_walls_faint_ones() {
    assert_eq!(get_char_by_dist(0), b'`');
    assert_eq!(get_char_by_dist(751), b'`');
    assert_eq!(get_char_by_dist(752), b'.');
    assert_eq!(get_char_by_dist(4992), b'S');
    assert_eq!(get_char_by_dist(5000), b'w');
    assert_eq!(get_char_by_dist(8037), b'&');
    assert_eq!(get_char_by_dist(9950), b'@');
    assert_eq!(get_char_by_dist(10000), b'@');
    assert_eq!(get_char_by_dist(11000), b'@');
}

#[test]
fn a_column_without_a_hit_is_background() {
    assert_eq!(column(6, &None), "      ");
}

#[test]
fn a_stripe_is_capped_above_and_below() {
    assert_eq!(column(12, &stripe(3, false, 10000)), "   =@@@@@=  ");
    assert_eq!(column(12, &stripe(3, false, 752)), "   =.....=  ");
    assert_eq!(column(12, &stripe(1, false, 5000)), "     =w=    ");
}

#[test]
fn a_hit_on_a_grid_line_is_drawn_as_a_bar() {
    assert_eq!(column(12, &stripe(3, true, 10000)), "   =|||||=  ");
}

#[test]
fn a_stripe_of_no_height_is_one_cap() {
    assert_eq!(column(12, &stripe(0, false, 10000)), "      =     ");
}

#[test]
fn a_near_wall_fills_the_column() {
    assert_eq!(column(12, &stripe(7, false, 10000)), "=@@@@@@@@@@@");
    assert_eq!(column(12, &stripe(i32::MAX, true, 10000)), "=|||||||||||");
    assert_eq!(column(13, &stripe(1000, false, 10000)), "=@@@@@@@@@@@=");
    assert_eq!(column(12, &stripe(6, false, 10000)), "=@@@@@@@@@@@");
    assert_eq!(column(1, &stripe(5, false, 10000)), "=");
}

#[test]
fn a_negative_height_leaves_two_caps() {
    assert_eq!(column(12, &stripe(-2, false, 10000)), "    =   =   ");
    assert_eq!(column(12, &stripe(i32::MIN, false, 10000)), "            ");
}

#[test]
fn draw_paints_one_column_for_each_ray() {
    let columns = vec![None, stripe(2, false, 10000), stripe(1, true, 0), stripe(9, false, 752)];
    let frame = draw(6, &columns);
    let rows: Vec<String> =
        frame.iter().map(|row| row.iter().map(|&g| g as char).collect()).collect();
    assert_eq!(rows, vec![
        "   =",
        " = .",
        " @=.",
        " @|.",
        " @=.",
        " = .",
    ]);
}

#[test]
fn draw_agrees_with_glyph_everywhere() {
    let columns = vec![
        stripe(-1, false, 3000),
        None,
        stripe(0, true, 1),
        stripe(4, false, 11000),
        stripe(40, true, 7000),
        stripe(5, false, 4200),
    ];
    let frame = draw(11, &columns);
    assert_eq!(frame.len(), 11);
    for r in 0..11 {
        assert_eq!(frame[r].len(), columns.len());
        for c in 0..columns.len() {
            assert_eq!(frame[r][c], glyph(11, &columns[c], r));
        }
    }
}

#[test]
fn draw_without_rows_or_columns() {
    let none: Vec<Option<Stripe>> = Vec::new();
    assert_eq!(draw(0, &vec![None, None]), Vec::<Vec<u8>>::new());
    assert_eq!(draw(3, &none), vec![Vec::<u8>::new(); 3]);
}
