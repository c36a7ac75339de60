use cgol::term::{
    colormap_gb, colormap_rgb, gfx_cell, gfx_cell_highres, gfx_cls, gfx_hline, gfx_hline_highres,
    gfx_pos1,
};
use cgol::text::{chars_of, push_decimal, scan_number};

#[test]
fn colour_ramp() {
    assert_eq!("\u{1b}[38;5;34m", colormap_gb(0));
    assert_eq!("\u{1b}[38;5;35m", colormap_gb(1));
    assert_eq!("\u{1b}[38;5;36m", colormap_gb(2));
    assert_eq!("\u{1b}[38;5;37m", colormap_gb(3));
    assert_eq!("\u{1b}[38;5;38m", colormap_gb(4));
    assert_eq!("\u{1b}[38;5;39m", colormap_gb(5));
    assert_eq!("\u{1b}[38;5;21m", colormap_gb(6));
    assert_eq!("\u{1b}[38;5;21m", colormap_gb(7));
    assert_eq!("\u{1b}[38;5;21m", colormap_gb(u32::MAX));
}

#[test]
fn colour_fade() {
    assert_eq!("\u{1b}[38;2;128;255;128m", colormap_rgb(0));
    assert_eq!("\u{1b}[38;2;128;254;128m", colormap_rgb(1));
    assert_eq!("\u{1b}[38;2;128;100;128m", colormap_rgb(155));
    assert_eq!("\u{1b}[38;2;128;9;128m", colormap_rgb(246));
    assert_eq!("\u{1b}[38;2;128;0;128m", colormap_rgb(255));
    assert_eq!("\u{1b}[38;2;128;0;128m", colormap_rgb(256));
    assert_eq!("\u{1b}[38;2;128;0;128m", colormap_rgb(u32::MAX));
}

#[test]
fn cursor_escapes() {
    assert_eq!("\u{1b}[2J\u{1b}[1;1H", gfx_cls());
    assert_eq!("\u{1b}[1;1H", gfx_pos1());
}

#[test]
fn cell_glyphs() {
    assert_eq!("\u{2588}", gfx_cell(true));
    assert_eq!(" ", gfx_cell(false));
}

#[test]
fn quadrant_glyphs() {
    assert_eq!(" ", gfx_cell_highres(false, false, false, false));
    assert_eq!("\u{2597}", gfx_cell_highres(false, false, false, true));
    assert_eq!("\u{2596}", gfx_cell_highres(false, false, true, false));
    assert_eq!("\u{2584}", gfx_cell_highres(false, false, true, true));
    assert_eq!("\u{259d}", gfx_cell_highres(false, true, false, false));
    assert_eq!("\u{2590}", gfx_cell_highres(false, true, false, true));
    assert_eq!("\u{259e}", gfx_cell_highres(false, true, true, false));
    assert_eq!("\u{259f}", gfx_cell_highres(false, true, true, true));
    assert_eq!("\u{2598}", gfx_cell_highres(true, false, false, false));
    assert_eq!("\u{259a}", gfx_cell_highres(true, false, false, true));
    assert_eq!("\u{258c}", gfx_cell_highres(true, false, true, false));
    assert_eq!("\u{2599}", gfx_cell_highres(true, false, true, true));
    assert_eq!("\u{2580}", gfx_cell_highres(true, true, false, false));
    assert_eq!("\u{259c}", gfx_cell_highres(true, true, false, true));
    assert_eq!("\u{259b}", gfx_cell_highres(true, true, true, false));
    assert_eq!("\u{2588}", gfx_cell_highres(true, true, true, true));
}

#[test]
fn horizontal_rules() {
    assert_eq!("\u{1b}[38;5;15m", gfx_hline(0));
    assert_eq!("\u{1b}[38;5;15m\u{25ac}", gfx_hline(1));
    assert_eq!("\u{1b}[38;5;15m\u{25ac}\u{25ac}\u{25ac}\u{25ac}\u{25ac}", gfx_hline(5));
    assert_eq!("\u{1b}[38;5;15m", gfx_hline_highres(1));
    assert_eq!("\u{1b}[38;5;15m\u{25ac}\u{25ac}", gfx_hline_highres(4));
    assert_eq!("\u{1b}[38;5;15m\u{25ac}\u{25ac}", gfx_hline_highres(5));
}

#[test]
fn decimal_text_of_numbers() {
    for n in [0usize, 1, 9, 10, 11, 99, 100, 1234567890, usize::MAX] {
        let mut out = String::from("n=");
        push_decimal(&mut out, n);
        assert_eq!(format!("n={}", n), out);
    }
}

#[test]
fn numbers_are_read_to_their_last_digit() {
    let text = chars_of("ab0123x");
    assert_eq!((6, Some(123)), scan_number(&text, 2));
    assert_eq!((6, Some(3)), scan_number(&text, 5));
    assert_eq!((0, Some(0)), scan_number(&text, 0));
    assert_eq!((7, Some(0)), scan_number(&text, 7));
    let large = chars_of("18446744073709551615 18446744073709551616");
    assert_eq!((20, Some(usize::MAX)), scan_number(&large, 0));
    assert_eq!((41, None), scan_number(&large, 21));
}

#[test]
fn characters_of_a_text() {
    assert_eq!(vec!['a', '\u{e9}', '\u{20ac}', '\n'], chars_of("a\u{e9}\u{20ac}\n"));
    assert!(chars_of("").is_empty());
}
