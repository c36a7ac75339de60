//! Escape sequences and glyphs for drawing on a terminal.

use vstd::prelude::*;
use vstd::string::*;
use crate::text::{decimal_text, push_decimal};

verus! {

/// The colour escape for a cell of age `n`: six steps from green to blue
/// for the ages 0 to 5, and one colour for every age above.
pub open spec fn ramp_colour(n: nat) -> Seq<char> {
    if n == 0 {
        "\x1B[38;5;34m"@
    } else if n == 1 {
        "\x1B[38;5;35m"@
    } else if n == 2 {
        "\x1B[38;5;36m"@
    } else if n == 3 {
        "\x1B[38;5;37m"@
    } else if n == 4 {
        "\x1B[38;5;38m"@
    } else if n == 5 {
        "\x1B[38;5;39m"@
    } else {
        "\x1B[38;5;21m"@
    }
}

/// The true-colour escape for a cell of age `n`: the green part falls from
/// 255 to 0 over the ages 0 to 255 and stays at 0 above.
pub open spec fn fade_colour(n: nat) -> Seq<char> {
    if n < 256 {
        "\x1b[38;2;128;"@ + decimal_text((255 - n) as nat) + ";128m"@
    } else {
        "\x1b[38;2;128;0;128m"@
    }
}

/// The glyph of a cell: a full block if it is alive, a space if not.
pub open spec fn cell_glyph(alive: bool) -> Seq<char> {
    if alive {
        "\u{2588}"@
    } else {
        " "@
    }
}

/// The glyph of a block of two by two cells, of which the upper left, upper
/// right, lower left and lower right are alive or not: the quadrant block
/// that fills exactly the live quarters.
pub open spec fn quadrant_glyph(ul: bool, ur: bool, bl: bool, br: bool) -> Seq<char> {
    match (ul, ur, bl, br) {
        (false, false, false, false) => " "@,
        (false, false, false, true) => "\u{2597}"@,
        (false, false, true, false) => "\u{2596}"@,
        (false, false, true, true) => "\u{2584}"@,
        (false, true, false, false) => "\u{259D}"@,
        (false, true, false, true) => "\u{2590}"@,
        (false, true, true, false) => "\u{259E}"@,
        (false, true, true, true) => "\u{259F}"@,
        (true, false, false, false) => "\u{2598}"@,
        (true, false, false, true) => "\u{259A}"@,
        (true, false, true, false) => "\u{258C}"@,
        (true, false, true, true) => "\u{2599}"@,
        (true, true, false, false) => "\u{2580}"@,
        (true, true, false, true) => "\u{259C}"@,
        (true, true, true, false) => "\u{259B}"@,
        (true, true, true, true) => "\u{2588}"@,
    }
}

/// `width` times the glyph of the horizontal rule.
pub open spec fn rule_glyphs(width: nat) -> Seq<char>
    decreases width,
{
    if width == 0 {
        Seq::empty()
    } else {
        rule_glyphs((width - 1) as nat) + "\u{25AC}"@
    }
}

/// A white horizontal rule of the given width.
pub open spec fn hline(width: nat) -> Seq<char> {
    "\x1B[38;5;15m"@ + rule_glyphs(width)
}

/// The colour escape for a cell of age `n`, on a ramp from green to blue.
pub fn colormap_gb(n: u32) -> (colour: String)
    ensures
        colour@ == ramp_colour(n as nat),
{
    match n {
        0 => String::from_str("\x1B[38;5;34m"),
        1 => String::from_str("\x1B[38;5;35m"),
        2 => String::from_str("\x1B[38;5;36m"),
        3 => String::from_str("\x1B[38;5;37m"),
        4 => String::from_str("\x1B[38;5;38m"),
        5 => String::from_str("\x1B[38;5;39m"),
        _ => String::from_str("\x1B[38;5;21m"),
    }
}

/// The true-colour escape for a cell of age `n`, fading from light to dark.
pub fn colormap_rgb(n: u32) -> (colour: String)
    ensures
        colour@ == fade_colour(n as nat),
{
    if n < 256 {
        let mut colour = String::from_str("\x1b[38;2;128;");
        push_decimal(&mut colour, (255 - n) as usize);
        colour.append(";128m");
        colour
    } else {
        String::from_str("\x1b[38;2;128;0;128m")
    }
}

/// Clears the screen and moves the cursor to the upper left corner.
pub fn gfx_cls() -> (escape: &'static str)
    ensures
        escape@ == "\x1B[2J\x1B[1;1H"@,
{
    "\x1B[2J\x1B[1;1H"
}

/// Moves the cursor to the upper left corner.
pub fn gfx_pos1() -> (escape: &'static str)
    ensures
        escape@ == "\x1B[1;1H"@,
{
    "\x1B[1;1H"
}

/// The glyph of a cell.
pub fn gfx_cell(alive: bool) -> (glyph: &'static str)
    ensures
        glyph@ == cell_glyph(alive),
{
    match alive {
        true => "\u{2588}",
        false => " ",
    }
}

/// The glyph of a block of two by two cells.
pub fn gfx_cell_highres(ul: bool, ur: bool, bl: bool, br: bool) -> (glyph: &'static str)
    ensures
        glyph@ == quadrant_glyph(ul, ur, bl, br),
{
    match (ul, ur, bl, br) {
        (false, false, false, false) => " ",
        (false, false, false, true) => "\u{2597}",
        (false, false, true, false) => "\u{2596}",
        (false, false, true, true) => "\u{2584}",
        (false, true, false, false) => "\u{259D}",
        (false, true, false, true) => "\u{2590}",
        (false, true, true, false) => "\u{259E}",
        (false, true, true, true) => "\u{259F}",
        (true, false, false, false) => "\u{2598}",
        (true, false, false, true) => "\u{259A}",
        (true, false, true, false) => "\u{258C}",
        (true, false, true, true) => "\u{2599}",
        (true, true, false, false) => "\u{2580}",
        (true, true, false, true) => "\u{259C}",
        (true, true, true, false) => "\u{259B}",
        (true, true, true, true) => "\u{2588}",
    }
}

/// A white horizontal rule, one glyph for each column.
pub fn gfx_hline(columns: usize) -> (line: String)
    ensures
        line@ == hline(columns as nat),
{
    let mut line = String::from_str("\x1B[38;5;15m");
    let mut i: usize = 0;
    assert(line@ =~= hline(0));
    while i < columns
        invariant
            i <= columns,
            line@ == hline(i as nat),
        decreases columns - i,
    {
        line.append("\u{25AC}");
        i += 1;
        assert(line@ =~= hline(i as nat));
    }
    line
}

/// A white horizontal rule, one glyph for each two columns.
pub fn gfx_hline_highres(columns: usize) -> (line: String)
    ensures
        line@ == hline((columns / 2) as nat),
{
    gfx_hline(columns / 2)
}

} // verus!
