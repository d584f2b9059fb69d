//! Bitmap text: a built-in 8x8 font, doubled vertically to 8x16 cells,
//! rendered into an artwork bitmap.
use vstd::prelude::*;

use crate::artwork::ArtworkBitmap;

verus! {

/// Width of a glyph cell in font pixels.
pub const GLYPH_W: u32 = 8;

/// Height of a glyph cell in font pixels.
pub const GLYPH_H: u32 = 16;

/// The eight rows of the glyph for `ch`, most significant bit leftmost.
/// Characters outside the font draw as `'?'`.
pub open spec fn glyph_rows(ch: char) -> Seq<u8> {
    match ch {
        ' ' => seq![0u8, 0, 0, 0, 0, 0, 0, 0],
        '-' => seq![0u8, 0, 0, 0b01111100, 0, 0, 0, 0],
        '_' => seq![0u8, 0, 0, 0, 0, 0, 0, 0b01111100],
        '.' => seq![0u8, 0, 0, 0, 0, 0, 0b00011000, 0],
        ':' => seq![0u8, 0b00011000, 0, 0, 0, 0b00011000, 0, 0],
        '/' => seq![0b00000110u8, 0b00001100, 0b00011000, 0b00110000, 0b01100000, 0b11000000, 0, 0],
        '?' => seq![0b00111100u8, 0b01100110, 0b00000110, 0b00001100, 0b00011000, 0, 0b00011000, 0],
        '0' => seq![0b00111100u8, 0b01100110, 0b01101110, 0b01110110, 0b01100110, 0b01100110, 0b00111100, 0],
        '1' => seq![0b00011000u8, 0b00111000, 0b00011000, 0b00011000, 0b00011000, 0b00011000, 0b00111100, 0],
        '2' => seq![0b00111100u8, 0b01100110, 0b00000110, 0b00001100, 0b00110000, 0b01100000, 0b01111110, 0],
        '3' => seq![0b00111100u8, 0b01100110, 0b00000110, 0b00011100, 0b00000110, 0b01100110, 0b00111100, 0],
        '4' => seq![0b00001100u8, 0b00011100, 0b00101100, 0b01001100, 0b01111110, 0b00001100, 0b00001100, 0],
        '5' => seq![0b01111110u8, 0b01100000, 0b01111100, 0b00000110, 0b00000110, 0b01100110, 0b00111100, 0],
        '6' => seq![0b00011100u8, 0b00110000, 0b01100000, 0b01111100, 0b01100110, 0b01100110, 0b00111100, 0],
        '7' => seq![0b01111110u8, 0b01100110, 0b00000110, 0b00001100, 0b00011000, 0b00011000, 0b00011000, 0],
        '8' => seq![0b00111100u8, 0b01100110, 0b01100110, 0b00111100, 0b01100110, 0b01100110, 0b00111100, 0],
        '9' => seq![0b00111100u8, 0b01100110, 0b01100110, 0b00111110, 0b00000110, 0b00001100, 0b00111000, 0],
        'A' => seq![0b00011000u8, 0b00111100, 0b01100110, 0b01100110, 0b01111110, 0b01100110, 0b01100110, 0],
        'B' => seq![0b01111100u8, 0b01100110, 0b01100110, 0b01111100, 0b01100110, 0b01100110, 0b01111100, 0],
        'C' => seq![0b00111100u8, 0b01100110, 0b01100000, 0b01100000, 0b01100000, 0b01100110, 0b00111100, 0],
        'D' => seq![0b01111000u8, 0b01101100, 0b01100110, 0b01100110, 0b01100110, 0b01101100, 0b01111000, 0],
        'E' => seq![0b01111110u8, 0b01100000, 0b01100000, 0b01111100, 0b01100000, 0b01100000, 0b01111110, 0],
        'F' => seq![0b01111110u8, 0b01100000, 0b01100000, 0b01111100, 0b01100000, 0b01100000, 0b01100000, 0],
        'G' => seq![0b00111100u8, 0b01100110, 0b01100000, 0b01101110, 0b01100110, 0b01100110, 0b00111110, 0],
        'H' => seq![0b01100110u8, 0b01100110, 0b01100110, 0b01111110, 0b01100110, 0b01100110, 0b01100110, 0],
        'I' => seq![0b00111100u8, 0b00011000, 0b00011000, 0b00011000, 0b00011000, 0b00011000, 0b00111100, 0],
        'J' => seq![0b00011110u8, 0b00001100, 0b00001100, 0b00001100, 0b01101100, 0b01101100, 0b00111000, 0],
        'K' => seq![0b01100110u8, 0b01101100, 0b01111000, 0b01110000, 0b01111000, 0b01101100, 0b01100110, 0],
        'L' => seq![0b01100000u8, 0b01100000, 0b01100000, 0b01100000, 0b01100000, 0b01100000, 0b01111110, 0],
        'M' => seq![0b01100011u8, 0b01110111, 0b01111111, 0b01101011, 0b01100011, 0b01100011, 0b01100011, 0],
        'N' => seq![0b01100110u8, 0b01110110, 0b01111110, 0b01111110, 0b01101110, 0b01100110, 0b01100110, 0],
        'O' => seq![0b00111100u8, 0b01100110, 0b01100110, 0b01100110, 0b01100110, 0b01100110, 0b00111100, 0],
        'P' => seq![0b01111100u8, 0b01100110, 0b01100110, 0b01111100, 0b01100000, 0b01100000, 0b01100000, 0],
        'Q' => seq![0b00111100u8, 0b01100110, 0b01100110, 0b01100110, 0b01101110, 0b00111100, 0b00000110, 0],
        'R' => seq![0b01111100u8, 0b01100110, 0b01100110, 0b01111100, 0b01111000, 0b01101100, 0b01100110, 0],
        'S' => seq![0b00111110u8, 0b01100000, 0b01100000, 0b00111100, 0b00000110, 0b00000110, 0b01111100, 0],
        'T' => seq![0b01111110u8, 0b01011010, 0b00011000, 0b00011000, 0b00011000, 0b00011000, 0b00111100, 0],
        'U' => seq![0b01100110u8, 0b01100110, 0b01100110, 0b01100110, 0b01100110, 0b01100110, 0b00111100, 0],
        'V' => seq![0b01100110u8, 0b01100110, 0b01100110, 0b01100110, 0b01100110, 0b00111100, 0b00011000, 0],
        'W' => seq![0b01100011u8, 0b01100011, 0b01100011, 0b01101011, 0b01111111, 0b01110111, 0b01100011, 0],
        'X' => seq![0b01100011u8, 0b01100011, 0b00110110, 0b00011100, 0b00110110, 0b01100011, 0b01100011, 0],
        'Y' => seq![0b01100110u8, 0b01100110, 0b00111100, 0b00011000, 0b00011000, 0b00011000, 0b00111100, 0],
        'Z' => seq![0b01111110u8, 0b00000110, 0b00001100, 0b00011000, 0b00110000, 0b01100000, 0b01111110, 0],
        _ => seq![0b00111100u8, 0b01100110, 0b00000110, 0b00001100, 0b00011000, 0, 0b00011000, 0],
    }
}

/// The characters the font draws a glyph of their own for.
pub open spec fn in_font(ch: char) -> bool {
    ||| ch == ' '
    ||| ch == '-'
    ||| ch == '_'
    ||| ch == '.'
    ||| ch == ':'
    ||| ch == '/'
    ||| ch == '?'
    ||| ch == '0'
    ||| ch == '1'
    ||| ch == '2'
    ||| ch == '3'
    ||| ch == '4'
    ||| ch == '5'
    ||| ch == '6'
    ||| ch == '7'
    ||| ch == '8'
    ||| ch == '9'
    ||| ch == 'A'
    ||| ch == 'B'
    ||| ch == 'C'
    ||| ch == 'D'
    ||| ch == 'E'
    ||| ch == 'F'
    ||| ch == 'G'
    ||| ch == 'H'
    ||| ch == 'I'
    ||| ch == 'J'
    ||| ch == 'K'
    ||| ch == 'L'
    ||| ch == 'M'
    ||| ch == 'N'
    ||| ch == 'O'
    ||| ch == 'P'
    ||| ch == 'Q'
    ||| ch == 'R'
    ||| ch == 'S'
    ||| ch == 'T'
    ||| ch == 'U'
    ||| ch == 'V'
    ||| ch == 'W'
    ||| ch == 'X'
    ||| ch == 'Y'
    ||| ch == 'Z'
}

/// The eight rows of a glyph read as one number, top row most significant.
pub open spec fn glyph_key(rows: Seq<u8>) -> int {
    ((((((rows[0] as int * 256 + rows[1]) * 256 + rows[2]) * 256 + rows[3]) * 256 + rows[4]) * 256 + rows[5]) * 256
        + rows[6]) * 256 + rows[7]
}

/// Reads back the character from the number of its glyph.
spec fn key_char(k: int) -> char {
    if k == 0x0000000000000000 {
        ' '
    } else if k == 0x0000007c00000000 {
        '-'
    } else if k == 0x000000000000007c {
        '_'
    } else if k == 0x0000000000001800 {
        '.'
    } else if k == 0x0018000000180000 {
        ':'
    } else if k == 0x060c183060c00000 {
        '/'
    } else if k == 0x3c66060c18001800 {
        '?'
    } else if k == 0x3c666e7666663c00 {
        '0'
    } else if k == 0x1838181818183c00 {
        '1'
    } else if k == 0x3c66060c30607e00 {
        '2'
    } else if k == 0x3c66061c06663c00 {
        '3'
    } else if k == 0x0c1c2c4c7e0c0c00 {
        '4'
    } else if k == 0x7e607c0606663c00 {
        '5'
    } else if k == 0x1c30607c66663c00 {
        '6'
    } else if k == 0x7e66060c18181800 {
        '7'
    } else if k == 0x3c66663c66663c00 {
        '8'
    } else if k == 0x3c66663e060c3800 {
        '9'
    } else if k == 0x183c66667e666600 {
        'A'
    } else if k == 0x7c66667c66667c00 {
        'B'
    } else if k == 0x3c66606060663c00 {
        'C'
    } else if k == 0x786c6666666c7800 {
        'D'
    } else if k == 0x7e60607c60607e00 {
        'E'
    } else if k == 0x7e60607c60606000 {
        'F'
    } else if k == 0x3c66606e66663e00 {
        'G'
    } else if k == 0x6666667e66666600 {
        'H'
    } else if k == 0x3c18181818183c00 {
        'I'
    } else if k == 0x1e0c0c0c6c6c3800 {
        'J'
    } else if k == 0x666c7870786c6600 {
        'K'
    } else if k == 0x6060606060607e00 {
        'L'
    } else if k == 0x63777f6b63636300 {
        'M'
    } else if k == 0x66767e7e6e666600 {
        'N'
    } else if k == 0x3c66666666663c00 {
        'O'
    } else if k == 0x7c66667c60606000 {
        'P'
    } else if k == 0x3c6666666e3c0600 {
        'Q'
    } else if k == 0x7c66667c786c6600 {
        'R'
    } else if k == 0x3e60603c06067c00 {
        'S'
    } else if k == 0x7e5a181818183c00 {
        'T'
    } else if k == 0x6666666666663c00 {
        'U'
    } else if k == 0x66666666663c1800 {
        'V'
    } else if k == 0x6363636b7f776300 {
        'W'
    } else if k == 0x6363361c36636300 {
        'X'
    } else if k == 0x66663c1818183c00 {
        'Y'
    } else if k == 0x7e060c1830607e00 {
        'Z'
    } else {
        '?'
    }
}

proof fn lemma_glyph_key_char(ch: char)
    requires
        in_font(ch),
    ensures
        key_char(glyph_key(glyph_rows(ch))) == ch,
{
}

/// The font tells characters apart: two different characters of the font
/// are drawn with different glyphs.
pub proof fn law_glyphs_distinct(c1: char, c2: char)
    requires
        in_font(c1),
        in_font(c2),
        c1 != c2,
    ensures
        glyph_rows(c1) != glyph_rows(c2),
{
    lemma_glyph_key_char(c1);
    lemma_glyph_key_char(c2);
}

proof fn lemma_u8_bit_differs(a: u8, b: u8)
    by (bit_vector)
    requires
        a != b,
    ensures
        ((a >> 0u8) & 1u8 == 1u8) != ((b >> 0u8) & 1u8 == 1u8) || ((a >> 1u8) & 1u8 == 1u8) != ((b >> 1u8) & 1u8
            == 1u8) || ((a >> 2u8) & 1u8 == 1u8) != ((b >> 2u8) & 1u8 == 1u8) || ((a >> 3u8) & 1u8 == 1u8) != ((b
            >> 3u8) & 1u8 == 1u8) || ((a >> 4u8) & 1u8 == 1u8) != ((b >> 4u8) & 1u8 == 1u8) || ((a >> 5u8) & 1u8
            == 1u8) != ((b >> 5u8) & 1u8 == 1u8) || ((a >> 6u8) & 1u8 == 1u8) != ((b >> 6u8) & 1u8 == 1u8) || ((a
            >> 7u8) & 1u8 == 1u8) != ((b >> 7u8) & 1u8 == 1u8),
{
}

/// Different characters of the font are drawn differently: their 8 x 16
/// glyph cells differ in at least one pixel.
pub proof fn law_glyph_cells_distinct(c1: char, c2: char)
    requires
        in_font(c1),
        in_font(c2),
        c1 != c2,
    ensures
        exists|gx: int, gy: int| 0 <= gx < 8 && 0 <= gy < 16 && glyph_bit(c1, gx, gy) != glyph_bit(c2, gx, gy),
{
    law_glyphs_distinct(c1, c2);
    let r1 = glyph_rows(c1);
    let r2 = glyph_rows(c2);
    assert(r1.len() == 8 && r2.len() == 8);
    if forall|r: int| 0 <= r < 8 ==> r1[r] == r2[r] {
        assert(r1 =~= r2);
    }
    let r = choose|r: int| 0 <= r < 8 && r1[r] != r2[r];
    let a = r1[r];
    let b = r2[r];
    lemma_u8_bit_differs(a, b);
    let gy = 2 * r;
    assert(gy / 2 == r);
    if ((a >> 0u8) & 1u8 == 1u8) != ((b >> 0u8) & 1u8 == 1u8) {
        assert(glyph_bit(c1, 7, gy) != glyph_bit(c2, 7, gy));
    } else if ((a >> 1u8) & 1u8 == 1u8) != ((b >> 1u8) & 1u8 == 1u8) {
        assert(glyph_bit(c1, 6, gy) != glyph_bit(c2, 6, gy));
    } else if ((a >> 2u8) & 1u8 == 1u8) != ((b >> 2u8) & 1u8 == 1u8) {
        assert(glyph_bit(c1, 5, gy) != glyph_bit(c2, 5, gy));
    } else if ((a >> 3u8) & 1u8 == 1u8) != ((b >> 3u8) & 1u8 == 1u8) {
        assert(glyph_bit(c1, 4, gy) != glyph_bit(c2, 4, gy));
    } else if ((a >> 4u8) & 1u8 == 1u8) != ((b >> 4u8) & 1u8 == 1u8) {
        assert(glyph_bit(c1, 3, gy) != glyph_bit(c2, 3, gy));
    } else if ((a >> 5u8) & 1u8 == 1u8) != ((b >> 5u8) & 1u8 == 1u8) {
        assert(glyph_bit(c1, 2, gy) != glyph_bit(c2, 2, gy));
    } else if ((a >> 6u8) & 1u8 == 1u8) != ((b >> 6u8) & 1u8 == 1u8) {
        assert(glyph_bit(c1, 1, gy) != glyph_bit(c2, 1, gy));
    } else {
        assert(glyph_bit(c1, 0, gy) != glyph_bit(c2, 0, gy));
    }
}

/// The character whose glyph is drawn for `ch`: ASCII letters are drawn
/// upper-case, other ASCII characters as themselves, anything else as `'?'`.
pub open spec fn font_char(ch: char) -> char {
    if (ch as u32) < 128 {
        if 'a' <= ch && ch <= 'z' {
            ((ch as u32) - 32) as char
        } else {
            ch
        }
    } else {
        '?'
    }
}

/// Whether font pixel `(gx, gy)` of the 8x16 cell of `ch` is set.
pub open spec fn glyph_bit(ch: char, gx: int, gy: int) -> bool {
    (glyph_rows(ch)[gy / 2] >> ((7 - gx) as u8)) & 1u8 == 1u8
}

/// `s` cut at every `'\n'`; there is always at least one line.
pub open spec fn split_lines(s: Seq<char>) -> Seq<Seq<char>>
    decreases s.len(),
{
    if s.len() == 0 {
        seq![Seq::<char>::empty()]
    } else {
        let rest = split_lines(s.drop_last());
        if s.last() == '\n' {
            rest.push(Seq::<char>::empty())
        } else {
            rest.update(rest.len() - 1, rest.last().push(s.last()))
        }
    }
}

/// Width in pixels of a line of `n` characters.
pub open spec fn line_width(n: int, scale: int, char_spacing: int) -> int {
    if n == 0 {
        0
    } else {
        n * GLYPH_W * scale + (n - 1) * char_spacing
    }
}

/// The widest line of `lines`, 0 when there are none.
pub open spec fn max_line_width(lines: Seq<Seq<char>>, scale: int, char_spacing: int) -> int
    decreases lines.len(),
{
    if lines.len() == 0 {
        0
    } else {
        let w = line_width(lines.last().len() as int, scale, char_spacing);
        let m = max_line_width(lines.drop_last(), scale, char_spacing);
        if w > m {
            w
        } else {
            m
        }
    }
}

/// The scale actually used: 0 counts as 1.
pub open spec fn eff_scale(scale: u32) -> int {
    if scale == 0 {
        1
    } else {
        scale as int
    }
}

/// Width of the rendered bitmap: the widest line, at least 1.
pub open spec fn text_width(lines: Seq<Seq<char>>, scale: int, char_spacing: int) -> int {
    let m = max_line_width(lines, scale, char_spacing);
    if m < 1 {
        1
    } else {
        m
    }
}

/// Height of the rendered bitmap for `n` lines.
pub open spec fn text_height(n: int, scale: int, line_spacing: int) -> int {
    n * GLYPH_H * scale + (n - 1) * line_spacing
}

/// Whether pixel `(x, y)` of the rendered text is set. Line `li` occupies
/// rows from `li * (16 * scale + line_spacing)` and character `ci` of it
/// columns from `ci * (8 * scale + char_spacing)`; each font pixel is a
/// `scale x scale` block.
pub open spec fn text_pixel(
    lines: Seq<Seq<char>>,
    scale: int,
    char_spacing: int,
    line_spacing: int,
    x: int,
    y: int,
) -> bool {
    let bh = GLYPH_H * scale + line_spacing;
    let bw = GLYPH_W * scale + char_spacing;
    let li = y / bh;
    let ry = y % bh;
    let ci = x / bw;
    let rx = x % bw;
    &&& li < lines.len()
    &&& ry < GLYPH_H * scale
    &&& ci < lines[li].len()
    &&& rx < GLYPH_W * scale
    &&& glyph_bit(font_char(lines[li][ci]), rx / scale, ry / scale)
}

fn glyph8(ch: char) -> (r: [u8; 8])
    ensures
        r@ == glyph_rows(ch),
{
    let r = match ch {
        ' ' => [0u8, 0, 0, 0, 0, 0, 0, 0],
        '-' => [0u8, 0, 0, 0b01111100, 0, 0, 0, 0],
        '_' => [0u8, 0, 0, 0, 0, 0, 0, 0b01111100],
        '.' => [0u8, 0, 0, 0, 0, 0, 0b00011000, 0],
        ':' => [0u8, 0b00011000, 0, 0, 0, 0b00011000, 0, 0],
        '/' => [0b00000110u8, 0b00001100, 0b00011000, 0b00110000, 0b01100000, 0b11000000, 0, 0],
        '?' => [0b00111100u8, 0b01100110, 0b00000110, 0b00001100, 0b00011000, 0, 0b00011000, 0],
        '0' => [0b00111100u8, 0b01100110, 0b01101110, 0b01110110, 0b01100110, 0b01100110, 0b00111100, 0],
        '1' => [0b00011000u8, 0b00111000, 0b00011000, 0b00011000, 0b00011000, 0b00011000, 0b00111100, 0],
        '2' => [0b00111100u8, 0b01100110, 0b00000110, 0b00001100, 0b00110000, 0b01100000, 0b01111110, 0],
        '3' => [0b00111100u8, 0b01100110, 0b00000110, 0b00011100, 0b00000110, 0b01100110, 0b00111100, 0],
        '4' => [0b00001100u8, 0b00011100, 0b00101100, 0b01001100, 0b01111110, 0b00001100, 0b00001100, 0],
        '5' => [0b01111110u8, 0b01100000, 0b01111100, 0b00000110, 0b00000110, 0b01100110, 0b00111100, 0],
        '6' => [0b00011100u8, 0b00110000, 0b01100000, 0b01111100, 0b01100110, 0b01100110, 0b00111100, 0],
        '7' => [0b01111110u8, 0b01100110, 0b00000110, 0b00001100, 0b00011000, 0b00011000, 0b00011000, 0],
        '8' => [0b00111100u8, 0b01100110, 0b01100110, 0b00111100, 0b01100110, 0b01100110, 0b00111100, 0],
        '9' => [0b00111100u8, 0b01100110, 0b01100110, 0b00111110, 0b00000110, 0b00001100, 0b00111000, 0],
        'A' => [0b00011000u8, 0b00111100, 0b01100110, 0b01100110, 0b01111110, 0b01100110, 0b01100110, 0],
        'B' => [0b01111100u8, 0b01100110, 0b01100110, 0b01111100, 0b01100110, 0b01100110, 0b01111100, 0],
        'C' => [0b00111100u8, 0b01100110, 0b01100000, 0b01100000, 0b01100000, 0b01100110, 0b00111100, 0],
        'D' => [0b01111000u8, 0b01101100, 0b01100110, 0b01100110, 0b01100110, 0b01101100, 0b01111000, 0],
        'E' => [0b01111110u8, 0b01100000, 0b01100000, 0b01111100, 0b01100000, 0b01100000, 0b01111110, 0],
        'F' => [0b01111110u8, 0b01100000, 0b01100000, 0b01111100, 0b01100000, 0b01100000, 0b01100000, 0],
        'G' => [0b00111100u8, 0b01100110, 0b01100000, 0b01101110, 0b01100110, 0b01100110, 0b00111110, 0],
        'H' => [0b01100110u8, 0b01100110, 0b01100110, 0b01111110, 0b01100110, 0b01100110, 0b01100110, 0],
        'I' => [0b00111100u8, 0b00011000, 0b00011000, 0b00011000, 0b00011000, 0b00011000, 0b00111100, 0],
        'J' => [0b00011110u8, 0b00001100, 0b00001100, 0b00001100, 0b01101100, 0b01101100, 0b00111000, 0],
        'K' => [0b01100110u8, 0b01101100, 0b01111000, 0b01110000, 0b01111000, 0b01101100, 0b01100110, 0],
        'L' => [0b01100000u8, 0b01100000, 0b01100000, 0b01100000, 0b01100000, 0b01100000, 0b01111110, 0],
        'M' => [0b01100011u8, 0b01110111, 0b01111111, 0b01101011, 0b01100011, 0b01100011, 0b01100011, 0],
        'N' => [0b01100110u8, 0b01110110, 0b01111110, 0b01111110, 0b01101110, 0b01100110, 0b01100110, 0],
        'O' => [0b00111100u8, 0b01100110, 0b01100110, 0b01100110, 0b01100110, 0b01100110, 0b00111100, 0],
        'P' => [0b01111100u8, 0b01100110, 0b01100110, 0b01111100, 0b01100000, 0b01100000, 0b01100000, 0],
        'Q' => [0b00111100u8, 0b01100110, 0b01100110, 0b01100110, 0b01101110, 0b00111100, 0b00000110, 0],
        'R' => [0b01111100u8, 0b01100110, 0b01100110, 0b01111100, 0b01111000, 0b01101100, 0b01100110, 0],
        'S' => [0b00111110u8, 0b01100000, 0b01100000, 0b00111100, 0b00000110, 0b00000110, 0b01111100, 0],
        'T' => [0b01111110u8, 0b01011010, 0b00011000, 0b00011000, 0b00011000, 0b00011000, 0b00111100, 0],
        'U' => [0b01100110u8, 0b01100110, 0b01100110, 0b01100110, 0b01100110, 0b01100110, 0b00111100, 0],
        'V' => [0b01100110u8, 0b01100110, 0b01100110, 0b01100110, 0b01100110, 0b00111100, 0b00011000, 0],
        'W' => [0b01100011u8, 0b01100011, 0b01100011, 0b01101011, 0b01111111, 0b01110111, 0b01100011, 0],
        'X' => [0b01100011u8, 0b01100011, 0b00110110, 0b00011100, 0b00110110, 0b01100011, 0b01100011, 0],
        'Y' => [0b01100110u8, 0b01100110, 0b00111100, 0b00011000, 0b00011000, 0b00011000, 0b00111100, 0],
        'Z' => [0b01111110u8, 0b00000110, 0b00001100, 0b00011000, 0b00110000, 0b01100000, 0b01111110, 0],
        _ => [0b00111100u8, 0b01100110, 0b00000110, 0b00001100, 0b00011000, 0, 0b00011000, 0],
    };
    assert(r@ =~= glyph_rows(ch));
    r
}

fn glyph16(ch: char) -> (r: [u8; 16])
    ensures
        forall|k: int| 0 <= k < 16 ==> #[trigger] r@[k] == glyph_rows(ch)[k / 2],
{
    let src = glyph8(ch);
    let mut out = [0u8; 16];
    for row in 0..8usize
        invariant
            src@ == glyph_rows(ch),
            out@.len() == 16,
            forall|k: int| 0 <= k < 2 * row ==> #[trigger] out@[k] == glyph_rows(ch)[k / 2],
    {
        let byte = src[row];
        let dst = row * 2;
        out[dst] = byte;
        out[dst + 1] = byte;
    }
    out
}

fn font_char_of(ch: char) -> (r: char)
    ensures
        r == font_char(ch),
{
    if (ch as u32) < 128 {
        if 'a' <= ch && ch <= 'z' {
            let b: u8 = (ch as u32 - 32) as u8;
            b as char
        } else {
            ch
        }
    } else {
        '?'
    }
}


fn split_text_lines(text: &str) -> (r: Vec<Vec<char>>)
    ensures
        r.deep_view() == split_lines(text@),
{
    let mut lines: Vec<Vec<char>> = Vec::new();
    let mut cur: Vec<char> = Vec::new();
    for c in it: text.chars()
        invariant
            it.seq() == text@,
            split_lines(text@.take(it.index() as int)) == lines.deep_view().push(cur@),
    {
        proof {
            let i = it.index() as int;
            assert(text@.take(i + 1).drop_last() =~= text@.take(i));
            assert(text@.take(i + 1).last() == c);
        }
        if c == '\n' {
            let ghost old_lines = lines.deep_view();
            let ghost old_cur = cur@;
            assert(cur.deep_view() =~= cur@);
            lines.push(cur);
            cur = Vec::new();
            proof {
                assert(lines.deep_view() =~= old_lines.push(old_cur));
                assert(lines.deep_view().push(cur@) =~= old_lines.push(old_cur).push(Seq::<char>::empty()));
            }
        } else {
            let ghost old_cur = cur@;
            cur.push(c);
            proof {
                let prev = lines.deep_view().push(old_cur);
                assert(lines.deep_view().push(cur@) =~= prev.update(prev.len() - 1, prev.last().push(c)));
            }
        }
    }
    proof {
        assert(text@.take(text@.len() as int) =~= text@);
    }
    let ghost before = lines.deep_view();
    let ghost last = cur@;
    assert(cur.deep_view() =~= cur@);
    lines.push(cur);
    proof {
        assert(lines.deep_view() =~= before.push(last));
    }
    lines
}


proof fn lemma_max_line_width(lines: Seq<Seq<char>>, scale: int, char_spacing: int)
    requires
        scale >= 1,
        char_spacing >= 0,
    ensures
        max_line_width(lines, scale, char_spacing) >= 0,
        forall|i: int|
            0 <= i < lines.len() ==> line_width(#[trigger] lines[i].len() as int, scale, char_spacing)
                <= max_line_width(lines, scale, char_spacing),
        forall|i: int|
            0 <= i <= lines.len() ==> max_line_width(#[trigger] lines.take(i), scale, char_spacing)
                <= max_line_width(lines, scale, char_spacing),
    decreases lines.len(),
{
    if lines.len() > 0 {
        let rest = lines.drop_last();
        lemma_max_line_width(rest, scale, char_spacing);
        assert forall|i: int| 0 <= i < lines.len() implies line_width(
            #[trigger] lines[i].len() as int,
            scale,
            char_spacing,
        ) <= max_line_width(lines, scale, char_spacing) by {
            if i < lines.len() - 1 {
                assert(lines[i] == rest[i]);
            }
        }
        assert forall|i: int| 0 <= i <= lines.len() implies max_line_width(
            #[trigger] lines.take(i),
            scale,
            char_spacing,
        ) <= max_line_width(lines, scale, char_spacing) by {
            if i < lines.len() {
                assert(lines.take(i) =~= rest.take(i));
            } else {
                assert(lines.take(i) =~= lines);
            }
        }
    }
}

fn line_width_of(n: usize, scale: u64, char_spacing: u64) -> (r: u64)
    requires
        1 <= scale,
        line_width(n as int, scale as int, char_spacing as int) <= u32::MAX,
    ensures
        r == line_width(n as int, scale as int, char_spacing as int),
{
    if n == 0 {
        0
    } else {
        let nn = n as u64;
        assert(nn * 8 <= nn * 8 * scale <= u32::MAX && (nn - 1) * char_spacing <= u32::MAX)
            by (nonlinear_arith)
            requires
                nn >= 1,
                scale >= 1,
                char_spacing >= 0,
                nn * 8 * scale + (nn - 1) * char_spacing <= u32::MAX,
        ;
        nn * 8 * scale + (nn - 1) * char_spacing
    }
}

fn pixel_at(lines: &Vec<Vec<char>>, scale: u64, char_spacing: u64, line_spacing: u64, x: u64, y: u64) -> (r: bool)
    requires
        1 <= scale <= u32::MAX,
        char_spacing <= u32::MAX,
        line_spacing <= u32::MAX,
    ensures
        r == text_pixel(lines.deep_view(), scale as int, char_spacing as int, line_spacing as int, x as int, y as int),
{
    let ghost dv = lines.deep_view();
    let bh = 16 * scale + line_spacing;
    let bw = 8 * scale + char_spacing;
    let li = y / bh;
    let ry = y % bh;
    let ci = x / bw;
    let rx = x % bw;
    if li >= lines.len() as u64 || ry >= 16 * scale {
        return false;
    }
    let line = &lines[li as usize];
    assert(line@ == dv[li as int]);
    if ci >= line.len() as u64 || rx >= 8 * scale {
        return false;
    }
    let gy = ry / scale;
    let gx = rx / scale;
    assert(gy < 16 && gx < 8) by (nonlinear_arith)
        requires
            gy == ry / scale,
            gx == rx / scale,
            ry < 16 * scale,
            rx < 8 * scale,
            scale >= 1,
    ;
    let ch = font_char_of(line[ci as usize]);
    let rows = glyph16(ch);
    let row = rows[gy as usize];
    assert(row == glyph_rows(ch)[gy as int / 2]);
    (row >> ((7 - gx) as u8)) & 1u8 == 1u8
}

/// Render `text` with the built-in font. Lines are separated by `'\n'`;
/// each font pixel becomes a `scale x scale` block (a scale of 0 counts as
/// 1), glyph cells are `char_spacing` apart horizontally and lines
/// `line_spacing` apart vertically.
pub fn render_text(text: &str, scale: u32, char_spacing: u32, line_spacing: u32) -> (r: ArtworkBitmap)
    requires
        text_width(split_lines(text@), eff_scale(scale), char_spacing as int) * text_height(
            split_lines(text@).len() as int,
            eff_scale(scale),
            line_spacing as int,
        ) <= u32::MAX,
    ensures
        r.wf(),
        r.width == text_width(split_lines(text@), eff_scale(scale), char_spacing as int),
        r.height == text_height(split_lines(text@).len() as int, eff_scale(scale), line_spacing as int),
        r@ == Seq::new(
            (r.width * r.height) as nat,
            |k: int|
                text_pixel(
                    split_lines(text@),
                    eff_scale(scale),
                    char_spacing as int,
                    line_spacing as int,
                    k % (r.width as int),
                    k / (r.width as int),
                ),
        ),
{
    let s: u32 = if scale == 0 {
        1
    } else {
        scale
    };
    let lines = split_text_lines(text);
    let ghost dv = lines.deep_view();
    let ghost tw = text_width(dv, s as int, char_spacing as int);
    let ghost th = text_height(dv.len() as int, s as int, line_spacing as int);
    proof {
        lemma_max_line_width(dv, s as int, char_spacing as int);
        assert(dv.len() >= 1) by {
            lemma_split_nonempty(text@);
        }
        assert(th >= 16) by (nonlinear_arith)
            requires
                th == dv.len() * 16 * s + (dv.len() - 1) * line_spacing,
                dv.len() >= 1,
                s >= 1,
                line_spacing >= 0,
        ;
        assert(tw <= u32::MAX && th <= u32::MAX) by (nonlinear_arith)
            requires
                tw * th <= u32::MAX,
                tw >= 1,
                th >= 1,
        ;
    }
    let mut m: u64 = 0;
    let mut i: usize = 0;
    while i < lines.len()
        invariant
            dv == lines.deep_view(),
            0 <= i <= lines.len(),
            s >= 1,
            m == max_line_width(dv.take(i as int), s as int, char_spacing as int),
            max_line_width(dv, s as int, char_spacing as int) <= tw <= u32::MAX,
            forall|j: int|
                0 <= j < dv.len() ==> line_width(#[trigger] dv[j].len() as int, s as int, char_spacing as int)
                    <= max_line_width(dv, s as int, char_spacing as int),
            forall|j: int|
                0 <= j <= dv.len() ==> max_line_width(#[trigger] dv.take(j), s as int, char_spacing as int)
                    <= max_line_width(dv, s as int, char_spacing as int),
        decreases lines.len() - i,
    {
        assert(lines[i as int]@ == dv[i as int]);
        let w = line_width_of(lines[i].len(), s as u64, char_spacing as u64);
        proof {
            assert(dv.take(i + 1).drop_last() =~= dv.take(i as int));
            assert(dv.take(i + 1).last() == dv[i as int]);
        }
        if w > m {
            m = w;
        }
        i = i + 1;
    }
    proof {
        assert(dv.take(dv.len() as int) =~= dv);
    }
    let width: u64 = if m < 1 {
        1
    } else {
        m
    };
    let n = lines.len() as u64;
    assert(n * 16 * s <= u32::MAX && (n - 1) * line_spacing <= u32::MAX && n * 16 <= n * 16 * s)
        by (nonlinear_arith)
        requires
            n >= 1,
            s >= 1,
            n * 16 * s + (n - 1) * line_spacing <= u32::MAX,
    ;
    let height: u64 = n * 16 * (s as u64) + (n - 1) * (line_spacing as u64);
    let w32 = width as u32;
    let h32 = height as u32;
    let total: u32 = w32 * h32;
    let mut bools: Vec<bool> = Vec::new();
    let mut k: u32 = 0;
    while k < total
        invariant
            dv == lines.deep_view(),
            k <= total,
            total == w32 * h32,
            w32 >= 1,
            s >= 1,
            bools@ == Seq::new(
                k as nat,
                |j: int| text_pixel(dv, s as int, char_spacing as int, line_spacing as int, j % (w32 as int), j / (w32 as int)),
            ),
        decreases total - k,
    {
        let x = k % w32;
        let y = k / w32;
        let p = pixel_at(&lines, s as u64, char_spacing as u64, line_spacing as u64, x as u64, y as u64);
        bools.push(p);
        k = k + 1;
        proof {
            assert(bools@ =~= Seq::new(
                k as nat,
                |j: int| text_pixel(dv, s as int, char_spacing as int, line_spacing as int, j % (w32 as int), j / (w32 as int)),
            ));
        }
    }
    let r = ArtworkBitmap::from_bools(w32, h32, bools.as_slice());
    r
}

proof fn lemma_split_nonempty(s: Seq<char>)
    ensures
        split_lines(s).len() >= 1,
    decreases s.len(),
{
    if s.len() > 0 {
        lemma_split_nonempty(s.drop_last());
    }
}

}
