//! The output raster: pixel placement and the plain-text "P3" PPM encoding.
use vstd::prelude::*;

verus! {

/// One quantized output pixel, each channel in `0..=255`.
#[derive(Clone, Copy, Debug, PartialEq, Eq, Structural)]
pub struct Rgb {
    pub r: u8,
    pub g: u8,
    pub b: u8,
}

/// The ASCII character of a decimal digit.
pub open spec fn digit_char(d: nat) -> char {
    (d + 48) as char
}

/// The decimal numeral of `n`, most significant digit first, no leading zeros.
pub open spec fn decimal(n: nat) -> Seq<char>
    decreases n,
{
    if n < 10 {
        seq![digit_char(n)]
    } else {
        decimal(n / 10).push(digit_char(n % 10))
    }
}

/// The header: magic number, dimensions and maximum channel value, one per line.
pub open spec fn ppm_header(width: nat, height: nat) -> Seq<char> {
    seq!['P', '3', '\n'] + decimal(width) + seq![' '] + decimal(height) + seq!['\n', '2', '5', '5', '\n']
}

/// One data line: the three channels separated by spaces.
pub open spec fn pixel_line(p: Rgb) -> Seq<char> {
    decimal(p.r as nat) + seq![' '] + decimal(p.g as nat) + seq![' '] + decimal(p.b as nat) + seq!['\n']
}

/// The data lines of `pixels`, in order.
pub open spec fn ppm_body(pixels: Seq<Rgb>) -> Seq<char>
    decreases pixels.len(),
{
    if pixels.len() == 0 {
        Seq::empty()
    } else {
        ppm_body(pixels.drop_last()) + pixel_line(pixels.last())
    }
}

/// The whole image text.
pub open spec fn ppm_text(width: nat, height: nat, pixels: Seq<Rgb>) -> Seq<char> {
    ppm_header(width, height) + ppm_body(pixels)
}

/// Number of line breaks in `s`.
pub open spec fn line_count(s: Seq<char>) -> nat
    decreases s.len(),
{
    if s.len() == 0 {
        0
    } else {
        line_count(s.drop_last()) + if s.last() == '\n' {
            1nat
        } else {
            0nat
        }
    }
}

proof fn lemma_line_count_concat(a: Seq<char>, b: Seq<char>)
    ensures
        line_count(a + b) == line_count(a) + line_count(b),
    decreases b.len(),
{
    if b.len() == 0 {
        assert(a + b =~= a);
    } else {
        assert((a + b).drop_last() =~= a + b.drop_last());
        lemma_line_count_concat(a, b.drop_last());
    }
}

proof fn lemma_decimal_single_line(n: nat)
    ensures
        line_count(decimal(n)) == 0,
    decreases n,
{
    assert(digit_char(n % 10) as int == n % 10 + 48);
    if n < 10 {
        assert(decimal(n).drop_last() =~= Seq::<char>::empty());
        reveal_with_fuel(line_count, 2);
    } else {
        lemma_decimal_single_line(n / 10);
        assert(decimal(n).drop_last() =~= decimal(n / 10));
    }
}

proof fn lemma_pixel_line_count(p: Rgb)
    ensures
        line_count(pixel_line(p)) == 1,
{
    let sp = seq![' '];
    let nl = seq!['\n'];
    lemma_decimal_single_line(p.r as nat);
    lemma_decimal_single_line(p.g as nat);
    lemma_decimal_single_line(p.b as nat);
    assert(line_count(sp) == 0) by {
        assert(sp.drop_last() =~= Seq::<char>::empty());
        reveal_with_fuel(line_count, 2);
    }
    assert(line_count(nl) == 1) by {
        assert(nl.drop_last() =~= Seq::<char>::empty());
        reveal_with_fuel(line_count, 2);
    }
    let a = decimal(p.r as nat) + sp;
    let b = a + decimal(p.g as nat);
    let c = b + sp;
    let d = c + decimal(p.b as nat);
    lemma_line_count_concat(decimal(p.r as nat), sp);
    lemma_line_count_concat(a, decimal(p.g as nat));
    lemma_line_count_concat(b, sp);
    lemma_line_count_concat(c, decimal(p.b as nat));
    lemma_line_count_concat(d, nl);
}

proof fn lemma_body_line_count(pixels: Seq<Rgb>)
    ensures
        line_count(ppm_body(pixels)) == pixels.len(),
    decreases pixels.len(),
{
    if pixels.len() > 0 {
        lemma_body_line_count(pixels.drop_last());
        lemma_pixel_line_count(pixels.last());
        lemma_line_count_concat(ppm_body(pixels.drop_last()), pixel_line(pixels.last()));
    }
}

/// The image text starts with the header `P3`, `width height`, `255`, one per
/// line, and what follows the header is exactly one line per pixel.
pub proof fn lemma_ppm_layout(width: nat, height: nat, pixels: Seq<Rgb>)
    requires
        pixels.len() == width * height,
    ensures
        ppm_text(width, height, pixels).subrange(0, ppm_header(width, height).len() as int)
            == ppm_header(width, height),
        ppm_header(width, height) == seq!['P', '3', '\n'] + decimal(width) + seq![' ']
            + decimal(height) + seq!['\n', '2', '5', '5', '\n'],
        line_count(ppm_header(width, height)) == 3,
        line_count(ppm_text(width, height, pixels).skip(ppm_header(width, height).len() as int))
            == width * height,
{
    let h = ppm_header(width, height);
    let t = ppm_text(width, height, pixels);
    assert(t.subrange(0, h.len() as int) =~= h);
    assert(t.skip(h.len() as int) =~= ppm_body(pixels));
    lemma_body_line_count(pixels);
    let m = seq!['P', '3', '\n'];
    let sp = seq![' '];
    let tail = seq!['\n', '2', '5', '5', '\n'];
    assert(line_count(m) == 1) by {
        assert(m.drop_last().drop_last().drop_last() =~= Seq::<char>::empty());
        assert(m.drop_last().drop_last() =~= seq!['P']);
        assert(m.drop_last() =~= seq!['P', '3']);
        reveal_with_fuel(line_count, 4);
    }
    assert(line_count(sp) == 0) by {
        assert(sp.drop_last() =~= Seq::<char>::empty());
        reveal_with_fuel(line_count, 2);
    }
    assert(line_count(tail) == 2) by {
        assert(tail.drop_last() =~= seq!['\n', '2', '5', '5']);
        assert(tail.drop_last().drop_last() =~= seq!['\n', '2', '5']);
        assert(tail.drop_last().drop_last().drop_last() =~= seq!['\n', '2']);
        assert(tail.drop_last().drop_last().drop_last().drop_last() =~= seq!['\n']);
        assert(seq!['\n'].drop_last() =~= Seq::<char>::empty());
        reveal_with_fuel(line_count, 6);
    }
    lemma_decimal_single_line(width);
    lemma_decimal_single_line(height);
    let a = m + decimal(width);
    let b = a + sp;
    let c = b + decimal(height);
    lemma_line_count_concat(m, decimal(width));
    lemma_line_count_concat(a, sp);
    lemma_line_count_concat(b, decimal(height));
    lemma_line_count_concat(c, tail);
}

/// Relies on String::push: the character is appended at the end.
#[verifier::external_body]
fn push_char(s: &mut String, c: char)
    ensures
        final(s)@ == old(s)@.push(c),
{
    s.push(c);
}

fn push_digit(s: &mut String, d: u64)
    requires
        d < 10,
    ensures
        final(s)@ == old(s)@.push(digit_char(d as nat)),
{
    let c = (d as u8 + 48u8) as char;
    push_char(s, c);
}

fn push_decimal(s: &mut String, n: u64)
    ensures
        final(s)@ == old(s)@ + decimal(n as nat),
    decreases n,
{
    if n < 10 {
        push_digit(s, n);
        assert(old(s)@.push(digit_char(n as nat)) =~= old(s)@ + decimal(n as nat));
    } else {
        push_decimal(s, n / 10);
        push_digit(s, n % 10);
        assert(s@ =~= old(s)@ + decimal(n as nat));
    }
}

fn push_pixel(s: &mut String, p: Rgb)
    ensures
        final(s)@ == old(s)@ + pixel_line(p),
{
    push_decimal(s, p.r as u64);
    push_char(s, ' ');
    push_decimal(s, p.g as u64);
    push_char(s, ' ');
    push_decimal(s, p.b as u64);
    push_char(s, '\n');
    assert(s@ =~= old(s)@ + pixel_line(p));
}

/// Where the pixel computed by task `screen_pos` lands: column `i` counted from
/// the left, scanline `j` counted from the bottom. Tasks are numbered in output
/// order, row by row from the top-left corner.
pub fn pixel_position(screen_pos: u32, width: u32, height: u32) -> (ij: (u32, u32))
    requires
        width > 0,
        screen_pos < width * height,
    ensures
        ij.0 == screen_pos % width,
        ij.1 == height - 1 - screen_pos / width,
        ij.0 < width,
        ij.1 < height,
        screen_pos == (height - 1 - ij.1) * width + ij.0,
{
    let row = screen_pos / width;
    assert(row < height) by (nonlinear_arith)
        requires
            width > 0,
            screen_pos < width * height,
            row == screen_pos / width,
    ;
    assert(screen_pos == row * width + screen_pos % width) by (nonlinear_arith)
        requires
            width > 0,
            row == screen_pos / width,
    ;
    (screen_pos % width, height - 1 - row)
}

/// The image as text: the header for `width` by `height`, then one line per
/// pixel in the order given.
pub fn encode_ppm(width: u32, height: u32, pixels: &Vec<Rgb>) -> (text: String)
    requires
        pixels@.len() == width * height,
    ensures
        text@ == ppm_text(width as nat, height as nat, pixels@),
{
    let mut s = String::new();
    push_char(&mut s, 'P');
    push_char(&mut s, '3');
    push_char(&mut s, '\n');
    push_decimal(&mut s, width as u64);
    push_char(&mut s, ' ');
    push_decimal(&mut s, height as u64);
    push_char(&mut s, '\n');
    push_char(&mut s, '2');
    push_char(&mut s, '5');
    push_char(&mut s, '5');
    push_char(&mut s, '\n');
    assert(s@ =~= ppm_header(width as nat, height as nat));
    let mut k: usize = 0;
    while k < pixels.len()
        invariant
            k <= pixels@.len(),
            s@ == ppm_header(width as nat, height as nat) + ppm_body(pixels@.subrange(0, k as int)),
        decreases pixels@.len() - k,
    {
        push_pixel(&mut s, pixels[k]);
        assert(pixels@.subrange(0, k + 1).drop_last() =~= pixels@.subrange(0, k as int));
        assert(s@ =~= ppm_header(width as nat, height as nat) + ppm_body(pixels@.subrange(0, k + 1)));
        k += 1;
    }
    assert(pixels@.subrange(0, pixels@.len() as int) =~= pixels@);
    s
}

} // verus!
