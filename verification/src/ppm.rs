//! A raster of displayable colours as a plain-text image.
//!
//! The text is the line `P3`, a line with the width and the height, the line
//! `255`, and then one line for each pixel with its three channels in
//! decimal: the top row first, each row from left to right.

use crate::buffer::Buffer;
use crate::pixel::{lemma_inside, scan_at, scan_order};
use vstd::prelude::*;

verus! {

/// A colour as it is displayed: one byte for each channel.
#[derive(Clone, Copy, Debug, PartialEq, Eq, Structural)]
pub struct Rgb {
    pub r: u8,
    pub g: u8,
    pub b: u8,
}

/// The decimal digits of `n` in ASCII, without leading zeros.
pub open spec fn digits(n: nat) -> Seq<u8>
    decreases n,
{
    if n < 10 {
        seq![(48 + n) as u8]
    } else {
        digits(n / 10).push((48 + n % 10) as u8)
    }
}

/// The three lines that open the image.
pub open spec fn header(width: nat, height: nat) -> Seq<u8> {
    seq![80u8, 51u8, 10u8] + digits(width) + seq![32u8] + digits(height) + seq![
        10u8,
        50u8,
        53u8,
        53u8,
        10u8,
    ]
}

/// The line of one pixel.
pub open spec fn line(color: Rgb) -> Seq<u8> {
    digits(color.r as nat) + seq![32u8] + digits(color.g as nat) + seq![32u8] + digits(
        color.b as nat,
    ) + seq![10u8]
}

/// The lines of the first `count` pixels in the order of the image.
pub open spec fn body(image: Buffer<Rgb>, count: nat) -> Seq<u8>
    decreases count,
{
    if count == 0 {
        Seq::empty()
    } else {
        body(image, (count - 1) as nat) + line(
            image.cell(scan_at(image.spec_width(), image.spec_height(), count - 1)),
        )
    }
}

/// The whole image as text.
pub open spec fn image_text(image: Buffer<Rgb>) -> Seq<u8> {
    header(image.spec_width(), image.spec_height()) + body(
        image,
        image.spec_width() * image.spec_height(),
    )
}

/// Appends the decimal digits of `n`.
pub fn push_decimal(text: &mut Vec<u8>, n: usize)
    ensures
        final(text)@ == old(text)@ + digits(n as nat),
    decreases n,
{
    if n >= 10 {
        push_decimal(text, n / 10);
    }
    let digit: u8 = 48 + (n % 10) as u8;
    text.push(digit);
    assert(final(text)@ =~= old(text)@ + digits(n as nat));
}

/// Appends the three lines that open an image of the given size.
pub fn push_header(text: &mut Vec<u8>, width: usize, height: usize)
    ensures
        final(text)@ == old(text)@ + header(width as nat, height as nat),
{
    text.push(80);
    text.push(51);
    text.push(10);
    push_decimal(text, width);
    text.push(32);
    push_decimal(text, height);
    text.push(10);
    text.push(50);
    text.push(53);
    text.push(53);
    text.push(10);
    assert(final(text)@ =~= old(text)@ + header(width as nat, height as nat));
}

/// Appends the line of one pixel.
pub fn push_line(text: &mut Vec<u8>, color: Rgb)
    ensures
        final(text)@ == old(text)@ + line(color),
{
    push_decimal(text, color.r as usize);
    text.push(32);
    push_decimal(text, color.g as usize);
    text.push(32);
    push_decimal(text, color.b as usize);
    text.push(10);
    assert(final(text)@ =~= old(text)@ + line(color));
}

/// The image as text: the header, then the pixels from the top row down,
/// each row from left to right.
pub fn encode(image: &Buffer<Rgb>) -> (text: Vec<u8>)
    requires
        image.well_formed(),
    ensures
        text@ == image_text(*image),
{
    let width = image.width();
    let height = image.height();
    let cells = image.len();
    let mut text: Vec<u8> = Vec::new();
    push_header(&mut text, width, height);
    let ghost head = text@;
    let order = scan_order(width, height);
    let mut k: usize = 0;
    while k < cells
        invariant
            image.well_formed(),
            width == image.spec_width(),
            height == image.spec_height(),
            cells == width * height,
            order@ == Seq::new(cells as nat, |k: int| scan_at(width as nat, height as nat, k)),
            k <= cells,
            text@ == head + body(*image, k as nat),
        decreases cells - k,
    {
        proof {
            lemma_inside(width as nat, height as nat, k as int);
        }
        let color = *image.get(&order[k]);
        push_line(&mut text, color);
        k += 1;
        assert(text@ =~= head + body(*image, k as nat));
    }
    text
}

} // verus!
