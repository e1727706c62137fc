//! Favicons tinted with the colour of a review's book.
use vstd::prelude::*;
use crate::colours::Rgb8;

verus! {

/// The RGBA bytes of an image with every pixel turned `c`, keeping each
/// pixel's transparency.
pub open spec fn tinted(pixels: Seq<u8>, c: Rgb8) -> Seq<u8> {
    Seq::new(
        pixels.len(),
        |i: int|
            if i % 4 == 0 {
                c.red
            } else if i % 4 == 1 {
                c.green
            } else if i % 4 == 2 {
                c.blue
            } else {
                pixels[i]
            },
    )
}

/// Tints an image, given as its RGBA bytes (four per pixel), with a colour;
/// the favicon images are black shapes on a transparent background, so this
/// gives the same shape in the colour.
pub fn tint_pixels(pixels: &mut Vec<u8>, c: Rgb8)
    requires
        old(pixels).len() % 4 == 0,
    ensures
        final(pixels)@ == tinted(old(pixels)@, c),
{
    let mut i: usize = 0;
    let n = pixels.len();
    while i < n
        invariant
            n == pixels.len(),
            n == old(pixels).len(),
            n % 4 == 0,
            i % 4 == 0,
            i <= n,
            forall|k: int| 0 <= k < i ==> pixels@[k] == #[trigger] tinted(old(pixels)@, c)[k],
            forall|k: int| i <= k < n ==> pixels@[k] == old(pixels)@[k],
        decreases n - i,
    {
        pixels.set(i, c.red);
        pixels.set(i + 1, c.green);
        pixels.set(i + 2, c.blue);
        i = i + 4;
    }
    assert(pixels@ =~= tinted(old(pixels)@, c));
}

/// Tinting keeps every pixel's transparency, and tinting twice with the same
/// colour is the same as tinting once.
pub proof fn law_tint_keeps_transparency(pixels: Seq<u8>, c: Rgb8)
    ensures
        tinted(pixels, c).len() == pixels.len(),
        forall|i: int| 0 <= i < pixels.len() && i % 4 == 3 ==> #[trigger] tinted(pixels, c)[i]
            == pixels[i],
        tinted(tinted(pixels, c), c) == tinted(pixels, c),
{
    assert(tinted(tinted(pixels, c), c) =~= tinted(pixels, c));
}

} // verus!
