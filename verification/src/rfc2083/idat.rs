//! The image data of a described PNG, and the color models it names.
use vstd::prelude::*;

use super::{PNGData, PNGDataV};
use crate::bytes::ByteStream;
use crate::data::IDAT;

verus! {

broadcast use vstd::seq_lib::group_seq_properties;

/// Samples per pixel for each color type: gray 1, RGB 3, palette index 1,
/// gray with alpha 2, RGB with alpha 4.
pub open spec fn samples_per_pixel(ct: u8) -> nat {
    if ct == 0 {
        1
    } else if ct == 2 {
        3
    } else if ct == 3 {
        1
    } else if ct == 4 {
        2
    } else {
        4
    }
}

/// The color types that PNG defines.
pub open spec fn known_color_type(ct: u8) -> bool {
    ct == 0 || ct == 2 || ct == 3 || ct == 4 || ct == 6
}

impl PNGData {
    /// Samples per pixel for the header's color type.
    pub fn color_type_size(&self) -> (r: usize)
        requires
            known_color_type(self@.ihdr.color_type),
        ensures
            r == samples_per_pixel(self@.ihdr.color_type),
    {
        match self.ihdr.color_type() {
            0 => 1,
            2 => 3,
            3 => 1,
            4 => 2,
            6 => 4,
            _ => {
                proof {
                    assert(false);
                }
                0
            },
        }
    }

    /// Takes the image data out of the description and returns it as one
    /// stream: the data of every image data chunk, in order.
    pub fn concat(&mut self) -> (r: ByteStream)
        ensures
            r@ == old(self)@.idat.flatten(),
            final(self)@ == (PNGDataV { idat: Seq::empty(), ..old(self)@ }),
    {
        let mut data: Vec<IDAT> = Vec::new();
        std::mem::swap(&mut data, &mut self.idat);
        let ghost pieces = data@.map_values(|x: IDAT| x@);
        assert(pieces == old(self)@.idat);
        let mut out: Vec<u8> = Vec::new();
        let mut i: usize = 0;
        while i < data.len()
            invariant
                0 <= i <= data@.len(),
                pieces == data@.map_values(|x: IDAT| x@),
                out@ == pieces.take(i as int).flatten(),
            decreases data@.len() - i,
        {
            let piece = data[i].data();
            let ghost start = out@;
            let mut j: usize = 0;
            while j < piece.len()
                invariant
                    0 <= j <= piece@.len(),
                    out@ == start + piece@.take(j as int),
                decreases piece@.len() - j,
            {
                out.push(piece[j]);
                proof {
                    assert(piece@.take(j + 1) =~= piece@.take(j as int).push(piece@[j as int]));
                }
                j = j + 1;
            }
            proof {
                assert(piece@.take(j as int) =~= piece@);
                assert(piece@ == pieces[i as int]);
                assert(pieces.take(i + 1) =~= pieces.take(i as int).push(pieces[i as int]));
                pieces.take(i as int).lemma_flatten_push(pieces[i as int]);
            }
            i = i + 1;
        }
        proof {
            assert(pieces.take(i as int) =~= pieces);
            assert(self.idat@.map_values(|x: IDAT| x@) =~= Seq::<Seq<u8>>::empty());
        }
        ByteStream::new(out)
    }
}

/// A pixel's color, by color type.
#[derive(Debug, Clone, Copy)]
pub enum ColorType {
    Grayscale(u8),
    RGB(RGB),
    PLTEIndex(u8),
    GrayscaleAlpha { gray: u8, alpha: u8 },
    RGBAlpha { rgb: RGB, alpha: u8 },
}

/// Red, green and blue samples.
#[derive(Debug, Clone, Copy)]
pub struct RGB {
    r: u8,
    g: u8,
    b: u8,
}

} // verus!
