use vstd::prelude::*;

verus! {

/// An 8-bit RGB image stored row by row: pixel `(x, y)` is at index `y * width + x`.
pub struct RgbImage {
    width: u32,
    height: u32,
    pixels: Vec<[u8; 3]>,
}

impl RgbImage {
    #[verifier::type_invariant]
    spec fn shape_ok(self) -> bool {
        self.pixels.len() == self.width as int * self.height as int
    }

    /// Number of columns.
    pub closed spec fn w(self) -> nat {
        self.width as nat
    }

    /// Number of rows.
    pub closed spec fn h(self) -> nat {
        self.height as nat
    }

    /// The pixels in row-major order.
    pub closed spec fn pix(self) -> Seq<[u8; 3]> {
        self.pixels@
    }

    /// Builds an image from row-major pixels; `None` unless there are exactly
    /// `width * height` of them.
    pub fn from_raw(width: u32, height: u32, pixels: Vec<[u8; 3]>) -> (res: Option<RgbImage>)
        ensures
            (res is Some) <==> pixels.len() == width as int * height as int,
            res matches Some(img) ==> img.w() == width && img.h() == height && img.pix()
                == pixels@,
    {
        assert(width as u64 * height as u64 <= u64::MAX) by (nonlinear_arith)
            requires
                width <= u32::MAX,
                height <= u32::MAX,
        ;
        let n: u64 = width as u64 * height as u64;
        if pixels.len() as u64 == n {
            Some(RgbImage { width, height, pixels })
        } else {
            None
        }
    }

    pub fn width(&self) -> (r: u32)
        ensures
            r == self.w(),
            self.pix().len() == self.w() * self.h(),
    {
        proof {
            use_type_invariant(self);
        }
        self.width
    }

    pub fn height(&self) -> (r: u32)
        ensures
            r == self.h(),
            self.pix().len() == self.w() * self.h(),
    {
        proof {
            use_type_invariant(self);
        }
        self.height
    }

    /// The pixels in row-major order.
    pub fn pixels(&self) -> (r: &Vec<[u8; 3]>)
        ensures
            r@ == self.pix(),
            r.len() == self.w() * self.h(),
    {
        proof {
            use_type_invariant(self);
        }
        &self.pixels
    }
}

/// An RGBA picture ready for display: `pixels` holds straight (not premultiplied)
/// RGBA values, row by row.
pub struct Texture {
    pub width: usize,
    pub height: usize,
    pub pixels: Vec<[u8; 4]>,
}

} // verus!
