use vstd::prelude::*;

verus! {

/// `i` limited to `0..n`: coordinates past the last texel map onto it.
pub open spec fn clamp_index(i: u32, n: u32) -> u32 {
    if i >= n {
        (n - 1) as u32
    } else {
        i
    }
}

/// A decoded RGB image with eight bits per channel, stored row by row from the
/// top, three bytes per texel.
pub struct Bitmap {
    pub width: u32,
    pub height: u32,
    pub data: Vec<u8>,
}

impl Bitmap {
    pub open spec fn wf(&self) -> bool {
        &&& self.width > 0
        &&& self.height > 0
        &&& self.data@.len() == 3 * self.width * self.height
    }

    /// Position in `data` of the first channel of texel `(i, j)`, counted from
    /// the left and from the top.
    pub open spec fn offset(&self, i: u32, j: u32) -> int {
        3 * (j * self.width + i)
    }

    /// A bitmap over `data`, or `None` when the image is empty or `data` does
    /// not hold exactly three bytes for each of its texels.
    pub fn new(width: u32, height: u32, data: Vec<u8>) -> (r: Option<Bitmap>)
        ensures
            match r {
                Some(b) => b.wf() && b.width == width && b.height == height && b.data@ == data@,
                None => !(width > 0 && height > 0 && data@.len() == 3 * width * height),
            },
    {
        if width == 0 || height == 0 {
            return None;
        }
        proof {
            let w = width as int;
            let h = height as int;
            assert(w * h <= 0xffff_ffff * 0xffff_ffff) by (nonlinear_arith)
                requires
                    0 < w <= 0xffff_ffff,
                    0 < h <= 0xffff_ffff,
            ;
        }
        let wh: u128 = (width as u128) * (height as u128);
        let total: u128 = 3 * wh;
        proof {
            let w = width as int;
            let h = height as int;
            assert(3 * (w * h) == 3 * w * h) by (nonlinear_arith);
        }
        if data.len() as u128 != total {
            return None;
        }
        Some(Bitmap { width, height, data })
    }

    /// Red, green and blue of texel `(i, j)`, each coordinate first limited to
    /// the image.
    pub fn texel(&self, i: u32, j: u32) -> (r: (u8, u8, u8))
        requires
            self.wf(),
        ensures
            ({
                let o = self.offset(clamp_index(i, self.width), clamp_index(j, self.height));
                r == (self.data@[o], self.data@[o + 1], self.data@[o + 2])
            }),
    {
        let ci = if i >= self.width {
            self.width - 1
        } else {
            i
        };
        let cj = if j >= self.height {
            self.height - 1
        } else {
            j
        };
        proof {
            let w = self.width as int;
            let h = self.height as int;
            assert(cj * w + ci < w * h && 3 * (cj * w + ci) + 2 < 3 * w * h) by (nonlinear_arith)
                requires
                    0 <= ci < w,
                    0 <= cj < h,
            ;
            assert(cj * w <= cj * w + ci);
            assert(3 * w * h == self.data@.len());
        }
        let n = self.data.len();
        assert(n == 3 * self.width * self.height);
        let o = 3 * (cj as usize * self.width as usize + ci as usize);
        (self.data[o], self.data[o + 1], self.data[o + 2])
    }
}

} // verus!
