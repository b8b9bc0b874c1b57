//! Images as they arrive: four bytes a pixel.

use crate::imgproc::luma;
use crate::imgproc::luma_of;
use crate::text::digits;
use crate::text::with_number;
use crate::text::with_text;
use vstd::prelude::*;

verus! {

/// Interleaved red, green, blue and alpha bytes.
#[derive(Debug, Clone)]
pub struct RgbaImage {
    pub width: u32,
    pub height: u32,
    pub data: Vec<u8>,
}

/// What to say of a buffer of the wrong length.
pub open spec fn mismatch_text(len: nat, width: nat, height: nat) -> Seq<char> {
    "RGBA buffer length "@ + digits(len) + " does not match "@ + digits(width) + "x"@ + digits(
        height,
    ) + "x4 = "@ + digits(width * height * 4)
}

impl RgbaImage {
    /// The buffer holds four bytes a pixel.
    pub open spec fn wf(&self) -> bool {
        self.data@.len() == self.width * self.height * 4
    }

    /// Takes a buffer, if it has the right length.
    pub fn new(width: u32, height: u32, data: Vec<u8>) -> (r: Result<Self, String>)
        requires
            width * height * 4 <= usize::MAX,
        ensures
            match r {
                Ok(img) => {
                    &&& img.wf()
                    &&& img.width == width
                    &&& img.height == height
                    &&& img.data@ == data@
                },
                Err(text) => {
                    &&& data@.len() != width * height * 4
                    &&& text@ == mismatch_text(data@.len(), width as nat, height as nat)
                },
            },
    {
        proof {
            assert(0 <= width * height) by (nonlinear_arith);
        }
        let expected: usize = width as usize * height as usize * 4;
        if data.len() != expected {
            let text = "RGBA buffer length ".to_string();
            let text = with_number(text, data.len() as u64);
            let text = with_text(text, " does not match ");
            let text = with_number(text, width as u64);
            let text = with_text(text, "x");
            let text = with_number(text, height as u64);
            let text = with_text(text, "x4 = ");
            let text = with_number(text, expected as u64);
            return Err(text);
        }
        Ok(RgbaImage { width, height, data })
    }

    /// Luma of every pixel in 14-bit fixed point, alpha left aside.
    pub fn to_gray(&self) -> (gray: Vec<u8>)
        ensures
            gray@.len() == self.data@.len() / 4,
            forall|q: int|
                0 <= q < gray@.len() ==> #[trigger] gray@[q] == luma(
                    self.data@[4 * q],
                    self.data@[4 * q + 1],
                    self.data@[4 * q + 2],
                ),
    {
        let mut gray: Vec<u8> = Vec::new();
        let n: usize = self.data.len() / 4;
        let mut q: usize = 0;
        while q < n
            invariant
                n == self.data@.len() / 4,
                n == self.data.len() / 4,
                q <= n,
                gray@.len() == q,
                forall|k: int|
                    0 <= k < q ==> #[trigger] gray@[k] == luma(
                        self.data@[4 * k],
                        self.data@[4 * k + 1],
                        self.data@[4 * k + 2],
                    ),
            decreases n - q,
        {
            gray.push(luma_of(self.data[4 * q], self.data[4 * q + 1], self.data[4 * q + 2]));
            q = q + 1;
        }
        gray
    }
}

} // verus!
