//! RGBA8 pixel buffers, and slicing a tile sheet into tiles.
use vstd::prelude::*;
use vstd::arithmetic::div_mod::lemma_fundamental_div_mod_converse;

verus! {

/// An RGBA8 pixel buffer, rows from top to bottom, four bytes per pixel.
#[derive(Clone, Debug)]
pub struct Bitmap {
    pub width: u32,
    pub height: u32,
    pub pixels: Vec<u8>,
}

impl Bitmap {
    pub open spec fn wf(&self) -> bool {
        self.pixels@.len() == 4 * self.width * self.height
    }
}

/// The bytes of the `w` x `h` rectangle at `(x, y)` of an image `img_w`
/// pixels wide, row after row.
pub open spec fn sub_image_spec(px: Seq<u8>, img_w: int, x: int, y: int, w: int, h: int) -> Seq<u8> {
    Seq::new(
        (4 * w * h) as nat,
        |k: int| px[4 * ((y + k / (4 * w)) * img_w + x) + k % (4 * w)],
    )
}

/// Byte `k` once pixels whose colour is `key` have been made transparent:
/// the alpha byte of such a pixel becomes 0, every other byte is kept.
pub open spec fn keyed_byte(px: Seq<u8>, key: (u8, u8, u8), k: int) -> u8 {
    let p = k - k % 4;
    if k % 4 == 3 && px[p] == key.0 && px[p + 1] == key.1 && px[p + 2] == key.2 {
        0
    } else {
        px[k]
    }
}

pub proof fn lemma_row_in_bounds(img_w: int, img_h: int, x: int, y: int, w: int, h: int, j: int, b: int)
    requires
        0 <= x,
        0 <= y,
        x + w <= img_w,
        y + h <= img_h,
        0 <= j < h,
        0 <= b < 4 * w,
    ensures
        0 <= 4 * ((y + j) * img_w + x) + b < 4 * img_w * img_h,
        4 * ((y + j) * img_w + x) + 4 * w <= 4 * img_w * img_h,
        0 <= (y + j) * img_w,
        (y + j) * img_w + x + w <= img_w * img_h,
{
    assert((y + j) * img_w + x + w <= (y + j + 1) * img_w) by (nonlinear_arith)
        requires
            x + w <= img_w,
    ;
    assert((y + j + 1) * img_w <= img_h * img_w) by (nonlinear_arith)
        requires
            y + j + 1 <= img_h,
            0 <= img_w,
    ;
    assert(0 <= (y + j) * img_w) by (nonlinear_arith)
        requires
            0 <= y + j,
            0 <= img_w,
    ;
    assert(4 * img_w * img_h == 4 * (img_h * img_w)) by (nonlinear_arith);
}

impl Bitmap {
    /// The bytes of the `w` x `h` rectangle at `(x, y)`, row after row.
    pub fn sub_image_bytes(&self, x: u32, y: u32, w: u32, h: u32) -> (r: Vec<u8>)
        requires
            self.wf(),
            x + w <= self.width,
            y + h <= self.height,
        ensures
            r@ == sub_image_spec(self.pixels@, self.width as int, x as int, y as int, w as int, h as int),
    {
        let mut out: Vec<u8> = Vec::new();
        if h == 0 || w == 0 {
            assert(4 * w * h == 0) by (nonlinear_arith)
                requires
                    h == 0 || w == 0,
            ;
            assert(out@ =~= sub_image_spec(self.pixels@, self.width as int, x as int, y as int, w as int, h as int));
            return out;
        }
        let ghost spec_px = sub_image_spec(self.pixels@, self.width as int, x as int, y as int, w as int, h as int);
        proof {
            lemma_row_in_bounds(self.width as int, self.height as int, x as int, y as int, w as int, h as int, 0, 0);
        }
        let len = self.pixels.len();
        let rb: usize = 4 * w as usize;
        let img_w = self.width as usize;
        let mut j: u32 = 0;
        while j < h
            invariant
                self.wf(),
                x + w <= self.width,
                y + h <= self.height,
                0 < w,
                rb == 4 * w,
                img_w == self.width,
                len == self.pixels@.len(),
                0 <= j <= h,
                out@.len() == j * rb,
                spec_px == sub_image_spec(self.pixels@, self.width as int, x as int, y as int, w as int, h as int),
                forall|k: int| 0 <= k < out@.len() ==> #[trigger] out@[k] == spec_px[k],
            decreases h - j,
        {
            proof {
                lemma_row_in_bounds(self.width as int, self.height as int, x as int, y as int, w as int, h as int, j as int, 0);
            }
            let base: usize = 4 * ((y + j) as usize * img_w + x as usize);
            let mut b: usize = 0;
            while b < rb
                invariant
                    self.wf(),
                    x + w <= self.width,
                    y + h <= self.height,
                    0 < w,
                    rb == 4 * w,
                    img_w == self.width,
                    len == self.pixels@.len(),
                    0 <= j < h,
                    base == 4 * ((y + j) * self.width + x),
                    base + rb <= self.pixels@.len(),
                    0 <= b <= rb,
                    out@.len() == j * rb + b,
                    spec_px == sub_image_spec(self.pixels@, self.width as int, x as int, y as int, w as int, h as int),
                    forall|k: int| 0 <= k < out@.len() ==> #[trigger] out@[k] == spec_px[k],
                decreases rb - b,
            {
                proof {
                    let k = j * rb + b;
                    lemma_fundamental_div_mod_converse(k, rb as int, j as int, b as int);
                    assert(k < 4 * w * h) by (nonlinear_arith)
                        requires
                            k == j * rb + b,
                            b < rb,
                            j < h,
                            rb == 4 * w,
                    ;
                }
                out.push(self.pixels[base + b]);
                b = b + 1;
            }
            proof {
                assert((j + 1) * rb == j * rb + rb) by (nonlinear_arith);
            }
            j = j + 1;
        }
        proof {
            assert(h * rb == 4 * w * h) by (nonlinear_arith)
                requires
                    rb == 4 * w,
            ;
        }
        assert(out@ =~= spec_px);
        out
    }

    /// Makes transparent every pixel whose colour is `key`: its alpha byte
    /// becomes 0, its colour bytes stay.
    pub fn apply_transparency(&mut self, key: (u8, u8, u8))
        requires
            old(self).wf(),
        ensures
            final(self).wf(),
            final(self).width == old(self).width,
            final(self).height == old(self).height,
            final(self).pixels@ == Seq::new(
                old(self).pixels@.len(),
                |k: int| keyed_byte(old(self).pixels@, key, k),
            ),
    {
        let ghost before = self.pixels@;
        let n = self.pixels.len();
        proof {
            assert(4 * self.width * self.height == 4 * (self.width * self.height)) by (nonlinear_arith);
        }
        let mut p: usize = 0;
        while p < n
            invariant
                n == self.pixels@.len(),
                n == before.len(),
                n % 4 == 0,
                self.wf(),
                self.width == old(self).width,
                self.height == old(self).height,
                before == old(self).pixels@,
                p % 4 == 0,
                p <= n,
                forall|k: int| 0 <= k < p ==> #[trigger] self.pixels@[k] == keyed_byte(before, key, k),
                forall|k: int| p <= k < n ==> #[trigger] self.pixels@[k] == before[k],
            decreases n - p,
        {
            if self.pixels[p] == key.0 && self.pixels[p + 1] == key.1 && self.pixels[p + 2] == key.2 {
                self.pixels.set(p + 3, 0);
            }
            p = p + 4;
        }
        assert(self.pixels@ =~= Seq::new(before.len(), |k: int| keyed_byte(before, key, k)));
    }
}

} // verus!
