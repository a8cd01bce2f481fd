use vstd::prelude::*;

use crate::grid::{DepthAndColorMap, DepthAndColorPx};

verus! {

/// An RGBA raster, row-major, `width` pixels per row.
#[derive(Clone, Debug)]
pub struct RgbaLayer {
    pub width: u32,
    pub height: u32,
    pub pixels: Vec<[u8; 4]>,
}

/// The position in a row-major raster `width` wide of the pixel under `s`.
pub open spec fn sample_index(width: u32, s: DepthAndColorPx) -> int {
    s.y as int * width as int + s.x as int
}

/// A working-layer pixel after its colour is restored from the sample under
/// it: where nothing was drawn (alpha 0) it takes the sample's colour, still
/// fully transparent, so that a blur spreads no foreign colour into the
/// band's edges; a drawn pixel is kept.
pub open spec fn restored(p: [u8; 4], s: DepthAndColorPx) -> Seq<u8> {
    if p@[3] == 0 {
        seq![s.rgba@[0], s.rgba@[1], s.rgba@[2], 0u8]
    } else {
        p@
    }
}

/// Distinct samples of a well-formed grid lie at distinct raster positions,
/// each inside the raster.
proof fn lemma_sample_index(map: DepthAndColorMap, j1: int, j2: int)
    requires
        map.wf(),
        0 <= j1 < map.values@.len(),
        0 <= j2 < map.values@.len(),
    ensures
        0 <= sample_index(map.width, map.values@[j1]) < map.width as int * map.height as int,
        j1 != j2 ==> sample_index(map.width, map.values@[j1]) != sample_index(
            map.width,
            map.values@[j2],
        ),
{
    let w = map.width as int;
    let h = map.height as int;
    let s1 = map.values@[j1];
    let s2 = map.values@[j2];
    assert(s1.x < map.width && s1.y < map.height);
    assert(s2.x < map.width && s2.y < map.height);
    let x1 = s1.x as int;
    let y1 = s1.y as int;
    assert(0 <= y1 * w + x1 < w * h) by (nonlinear_arith)
        requires
            0 <= x1 < w,
            0 <= y1 < h,
    ;
    if j1 != j2 && sample_index(map.width, s1) == sample_index(map.width, s2) {
        let q = sample_index(map.width, s1);
        vstd::arithmetic::div_mod::lemma_fundamental_div_mod_converse(q, w, y1, x1);
        vstd::arithmetic::div_mod::lemma_fundamental_div_mod_converse(
            q,
            w,
            s2.y as int,
            s2.x as int,
        );
    }
}

impl RgbaLayer {
    /// The raster holds one pixel per coordinate.
    pub open spec fn wf(&self) -> bool {
        self.pixels@.len() == self.width as int * self.height as int
    }

    /// A raster of the given size with every pixel set to `px`.
    pub fn filled(width: u32, height: u32, px: [u8; 4]) -> (r: RgbaLayer)
        requires
            width as int * height as int <= usize::MAX,
        ensures
            r.wf(),
            r.width == width,
            r.height == height,
            forall|q: int| 0 <= q < r.pixels@.len() ==> #[trigger] r.pixels@[q] == px,
    {
        let n = (width as usize) * (height as usize);
        let mut pixels: Vec<[u8; 4]> = Vec::new();
        let mut q: usize = 0;
        while q < n
            invariant
                q <= n,
                pixels@.len() == q,
                forall|i: int| 0 <= i < q ==> #[trigger] pixels@[i] == px,
            decreases n - q,
        {
            pixels.push(px);
            q += 1;
        }
        RgbaLayer { width, height, pixels }
    }

    /// Gives each transparent pixel the colour of the scene sample under it,
    /// keeping it transparent; drawn pixels are left as they are.
    pub fn premultiply(&mut self, orig: &DepthAndColorMap)
        requires
            old(self).wf(),
            orig.wf(),
            old(self).width == orig.width,
            old(self).height == orig.height,
        ensures
            final(self).wf(),
            final(self).width == old(self).width,
            final(self).height == old(self).height,
            forall|j: int|
                0 <= j < orig.values@.len() ==> final(self).pixels@[sample_index(
                    orig.width,
                    #[trigger] orig.values@[j],
                )]@ == restored(
                    old(self).pixels@[sample_index(orig.width, orig.values@[j])],
                    orig.values@[j],
                ),
    {
        let ghost before = self.pixels@;
        let mut j: usize = 0;
        while j < orig.values.len()
            invariant
                self.wf(),
                orig.wf(),
                self.width == orig.width,
                self.height == orig.height,
                self.pixels@.len() == before.len(),
                j <= orig.values@.len(),
                forall|k: int|
                    0 <= k < j ==> self.pixels@[sample_index(orig.width, #[trigger] orig.values@[k])]@
                        == restored(
                        before[sample_index(orig.width, orig.values@[k])],
                        orig.values@[k],
                    ),
                forall|q: int|
                    0 <= q < before.len() && (forall|k: int|
                        0 <= k < j ==> sample_index(orig.width, #[trigger] orig.values@[k]) != q)
                        ==> #[trigger] self.pixels@[q] == before[q],
            decreases orig.values@.len() - j,
        {
            let s = orig.values[j];
            proof {
                lemma_sample_index(*orig, j as int, j as int);
            }
            let q = (s.y as usize) * (self.width as usize) + (s.x as usize);
            assert(q as int == sample_index(orig.width, s));
            let p = self.pixels[q];
            if p[3] == 0 {
                self.pixels.set(q, [s.rgba[0], s.rgba[1], s.rgba[2], 0]);
            }
            proof {
                assert forall|k: int| 0 <= k < j + 1 implies self.pixels@[sample_index(
                    orig.width,
                    #[trigger] orig.values@[k],
                )]@ == restored(before[sample_index(orig.width, orig.values@[k])], orig.values@[k]) by {
                    lemma_sample_index(*orig, k, j as int);
                }
                assert forall|i: int|
                    0 <= i < before.len() && (forall|k: int|
                        0 <= k < j + 1 ==> sample_index(orig.width, #[trigger] orig.values@[k]) != i)
                        implies #[trigger] self.pixels@[i] == before[i] by {
                    assert(sample_index(orig.width, orig.values@[j as int]) != i);
                }
            }
            j += 1;
        }
    }

    /// Writes each scene sample's opaque colour at its coordinate.
    pub fn predraw(&mut self, orig: &DepthAndColorMap)
        requires
            old(self).wf(),
            orig.wf(),
            old(self).width == orig.width,
            old(self).height == orig.height,
        ensures
            final(self).wf(),
            final(self).width == old(self).width,
            final(self).height == old(self).height,
            forall|j: int|
                0 <= j < orig.values@.len() ==> final(self).pixels@[sample_index(
                    orig.width,
                    #[trigger] orig.values@[j],
                )] == orig.values@[j].rgba,
    {
        let mut j: usize = 0;
        while j < orig.values.len()
            invariant
                self.wf(),
                orig.wf(),
                self.width == orig.width,
                self.height == orig.height,
                j <= orig.values@.len(),
                forall|k: int|
                    0 <= k < j ==> self.pixels@[sample_index(orig.width, #[trigger] orig.values@[k])]
                        == orig.values@[k].rgba,
            decreases orig.values@.len() - j,
        {
            let s = orig.values[j];
            proof {
                lemma_sample_index(*orig, j as int, j as int);
            }
            let q = (s.y as usize) * (self.width as usize) + (s.x as usize);
            assert(q as int == sample_index(orig.width, s));
            self.pixels.set(q, s.rgba);
            assert forall|k: int| 0 <= k < j + 1 implies self.pixels@[sample_index(orig.width, #[trigger] orig.values@[k])]
                        == orig.values@[k].rgba by {
                lemma_sample_index(*orig, k, j as int);
            }
            j += 1;
        }
    }
}

} // verus!
