use vstd::prelude::*;

verus! {

/// One scene sample: its pixel coordinate, its 8-bit depth and its colour
/// with the alpha byte forced opaque.
#[derive(Clone, Copy, Debug)]
pub struct DepthAndColorPx {
    pub x: u32,
    pub y: u32,
    pub d: u8,
    pub rgba: [u8; 4],
}

/// The scene: one sample per pixel, stored in ascending order of depth.
#[derive(Clone, Debug)]
pub struct DepthAndColorMap {
    pub width: u32,
    pub height: u32,
    pub values: Vec<DepthAndColorPx>,
}

/// The depth byte of a decoded pixel (its alpha channel).
pub open spec fn depth_of(p: [u8; 4]) -> u8 {
    p@[3]
}

/// The ascending indices `i < upto` of the pixels whose depth is `k`.
pub open spec fn indices_with_depth(pixels: Seq<[u8; 4]>, k: int, upto: int) -> Seq<int>
    decreases upto,
{
    if upto <= 0 {
        Seq::empty()
    } else {
        let s = indices_with_depth(pixels, k, upto - 1);
        if depth_of(pixels[upto - 1]) == k {
            s.push(upto - 1)
        } else {
            s
        }
    }
}

/// The indices of the pixels whose depth is below `k`: by depth first, then
/// in row-major order.
pub open spec fn depth_order_below(pixels: Seq<[u8; 4]>, k: int) -> Seq<int>
    decreases k,
{
    if k <= 0 {
        Seq::empty()
    } else {
        depth_order_below(pixels, k - 1) + indices_with_depth(pixels, k - 1, pixels.len() as int)
    }
}

/// The stable order of the pixel indices by ascending depth.
pub open spec fn depth_order(pixels: Seq<[u8; 4]>) -> Seq<int> {
    depth_order_below(pixels, 256)
}

/// `s` is the sample made from pixel `i` of a row-major image `width` wide.
pub open spec fn is_sample_of(s: DepthAndColorPx, width: u32, pixels: Seq<[u8; 4]>, i: int) -> bool {
    &&& s.x as int == i % (width as int)
    &&& s.y as int == i / (width as int)
    &&& s.d == depth_of(pixels[i])
    &&& s.rgba@ == seq![pixels[i]@[0], pixels[i]@[1], pixels[i]@[2], 255u8]
}

impl DepthAndColorMap {
    /// Some sample of the grid stands at `(x, y)`.
    pub open spec fn has_sample_at(&self, x: u32, y: u32) -> bool {
        exists|j: int|
            0 <= j < self.values@.len() && (#[trigger] self.values@[j]).x == x
                && self.values@[j].y == y
    }

    /// The grid's invariant: one sample per pixel coordinate, stored in
    /// ascending order of depth.
    pub open spec fn wf(&self) -> bool {
        &&& self.values@.len() == self.width as int * self.height as int
        &&& forall|j: int|
            0 <= j < self.values@.len() ==> (#[trigger] self.values@[j]).x < self.width
                && self.values@[j].y < self.height
        &&& forall|j1: int, j2: int|
            0 <= j1 < self.values@.len() && 0 <= j2 < self.values@.len() && j1 != j2 ==> (
            #[trigger] self.values@[j1]).x != (#[trigger] self.values@[j2]).x || self.values@[j1].y
                != self.values@[j2].y
        &&& forall|x: u32, y: u32|
            x < self.width && y < self.height ==> #[trigger] self.has_sample_at(x, y)
        &&& forall|j1: int, j2: int|
            0 <= j1 <= j2 < self.values@.len() ==> (#[trigger] self.values@[j1]).d <= (
            #[trigger] self.values@[j2]).d
    }
}

proof fn lemma_indices_with_depth(pixels: Seq<[u8; 4]>, k: int, upto: int)
    requires
        0 <= upto <= pixels.len(),
    ensures
        forall|m: int|
            0 <= m < indices_with_depth(pixels, k, upto).len() ==> 0 <= #[trigger] indices_with_depth(
                pixels,
                k,
                upto,
            )[m] < upto && depth_of(pixels[indices_with_depth(pixels, k, upto)[m]]) == k,
        forall|m1: int, m2: int|
            0 <= m1 < m2 < indices_with_depth(pixels, k, upto).len() ==> #[trigger] indices_with_depth(
                pixels,
                k,
                upto,
            )[m1] < #[trigger] indices_with_depth(pixels, k, upto)[m2],
        forall|i: int|
            0 <= i < upto && depth_of(pixels[i]) == k ==> #[trigger] indices_with_depth(
                pixels,
                k,
                upto,
            ).contains(i),
    decreases upto,
{
    if upto > 0 {
        lemma_indices_with_depth(pixels, k, upto - 1);
        let s = indices_with_depth(pixels, k, upto - 1);
        if depth_of(pixels[upto - 1]) == k {
            assert(s.push(upto - 1)[s.len() as int] == upto - 1);
            assert forall|i: int| 0 <= i < upto && depth_of(pixels[i]) == k implies #[trigger] s.push(
                upto - 1,
            ).contains(i) by {
                if i < upto - 1 {
                    assert(s.contains(i));
                    let m = choose|m: int| 0 <= m < s.len() && s[m] == i;
                    assert(s.push(upto - 1)[m] == i);
                }
            }
        }
    }
}

proof fn lemma_depth_order_below(pixels: Seq<[u8; 4]>, k: int)
    requires
        0 <= k,
    ensures
        forall|m: int|
            0 <= m < depth_order_below(pixels, k).len() ==> 0 <= #[trigger] depth_order_below(
                pixels,
                k,
            )[m] < pixels.len() && depth_of(pixels[depth_order_below(pixels, k)[m]]) < k,
        forall|m1: int, m2: int|
            0 <= m1 <= m2 < depth_order_below(pixels, k).len() ==> depth_of(
                pixels[#[trigger] depth_order_below(pixels, k)[m1]],
            ) <= depth_of(pixels[#[trigger] depth_order_below(pixels, k)[m2]]),
        depth_order_below(pixels, k).no_duplicates(),
        forall|i: int|
            0 <= i < pixels.len() && depth_of(pixels[i]) < k ==> #[trigger] depth_order_below(
                pixels,
                k,
            ).contains(i),
    decreases k,
{
    if k > 0 {
        lemma_depth_order_below(pixels, k - 1);
        lemma_indices_with_depth(pixels, k - 1, pixels.len() as int);
        let a = depth_order_below(pixels, k - 1);
        let b = indices_with_depth(pixels, k - 1, pixels.len() as int);
        let s = a + b;
        assert(s == depth_order_below(pixels, k));
        assert forall|m: int| 0 <= m < s.len() implies 0 <= #[trigger] s[m] < pixels.len()
            && depth_of(pixels[s[m]]) < k by {
            if m >= a.len() {
                assert(s[m] == b[m - a.len()]);
            }
        }
        assert forall|m1: int, m2: int| 0 <= m1 <= m2 < s.len() implies depth_of(
            pixels[#[trigger] s[m1]],
        ) <= depth_of(pixels[#[trigger] s[m2]]) by {
            if m1 >= a.len() {
                assert(s[m1] == b[m1 - a.len()]);
                assert(s[m2] == b[m2 - a.len()]);
            } else if m2 >= a.len() {
                assert(s[m2] == b[m2 - a.len()]);
            }
        }
        assert forall|m1: int, m2: int| 0 <= m1 < s.len() && 0 <= m2 < s.len() && m1 != m2 implies s[m1]
            != s[m2] by {
            if m1 >= a.len() && m2 >= a.len() {
                assert(s[m1] == b[m1 - a.len()]);
                assert(s[m2] == b[m2 - a.len()]);
                if m1 < m2 {
                    assert(b[m1 - a.len()] < b[m2 - a.len()]);
                } else {
                    assert(b[m2 - a.len()] < b[m1 - a.len()]);
                }
            } else if m1 >= a.len() {
                assert(s[m1] == b[m1 - a.len()]);
            } else if m2 >= a.len() {
                assert(s[m2] == b[m2 - a.len()]);
            }
        }
        assert forall|i: int| 0 <= i < pixels.len() && depth_of(pixels[i]) < k implies #[trigger] s.contains(
            i,
        ) by {
            if depth_of(pixels[i]) < k - 1 {
                assert(a.contains(i));
                let m = choose|m: int| 0 <= m < a.len() && a[m] == i;
                assert(s[m] == i);
            } else {
                assert(b.contains(i));
                let m = choose|m: int| 0 <= m < b.len() && b[m] == i;
                assert(s[a.len() + m] == i);
            }
        }
    }
}

/// The depth order of an image's pixels is a permutation of its indices,
/// non-decreasing in depth: every pixel index occurs exactly once.
pub proof fn lemma_depth_order_permutes(pixels: Seq<[u8; 4]>)
    ensures
        depth_order(pixels).len() == pixels.len(),
        depth_order(pixels).no_duplicates(),
        forall|m: int|
            0 <= m < depth_order(pixels).len() ==> 0 <= #[trigger] depth_order(pixels)[m]
                < pixels.len(),
        forall|i: int| 0 <= i < pixels.len() ==> #[trigger] depth_order(pixels).contains(i),
        forall|m1: int, m2: int|
            0 <= m1 <= m2 < depth_order(pixels).len() ==> depth_of(
                pixels[#[trigger] depth_order(pixels)[m1]],
            ) <= depth_of(pixels[#[trigger] depth_order(pixels)[m2]]),
{
    let s = depth_order(pixels);
    lemma_depth_order_below(pixels, 256);
    assert forall|i: int| 0 <= i < pixels.len() implies #[trigger] s.contains(i) by {
        assert(depth_of(pixels[i]) < 256);
    }
    s.unique_seq_to_set();
    vstd::set_lib::lemma_int_range(0, pixels.len() as int);
    assert(s.to_set() =~= vstd::set_lib::set_int_range(0, pixels.len() as int));
}

/// Samples taken from the pixels in depth order form a well-formed grid.
proof fn lemma_samples_form_grid(width: u32, height: u32, pixels: Seq<[u8; 4]>, r: DepthAndColorMap)
    requires
        pixels.len() == width as int * height as int,
        r.width == width,
        r.height == height,
        r.values@.len() == depth_order(pixels).len(),
        forall|j: int|
            0 <= j < r.values@.len() ==> is_sample_of(
                #[trigger] r.values@[j],
                width,
                pixels,
                depth_order(pixels)[j],
            ),
    ensures
        r.wf(),
{
    let order = depth_order(pixels);
    let w = width as int;
    let h = height as int;
    lemma_depth_order_permutes(pixels);
    assert forall|j: int| 0 <= j < r.values@.len() implies (#[trigger] r.values@[j]).x < width
        && r.values@[j].y < height by {
        assert(is_sample_of(r.values@[j], width, pixels, order[j]));
        let i = order[j];
        assert(0 <= i < w * h);
        assert(w > 0) by (nonlinear_arith)
            requires
                0 <= i < w * h,
                w >= 0,
        ;
        vstd::arithmetic::div_mod::lemma_mod_pos_bound(i, w);
        vstd::arithmetic::div_mod::lemma_multiply_divide_lt(i, w, h);
    }
    assert forall|j1: int, j2: int|
        0 <= j1 < r.values@.len() && 0 <= j2 < r.values@.len() && j1 != j2 implies (
        #[trigger] r.values@[j1]).x != (#[trigger] r.values@[j2]).x || r.values@[j1].y
            != r.values@[j2].y by {
        assert(is_sample_of(r.values@[j1], width, pixels, order[j1]));
        assert(is_sample_of(r.values@[j2], width, pixels, order[j2]));
        let i1 = order[j1];
        let i2 = order[j2];
        assert(i1 != i2);
        if r.values@[j1].x == r.values@[j2].x && r.values@[j1].y == r.values@[j2].y {
            assert(w > 0) by (nonlinear_arith)
                requires
                    0 <= i1 < w * h,
                    w >= 0,
            ;
            vstd::arithmetic::div_mod::lemma_fundamental_div_mod(i1, w);
            vstd::arithmetic::div_mod::lemma_fundamental_div_mod(i2, w);
        }
    }
    assert forall|x: u32, y: u32| x < width && y < height implies #[trigger] r.has_sample_at(x, y) by {
        let i = y as int * w + x as int;
        assert(0 <= i < w * h && i / w == y as int && i % w == x as int) by (nonlinear_arith)
            requires
                i == y as int * w + x as int,
                x < w,
                y < h,
                0 <= x,
                0 <= y,
        {
            vstd::arithmetic::div_mod::lemma_fundamental_div_mod_converse(i, w, y as int, x as int);
        }
        assert(order.contains(i));
        let j = choose|j: int| 0 <= j < order.len() && order[j] == i;
        assert(is_sample_of(r.values@[j], width, pixels, order[j]));
    }
    assert forall|j1: int, j2: int| 0 <= j1 <= j2 < r.values@.len() implies (
    #[trigger] r.values@[j1]).d <= (#[trigger] r.values@[j2]).d by {
        assert(is_sample_of(r.values@[j1], width, pixels, order[j1]));
        assert(is_sample_of(r.values@[j2], width, pixels, order[j2]));
    }
}

/// Builds the scene from a decoded row-major image: each pixel's alpha becomes
/// its depth, its colour is kept opaque, and the samples are sorted stably by
/// ascending depth.
pub fn to_depth_and_color_map(width: u32, height: u32, pixels: &Vec<[u8; 4]>) -> (r: DepthAndColorMap)
    requires
        pixels@.len() == width as int * height as int,
    ensures
        r.width == width,
        r.height == height,
        r.wf(),
        r.values@.len() == depth_order(pixels@).len(),
        forall|j: int|
            0 <= j < r.values@.len() ==> is_sample_of(
                #[trigger] r.values@[j],
                width,
                pixels@,
                depth_order(pixels@)[j],
            ),
{
    let n = pixels.len();
    let mut values: Vec<DepthAndColorPx> = Vec::new();
    let mut k: u32 = 0;
    while k < 256
        invariant
            k <= 256,
            n == pixels@.len(),
            n == width as int * height as int,
            values@.len() == depth_order_below(pixels@, k as int).len(),
            forall|j: int|
                0 <= j < values@.len() ==> is_sample_of(
                    #[trigger] values@[j],
                    width,
                    pixels@,
                    depth_order_below(pixels@, k as int)[j],
                ),
        decreases 256 - k,
    {
        let ghost before = depth_order_below(pixels@, k as int);
        let mut i: usize = 0;
        while i < n
            invariant
                k < 256,
                i <= n,
                n == pixels@.len(),
                n == width as int * height as int,
                values@.len() == before.len() + indices_with_depth(pixels@, k as int, i as int).len(),
                forall|j: int|
                    0 <= j < values@.len() ==> is_sample_of(
                        #[trigger] values@[j],
                        width,
                        pixels@,
                        (before + indices_with_depth(pixels@, k as int, i as int))[j],
                    ),
            decreases n - i,
        {
            let p = pixels[i];
            if p[3] as u32 == k {
                assert(width > 0 && (i as int) / (width as int) < height) by (nonlinear_arith)
                    requires
                        0 <= i < n,
                        n == width as int * height as int,
                ;
                let s = DepthAndColorPx {
                    x: (i % (width as usize)) as u32,
                    y: (i / (width as usize)) as u32,
                    d: p[3],
                    rgba: [p[0], p[1], p[2], 255],
                };
                values.push(s);
            }
            i += 1;
            assert(before + indices_with_depth(pixels@, k as int, i as int) =~= if depth_of(pixels@[i - 1]) == k {
                (before + indices_with_depth(pixels@, k as int, i - 1)).push(i - 1)
            } else {
                before + indices_with_depth(pixels@, k as int, i - 1)
            });
        }
        k += 1;
    }
    let r = DepthAndColorMap { width, height, values };
    proof {
        lemma_samples_form_grid(width, height, pixels@, r);
    }
    r
}

} // verus!
