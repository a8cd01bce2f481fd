use vstd::prelude::*;

use crate::error::{blur_failed_msg, ImageHandlingError};
use crate::layer::RgbaLayer;

verus! {

/// image's error type, carried unopened from the PNG encoder.
#[verifier::external_type_specification]
#[verifier::external_body]
pub struct ExImageError(image::ImageError);

/// The PNG file that image's encoder writes for 8-bit RGBA samples `data` of
/// a `width`×`height` raster.
pub uninterp spec fn png_rgba8_of(data: Seq<u8>, width: u32, height: u32) -> Seq<u8>;

/// Relies on image's `PngEncoder::encode` (image 0.23, `PNGEncoder` alias):
/// when it succeeds, the buffer it wrote to holds the PNG encoding of `data`
/// as `Rgba8` samples; the encoding depends on its arguments alone. Writing
/// into a `Vec` cannot fail, so the encoder fails only on a zero width or
/// height, or on a buffer that is not four bytes for each pixel.
#[verifier::external_body]
fn png_encode_rgba8(data: &Vec<u8>, width: u32, height: u32) -> (r: Result<Vec<u8>, image::ImageError>)
    ensures
        r is Ok ==> r->Ok_0@ == png_rgba8_of(data@, width, height),
        data@.len() == 4 * width as int * height as int && width > 0 && height > 0 ==> r is Ok,
{
    let mut buf: Vec<u8> = Vec::new();
    let encoder = image::png::PNGEncoder::new(&mut buf);
    match encoder.encode(data, width, height, image::ColorType::Rgba8) {
        Ok(()) => Ok(buf),
        Err(e) => Err(e),
    }
}

/// The samples of a row of RGBA pixels laid end to end, four bytes a pixel.
pub open spec fn rgba_bytes(pixels: Seq<[u8; 4]>) -> Seq<u8>
    decreases pixels.len(),
{
    if pixels.len() == 0 {
        Seq::empty()
    } else {
        rgba_bytes(pixels.drop_last()) + pixels.last()@
    }
}

proof fn lemma_rgba_bytes_len(pixels: Seq<[u8; 4]>)
    ensures
        rgba_bytes(pixels).len() == 4 * pixels.len(),
    decreases pixels.len(),
{
    if pixels.len() > 0 {
        lemma_rgba_bytes_len(pixels.drop_last());
    }
}

/// The raw 8-bit RGBA samples of a layer, pixel after pixel.
pub fn layer_bytes(layer: &RgbaLayer) -> (r: Vec<u8>)
    ensures
        r@ == rgba_bytes(layer.pixels@),
{
    let mut r: Vec<u8> = Vec::new();
    let mut q: usize = 0;
    while q < layer.pixels.len()
        invariant
            q <= layer.pixels@.len(),
            r@ == rgba_bytes(layer.pixels@.take(q as int)),
        decreases layer.pixels@.len() - q,
    {
        let p = layer.pixels[q];
        r.push(p[0]);
        r.push(p[1]);
        r.push(p[2]);
        r.push(p[3]);
        proof {
            assert(layer.pixels@.take(q + 1).drop_last() =~= layer.pixels@.take(q as int));
            assert(p@ =~= seq![p@[0], p@[1], p@[2], p@[3]]);
            assert(r@ =~= rgba_bytes(layer.pixels@.take(q as int)) + p@);
        }
        q += 1;
    }
    assert(layer.pixels@.take(q as int) =~= layer.pixels@);
    r
}

/// Encodes a layer as a PNG file of 8-bit RGBA samples. A well-formed layer
/// of nonzero size always encodes; otherwise the encoder's failure is
/// reported as a failed render.
pub fn encode_png(layer: &RgbaLayer) -> (r: Result<Vec<u8>, ImageHandlingError>)
    ensures
        r is Ok ==> r->Ok_0@ == png_rgba8_of(rgba_bytes(layer.pixels@), layer.width, layer.height),
        r is Err ==> r->Err_0.msg@ == blur_failed_msg(),
        layer.wf() && layer.width > 0 && layer.height > 0 ==> r is Ok,
{
    let data = layer_bytes(layer);
    proof {
        lemma_rgba_bytes_len(layer.pixels@);
        let (w, h) = (layer.width as int, layer.height as int);
        assert(4 * (w * h) == 4 * w * h) by (nonlinear_arith);
    }
    match png_encode_rgba8(&data, layer.width, layer.height) {
        Ok(buf) => Ok(buf),
        Err(_) => Err(ImageHandlingError::blur_failed()),
    }
}

} // verus!
