use rxoptics::encode::{encode_png, layer_bytes};
use rxoptics::error::ImageHandlingError;
use rxoptics::grid::to_depth_and_color_map;
use rxoptics::layer::RgbaLayer;

#[test]
fn filled_layer() {
    let layer = RgbaLayer::filled(3, 2, [255, 255, 255, 0]);
    assert_eq!(layer.pixels, vec![[255, 255, 255, 0]; 6]);
}

#[test]
fn premultiply_restores_colour_of_transparent_pixels() {
    let pixels = vec![[10, 20, 30, 5], [40, 50, 60, 0], [70, 80, 90, 9], [1, 1, 1, 1]];
    let map = to_depth_and_color_map(2, 2, &pixels);
    let mut layer = RgbaLayer::filled(2, 2, [255, 255, 255, 0]);
    layer.pixels[2] = [0, 0, 200, 255];
    layer.pixels[3] = [9, 9, 9, 100];
    layer.premultiply(&map);
    assert_eq!(
        layer.pixels,
        vec![[10, 20, 30, 0], [40, 50, 60, 0], [0, 0, 200, 255], [9, 9, 9, 100]]
    );
}

#[test]
fn predraw_writes_opaque_samples() {
    let pixels = vec![[10, 20, 30, 5], [40, 50, 60, 0]];
    let map = to_depth_and_color_map(2, 1, &pixels);
    let mut layer = RgbaLayer::filled(2, 1, [0, 0, 0, 0]);
    layer.predraw(&map);
    assert_eq!(layer.pixels, vec![[10, 20, 30, 255], [40, 50, 60, 255]]);
}

#[test]
fn layer_bytes_flatten_pixels() {
    let mut layer = RgbaLayer::filled(2, 1, [1, 2, 3, 4]);
    layer.pixels[1] = [5, 6, 7, 8];
    assert_eq!(layer_bytes(&layer), vec![1, 2, 3, 4, 5, 6, 7, 8]);
}

#[test]
fn encode_png_writes_a_png_file() {
    let layer = RgbaLayer::filled(4, 4, [255, 0, 0, 255]);
    let bytes = encode_png(&layer).ok().unwrap();
    assert_eq!(&bytes[..8], &[137, 80, 78, 71, 13, 10, 26, 10]);
    assert_ne!(bytes, layer_bytes(&layer));
    let again = encode_png(&layer).ok().unwrap();
    assert_eq!(bytes, again);
}

#[test]
fn encode_png_rejects_a_short_buffer() {
    let mut layer = RgbaLayer::filled(4, 4, [255, 0, 0, 255]);
    layer.pixels.truncate(3);
    let err = encode_png(&layer).err().unwrap();
    assert_eq!(err.message(), "Failed to blur image");
}

#[test]
fn error_messages() {
    assert_eq!(ImageHandlingError::load_failed().message(), "Failed to load image");
    assert_eq!(ImageHandlingError::blur_failed().msg, "Failed to blur image");
}

#[test]
fn encode_png_rejects_an_empty_layer() {
    let layer = RgbaLayer::filled(0, 3, [0, 0, 0, 0]);
    let err = encode_png(&layer).err().unwrap();
    assert_eq!(err.message(), "Failed to blur image");
}

#[test]
fn encode_png_succeeds_on_one_pixel() {
    let layer = RgbaLayer::filled(1, 1, [0, 0, 0, 0]);
    assert!(encode_png(&layer).is_ok());
}
