use pinturapp::io::texture_png::{encode_png, report_png, texture_rgba_bytes};
use pinturapp::renderer::texture::Texture;

#[test]
fn texture_bytes_run_pixel_after_pixel() {
    let t = Texture::from_pixels(2, 1, vec![[1, 2, 3, 4], [5, 6, 7, 8]]).unwrap();
    assert_eq!(texture_rgba_bytes(&t), vec![1, 2, 3, 4, 5, 6, 7, 8]);
    let empty = Texture::from_pixels(0, 3, vec![]).unwrap();
    assert!(texture_rgba_bytes(&empty).is_empty());
}

#[test]
fn an_encoded_texture_is_a_png_file() {
    let t = Texture::from_pixel(3, 2, [10, 20, 30, 255]).unwrap();
    let png = encode_png(&t).unwrap();
    assert_eq!(&png[..8], &[137, 80, 78, 71, 13, 10, 26, 10]);
    // The header chunk holds the width and height, big-endian.
    assert_eq!(&png[12..16], b"IHDR");
    assert_eq!(&png[16..20], &[0, 0, 0, 3]);
    assert_eq!(&png[20..24], &[0, 0, 0, 2]);
    let decoded = image::load_from_memory(&png).unwrap().to_rgba8();
    assert_eq!(decoded.width(), 3);
    assert_eq!(decoded.height(), 2);
    assert!(decoded.pixels().all(|p| p.0 == [10, 20, 30, 255]));
}

#[test]
fn png_reports_prefix_errors_and_keep_bytes() {
    assert_eq!(report_png(Ok(vec![1, 2, 3])), Ok(vec![1, 2, 3]));
    assert_eq!(
        report_png(Err("boom".to_string())),
        Err("Failed to encode texture PNG: boom".to_string())
    );
}
