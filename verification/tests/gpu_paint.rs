use pinturapp::renderer::gpu_paint::{
    apply_readback, blend_to_u32, coverage_words, falloff_to_u32, pack_color_rgba, pack_texture_pixels,
    unpack_color_rgba, workgroup_count,
};
use pinturapp::renderer::paint_pipeline::{BrushBlendMode, BrushFalloff};
use pinturapp::renderer::texture::Texture;

#[test]
fn pack_color_puts_red_in_the_low_byte() {
    assert_eq!(pack_color_rgba([0x11, 0x22, 0x33, 0x44]), 0x4433_2211);
    assert_eq!(pack_color_rgba([0, 0, 0, 0]), 0);
    assert_eq!(pack_color_rgba([255, 255, 255, 255]), u32::MAX);
    assert_eq!(pack_color_rgba([1, 0, 0, 0]), 1);
    assert_eq!(pack_color_rgba([0, 0, 0, 1]), 0x0100_0000);
}

#[test]
fn unpack_color_reads_the_bytes_back() {
    assert_eq!(unpack_color_rgba(0x4433_2211), [0x11, 0x22, 0x33, 0x44]);
    assert_eq!(unpack_color_rgba(0xff00_00ff), [0xff, 0, 0, 0xff]);
}

#[test]
fn pack_and_unpack_are_inverse() {
    for c in [[0u8, 0, 0, 0], [1, 2, 3, 4], [255, 0, 128, 7], [200, 200, 200, 255]] {
        assert_eq!(unpack_color_rgba(pack_color_rgba(c)), c);
    }
    for v in [0u32, 1, 0x1234_5678, u32::MAX, 0x8000_0000] {
        assert_eq!(pack_color_rgba(unpack_color_rgba(v)), v);
    }
}

#[test]
fn mode_codes_match_the_shader() {
    assert_eq!(blend_to_u32(BrushBlendMode::Normal), 0);
    assert_eq!(blend_to_u32(BrushBlendMode::Multiply), 1);
    assert_eq!(blend_to_u32(BrushBlendMode::Screen), 2);
    assert_eq!(falloff_to_u32(BrushFalloff::Smooth), 0);
    assert_eq!(falloff_to_u32(BrushFalloff::Sphere), 1);
    assert_eq!(falloff_to_u32(BrushFalloff::Root), 2);
    assert_eq!(falloff_to_u32(BrushFalloff::Sharp), 3);
    assert_eq!(falloff_to_u32(BrushFalloff::Linear), 4);
    assert_eq!(falloff_to_u32(BrushFalloff::Constant), 5);
}

#[test]
fn workgroups_round_up() {
    assert_eq!(workgroup_count(0), 0);
    assert_eq!(workgroup_count(1), 1);
    assert_eq!(workgroup_count(64), 1);
    assert_eq!(workgroup_count(65), 2);
    assert_eq!(workgroup_count(1024 * 1024), 16384);
    assert_eq!(workgroup_count(u32::MAX), 67_108_864);
}

#[test]
fn texture_words_and_coverage_words() {
    let t = Texture::from_pixels(2, 1, vec![[1, 2, 3, 4], [255, 255, 255, 255]]).unwrap();
    assert_eq!(pack_texture_pixels(&t), vec![0x0403_0201, u32::MAX]);
    assert_eq!(coverage_words(&vec![true, false, true]), vec![1, 0, 1]);
    assert_eq!(coverage_words(&vec![]), Vec::<u32>::new());
}

#[test]
fn readback_writes_the_shader_words() {
    let mut t = Texture::from_pixel(2, 2, [0, 0, 0, 0]).unwrap();
    let words = vec![0x0403_0201, 0, 0xff00_00ff, 7];
    assert!(apply_readback(&mut t, &words));
    assert_eq!(t.pixels(), &vec![[1, 2, 3, 4], [0, 0, 0, 0], [0xff, 0, 0, 0xff], [7, 0, 0, 0]]);
}

#[test]
fn readback_of_the_wrong_length_changes_nothing() {
    let mut t = Texture::from_pixel(2, 2, [9, 9, 9, 9]).unwrap();
    assert!(!apply_readback(&mut t, &vec![1, 2, 3]));
    assert_eq!(t.pixels(), &vec![[9, 9, 9, 9]; 4]);
}

#[test]
fn readback_of_the_upload_is_the_texture() {
    let uploaded = Texture::from_pixels(3, 1, vec![[10, 20, 30, 40], [0, 255, 0, 255], [5, 6, 7, 8]]).unwrap();
    let words = pack_texture_pixels(&uploaded);
    let mut copy = Texture::from_pixel(3, 1, [0, 0, 0, 0]).unwrap();
    assert!(apply_readback(&mut copy, &words));
    assert_eq!(copy.pixels(), uploaded.pixels());
}
