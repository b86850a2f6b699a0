use pinturapp::renderer::texture::Texture;

#[test]
fn from_pixel_fills_every_texel() {
    let t = Texture::from_pixel(3, 2, [1, 2, 3, 4]).unwrap();
    assert_eq!(t.width(), 3);
    assert_eq!(t.height(), 2);
    assert_eq!(t.pixels().len(), 6);
    assert!(t.pixels().iter().all(|p| *p == [1, 2, 3, 4]));
}

#[test]
fn from_pixels_checks_the_count() {
    assert!(Texture::from_pixels(2, 2, vec![[0, 0, 0, 0]; 3]).is_none());
    assert!(Texture::from_pixels(2, 2, vec![[0, 0, 0, 0]; 4]).is_some());
    assert!(Texture::from_pixels(0, 5, vec![]).is_some());
}

#[test]
fn pixels_are_row_major() {
    let t = Texture::from_pixels(2, 2, vec![[0, 0, 0, 0], [1, 1, 1, 1], [2, 2, 2, 2], [3, 3, 3, 3]]).unwrap();
    assert_eq!(t.get_pixel(1, 0), [1, 1, 1, 1]);
    assert_eq!(t.get_pixel(0, 1), [2, 2, 2, 2]);
    assert_eq!(t.pixel_at(3), [3, 3, 3, 3]);
}

#[test]
fn set_pixel_changes_one_texel() {
    let mut t = Texture::from_pixel(2, 2, [0, 0, 0, 0]).unwrap();
    t.set_pixel_at(2, [9, 8, 7, 6]);
    assert_eq!(t.get_pixel(0, 1), [9, 8, 7, 6]);
    assert_eq!(t.get_pixel(0, 0), [0, 0, 0, 0]);
    assert_eq!(t.width(), 2);
}

#[test]
fn blank_albedo_is_light_grey() {
    let t = Texture::blank_albedo();
    assert_eq!((t.width(), t.height()), (1024, 1024));
    assert_eq!(t.get_pixel(0, 0), [200, 200, 200, 255]);
    assert_eq!(t.get_pixel(1023, 1023), [200, 200, 200, 255]);
}

#[test]
fn duplicate_is_an_equal_independent_copy() {
    let mut t = Texture::from_pixels(2, 1, vec![[1, 2, 3, 4], [5, 6, 7, 8]]).unwrap();
    let copy = t.duplicate();
    assert_eq!((copy.width(), copy.height()), (2, 1));
    assert_eq!(copy.pixels(), t.pixels());
    t.set_pixel_at(0, [0, 0, 0, 0]);
    assert_eq!(copy.get_pixel(0, 0), [1, 2, 3, 4]);
}
