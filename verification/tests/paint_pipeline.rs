use pinturapp::renderer::paint_pipeline::{
    apply_texture_padding, build_uv_tile_bins, BrushBlendMode, BrushFalloff, PaintPipelineConfig, TexelBox,
    UvCoverageCache, UV_TILE_SIZE,
};
use pinturapp::renderer::texture::Texture;

const A: [u8; 4] = [10, 20, 30, 255];
const B: [u8; 4] = [1, 1, 1, 1];
const C: [u8; 4] = [2, 2, 2, 2];

fn row(pixels: Vec<[u8; 4]>) -> Texture {
    let n = pixels.len() as u32;
    Texture::from_pixels(n, 1, pixels).unwrap()
}

fn tb(min_x: usize, max_x: usize, min_y: usize, max_y: usize) -> Option<TexelBox> {
    Some(TexelBox { min_x, max_x, min_y, max_y })
}

#[test]
fn defaults() {
    assert_eq!(PaintPipelineConfig::default().padding_iterations, 2);
    assert_eq!(BrushBlendMode::default(), BrushBlendMode::Normal);
    assert_eq!(BrushFalloff::default(), BrushFalloff::Smooth);
}

#[test]
fn padding_grows_one_ring_per_iteration() {
    let coverage = vec![true, false, false];
    let mut t = row(vec![A, B, C]);
    apply_texture_padding(&mut t, &vec![0], &coverage, 1);
    assert_eq!(t.pixels(), &vec![A, A, C]);
    let mut t = row(vec![A, B, C]);
    apply_texture_padding(&mut t, &vec![0], &coverage, 2);
    assert_eq!(t.pixels(), &vec![A, A, A]);
}

#[test]
fn padding_never_enters_covered_texels() {
    let coverage = vec![false, true, false];
    let mut t = row(vec![A, B, C]);
    apply_texture_padding(&mut t, &vec![1], &coverage, 3);
    assert_eq!(t.pixels(), &vec![B, B, B]);
    let coverage = vec![true, true, false];
    let mut t = row(vec![A, B, C]);
    apply_texture_padding(&mut t, &vec![0], &coverage, 3);
    assert_eq!(t.pixels(), &vec![A, B, C]);
}

#[test]
fn padding_spreads_in_four_directions() {
    // 3 x 3, only the center painted and covered.
    let mut coverage = vec![false; 9];
    coverage[4] = true;
    let mut pixels = vec![B; 9];
    pixels[4] = A;
    let mut t = Texture::from_pixels(3, 3, pixels).unwrap();
    apply_texture_padding(&mut t, &vec![4], &coverage, 1);
    assert_eq!(t.pixels(), &vec![B, A, B, A, A, A, B, A, B]);
    apply_texture_padding(&mut t, &vec![4], &coverage, 2);
    assert_eq!(t.pixels(), &vec![A; 9]);
}

#[test]
fn padding_does_nothing_when_asked_for_nothing() {
    let mut t = row(vec![A, B, C]);
    apply_texture_padding(&mut t, &vec![0], &vec![false; 3], 0);
    assert_eq!(t.pixels(), &vec![A, B, C]);
    apply_texture_padding(&mut t, &vec![], &vec![false; 3], 4);
    assert_eq!(t.pixels(), &vec![A, B, C]);
    // A coverage map of another size is ignored.
    apply_texture_padding(&mut t, &vec![0], &vec![false; 2], 4);
    assert_eq!(t.pixels(), &vec![A, B, C]);
    // Painted texels outside the texture spread nothing.
    apply_texture_padding(&mut t, &vec![7], &vec![false; 3], 4);
    assert_eq!(t.pixels(), &vec![A, B, C]);
}

fn sample_boxes() -> Vec<Option<TexelBox>> {
    vec![
        tb(0, 10, 0, 10),
        tb(30, 40, 0, 5),
        None,
        tb(5, 70, 33, 100),
        tb(9, 3, 0, 0),
    ]
}

#[test]
fn triangles_are_filed_under_the_tiles_of_their_boxes() {
    let (tile, tw, th, bins) = build_uv_tile_bins(64, 40, &sample_boxes());
    assert_eq!(tile, UV_TILE_SIZE);
    assert_eq!((tw, th), (2, 2));
    assert_eq!(bins, vec![vec![0, 1], vec![1], vec![3], vec![3]]);
}

#[test]
fn an_empty_texture_still_has_one_tile() {
    let (_, tw, th, bins) = build_uv_tile_bins(0, 0, &vec![tb(0, 0, 0, 0)]);
    assert_eq!((tw, th), (1, 1));
    assert_eq!(bins, vec![vec![0]]);
}

#[test]
fn the_cache_is_rebuilt_for_a_new_mesh_or_size() {
    let mut cache = UvCoverageCache::default();
    assert!(cache.needs_rebuild(7, 64, 40));
    let covered: Vec<bool> = (0..64 * 40).map(|i| i % 2 == 0).collect();
    cache.rebuild(7, 64, 40, covered.clone(), &sample_boxes());
    assert_eq!((cache.width(), cache.height()), (64, 40));
    assert_eq!(cache.coverage(), &covered);
    assert!(!cache.needs_rebuild(7, 64, 40));
    assert!(cache.needs_rebuild(8, 64, 40));
    assert!(cache.needs_rebuild(7, 65, 40));
}

#[test]
fn candidates_come_from_the_touched_tiles_each_once() {
    let mut cache = UvCoverageCache::default();
    cache.rebuild(7, 64, 40, vec![false; 64 * 40], &sample_boxes());
    let top_left = TexelBox { min_x: 0, max_x: 40, min_y: 0, max_y: 5 };
    assert_eq!(cache.gather_candidate_triangles(top_left), vec![0, 1]);
    let all = TexelBox { min_x: 0, max_x: 63, min_y: 0, max_y: 39 };
    assert_eq!(cache.gather_candidate_triangles(all), vec![0, 1, 3]);
    let bottom_right = TexelBox { min_x: 40, max_x: 1000, min_y: 35, max_y: 1000 };
    assert_eq!(cache.gather_candidate_triangles(bottom_right), vec![3]);
    // Repeated gatherings give the same answer.
    assert_eq!(cache.gather_candidate_triangles(all), vec![0, 1, 3]);
}

#[test]
fn an_empty_cache_has_no_candidates() {
    let mut cache = UvCoverageCache::default();
    let all = TexelBox { min_x: 0, max_x: 63, min_y: 0, max_y: 39 };
    assert_eq!(cache.gather_candidate_triangles(all), Vec::<u32>::new());
}

#[test]
fn more_rings_reach_farther_and_keep_nearer_colors() {
    let coverage = vec![true, false, false, false, false];
    let mut near = row(vec![A, B, C, B, C]);
    apply_texture_padding(&mut near, &vec![0], &coverage, 1);
    assert_eq!(near.pixels(), &vec![A, A, C, B, C]);
    let mut far = row(vec![A, B, C, B, C]);
    apply_texture_padding(&mut far, &vec![0], &coverage, 3);
    assert_eq!(far.pixels(), &vec![A, A, A, A, C]);
}

#[test]
fn padding_goes_around_covered_texels() {
    // 3 x 2; texel 1 is covered, so texel 2 is four steps from texel 0.
    let mut coverage = vec![false; 6];
    coverage[1] = true;
    let start = vec![A, B, C, B, C, B];
    let mut t = Texture::from_pixels(3, 2, start.clone()).unwrap();
    apply_texture_padding(&mut t, &vec![0], &coverage, 3);
    assert_eq!(t.pixels(), &vec![A, B, C, A, A, A]);
    let mut t = Texture::from_pixels(3, 2, start).unwrap();
    apply_texture_padding(&mut t, &vec![0], &coverage, 4);
    assert_eq!(t.pixels(), &vec![A, B, A, A, A, A]);
}
