//! The parts of the projected-brush paint pipeline that work on whole texels: seam padding,
//! the UV tile bins that narrow a stamp to candidate triangles, and the coverage cache.

use crate::renderer::texture::Texture;
use vstd::prelude::*;

verus! {

/// Settings of the paint pipeline.
#[derive(Debug, Clone)]
pub struct PaintPipelineConfig {
    /// How many rings of texels seam padding grows around painted texels.
    pub padding_iterations: usize,
}

impl Default for PaintPipelineConfig {
    fn default() -> (c: Self)
        ensures
            c.padding_iterations == 2,
    {
        PaintPipelineConfig { padding_iterations: 2 }
    }
}

/// How a brush color combines with the texel under it.
#[derive(Debug, Clone, Copy, PartialEq, Eq, Structural)]
pub enum BrushBlendMode {
    Normal,
    Multiply,
    Screen,
}

impl Default for BrushBlendMode {
    fn default() -> (m: Self)
        ensures
            m == BrushBlendMode::Normal,
    {
        BrushBlendMode::Normal
    }
}

/// How a brush's weight falls from its center to its rim.
#[derive(Debug, Clone, Copy, PartialEq, Eq, Structural)]
pub enum BrushFalloff {
    Smooth,
    Sphere,
    Root,
    Sharp,
    Linear,
    Constant,
}

impl Default for BrushFalloff {
    fn default() -> (f: Self)
        ensures
            f == BrushFalloff::Smooth,
    {
        BrushFalloff::Smooth
    }
}

/// The state of seam padding while it runs: the pixels, the texels already filled or painted,
/// and the texels filled in the current ring.
pub struct PadState {
    pub pixels: Seq<[u8; 4]>,
    pub seeded: Seq<bool>,
    pub next: Seq<usize>,
}

/// Fills texel `(nx, ny)` with `src` when it lies inside the `w` x `h` grid, is outside the UV
/// coverage and is not filled yet.
pub open spec fn pad_into(
    st: PadState,
    w: int,
    h: int,
    cov: Seq<bool>,
    src: [u8; 4],
    nx: int,
    ny: int,
) -> PadState {
    if nx < 0 || ny < 0 || nx >= w || ny >= h {
        st
    } else {
        let n = ny * w + nx;
        if cov[n] || st.seeded[n] {
            st
        } else {
            PadState {
                pixels: st.pixels.update(n, src),
                seeded: st.seeded.update(n, true),
                next: st.next.push(n as usize),
            }
        }
    }
}

/// Spreads the color of texel `idx` to its left, right, upper and lower neighbours, in that order.
pub open spec fn pad_from(st: PadState, w: int, h: int, cov: Seq<bool>, idx: usize) -> PadState {
    if idx >= w * h {
        st
    } else {
        let x = idx as int % w;
        let y = idx as int / w;
        let src = st.pixels[idx as int];
        let s1 = pad_into(st, w, h, cov, src, x - 1, y);
        let s2 = pad_into(s1, w, h, cov, src, x + 1, y);
        let s3 = pad_into(s2, w, h, cov, src, x, y - 1);
        pad_into(s3, w, h, cov, src, x, y + 1)
    }
}

/// One ring of padding: spreads from the first `n` texels of the frontier, in order.
pub open spec fn pad_ring(st: PadState, w: int, h: int, cov: Seq<bool>, frontier: Seq<usize>, n: nat) -> PadState
    decreases n,
{
    if n == 0 {
        st
    } else {
        pad_from(pad_ring(st, w, h, cov, frontier, (n - 1) as nat), w, h, cov, frontier[n - 1])
    }
}

/// `k` rings of padding; each ring spreads from the texels that the previous ring filled.
pub open spec fn pad_rings(
    pixels: Seq<[u8; 4]>,
    seeded: Seq<bool>,
    frontier: Seq<usize>,
    w: int,
    h: int,
    cov: Seq<bool>,
    k: nat,
) -> Seq<[u8; 4]>
    decreases k,
{
    if k == 0 {
        pixels
    } else {
        let st = pad_ring(
            PadState { pixels, seeded, next: seq![] },
            w,
            h,
            cov,
            frontier,
            frontier.len(),
        );
        pad_rings(st.pixels, st.seeded, st.next, w, h, cov, (k - 1) as nat)
    }
}

pub open spec fn seeds_of(touched: Seq<usize>, n: nat) -> Seq<bool> {
    Seq::new(n, |i: int| touched.contains(i as usize))
}

pub open spec fn at_least_one(v: nat) -> nat {
    if v == 0 {
        1
    } else {
        v
    }
}

/// The pixels after seam padding of a `width` x `height` texture: starting from the painted
/// texels, `iterations` rings of texels outside the UV coverage take the color of the texel they
/// were reached from. Nothing changes when `iterations` is 0, nothing was painted, or the
/// coverage does not have one entry per texel.
pub open spec fn padded_pixels(
    pixels: Seq<[u8; 4]>,
    width: nat,
    height: nat,
    touched: Seq<usize>,
    cov: Seq<bool>,
    iterations: nat,
) -> Seq<[u8; 4]> {
    let w = at_least_one(width);
    let h = at_least_one(height);
    if iterations == 0 || touched.len() == 0 || cov.len() != w * h {
        pixels
    } else {
        pad_rings(pixels, seeds_of(touched, w * h), touched, w as int, h as int, cov, iterations)
    }
}

} // verus!

verus! {

/// Row-major index arithmetic on a `w`-wide grid.
pub proof fn lemma_grid_index(w: int, h: int, x: int, y: int)
    requires
        0 <= x < w,
        0 <= y < h,
    ensures
        0 <= y * w + x < w * h,
        (y * w + x) % w == x,
        (y * w + x) / w == y,
{
    assert(0 <= y * w + x < w * h) by (nonlinear_arith)
        requires
            0 <= x < w,
            0 <= y < h,
    ;
    vstd::arithmetic::div_mod::lemma_fundamental_div_mod_converse(y * w + x, w, y, x);
}

pub proof fn lemma_grid_coords(w: int, h: int, i: int)
    requires
        0 < w,
        0 <= i < w * h,
    ensures
        0 <= i % w < w,
        0 <= i / w < h,
        (i / w) * w + i % w == i,
{
    vstd::arithmetic::div_mod::lemma_fundamental_div_mod(i, w);
    vstd::arithmetic::div_mod::lemma_mod_bound(i, w);
    vstd::arithmetic::div_mod::lemma_div_pos_is_pos(i, w);
    assert(i / w < h) by (nonlinear_arith)
        requires
            0 < w,
            0 <= i < w * h,
            i == w * (i / w) + i % w,
            0 <= i % w,
    ;
    assert((i / w) * w == w * (i / w)) by (nonlinear_arith);
}

/// Texels that seam padding must leave alone: the painted ones and the covered ones.
pub open spec fn pad_keeps(
    orig: Seq<[u8; 4]>,
    cur: Seq<[u8; 4]>,
    seeds: Seq<bool>,
    cov: Seq<bool>,
) -> bool {
    &&& cur.len() == orig.len()
    &&& forall|i: int| 0 <= i < cur.len() && (seeds[i] || cov[i]) ==> #[trigger] cur[i] == orig[i]
}

spec fn pad_state_of(tex: &Texture, seeded: &Vec<bool>, next: &Vec<usize>) -> PadState {
    PadState { pixels: tex.spec_pixels(), seeded: seeded@, next: next@ }
}

fn pad_neighbor(
    tex: &mut Texture,
    seeded: &mut Vec<bool>,
    next: &mut Vec<usize>,
    w: usize,
    h: usize,
    cov: &Vec<bool>,
    src: [u8; 4],
    nx: usize,
    ny: usize,
    Ghost(orig): Ghost<Seq<[u8; 4]>>,
    Ghost(seeds): Ghost<Seq<bool>>,
)
    requires
        nx < w,
        ny < h,
        w as int * h as int == old(seeded)@.len(),
        old(seeded)@.len() == cov@.len(),
        old(tex).spec_pixels().len() == cov@.len(),
        old(tex).spec_width() == w,
        pad_keeps(orig, old(tex).spec_pixels(), seeds, cov@),
        seeds.len() == cov@.len(),
        forall|i: int| 0 <= i < seeds.len() && seeds[i] ==> #[trigger] old(seeded)@[i],
    ensures
        final(tex).spec_width() == old(tex).spec_width(),
        final(tex).spec_height() == old(tex).spec_height(),
        pad_state_of(final(tex), final(seeded), final(next)) == pad_into(
            pad_state_of(old(tex), old(seeded), old(next)),
            w as int,
            h as int,
            cov@,
            src,
            nx as int,
            ny as int,
        ),
        final(seeded)@.len() == old(seeded)@.len(),
        pad_keeps(orig, final(tex).spec_pixels(), seeds, cov@),
        forall|i: int| 0 <= i < seeds.len() && seeds[i] ==> #[trigger] final(seeded)@[i],
{
    let total = seeded.len();
    proof {
        lemma_grid_index(w as int, h as int, nx as int, ny as int);
        assert(ny as int * w as int <= ny as int * w as int + nx as int);
    }
    let n = ny * w + nx;
    if cov[n] || seeded[n] {
        return;
    }
    tex.set_pixel_at(n, src);
    seeded.set(n, true);
    next.push(n);
}

/// Spreads the color of texel `idx` to its four neighbours (see `pad_from`).
fn pad_spread(
    tex: &mut Texture,
    seeded: &mut Vec<bool>,
    next: &mut Vec<usize>,
    w: usize,
    h: usize,
    cov: &Vec<bool>,
    idx: usize,
    Ghost(orig): Ghost<Seq<[u8; 4]>>,
    Ghost(seeds): Ghost<Seq<bool>>,
)
    requires
        0 < w,
        0 < h,
        w as int * h as int == old(seeded)@.len(),
        old(seeded)@.len() == cov@.len(),
        old(tex).spec_pixels().len() == cov@.len(),
        old(tex).spec_width() == w,
        pad_keeps(orig, old(tex).spec_pixels(), seeds, cov@),
        seeds.len() == cov@.len(),
        forall|i: int| 0 <= i < seeds.len() && seeds[i] ==> #[trigger] old(seeded)@[i],
    ensures
        final(tex).spec_width() == old(tex).spec_width(),
        final(tex).spec_height() == old(tex).spec_height(),
        pad_state_of(final(tex), final(seeded), final(next)) == pad_from(
            pad_state_of(old(tex), old(seeded), old(next)),
            w as int,
            h as int,
            cov@,
            idx,
        ),
        final(seeded)@.len() == old(seeded)@.len(),
        pad_keeps(orig, final(tex).spec_pixels(), seeds, cov@),
        forall|i: int| 0 <= i < seeds.len() && seeds[i] ==> #[trigger] final(seeded)@[i],
{
    let total = seeded.len();
    if idx >= total {
        return;
    }
    proof {
        lemma_grid_coords(w as int, h as int, idx as int);
    }
    let x = idx % w;
    let y = idx / w;
    let src = tex.pixel_at(idx);
    if x > 0 {
        pad_neighbor(tex, seeded, next, w, h, cov, src, x - 1, y, Ghost(orig), Ghost(seeds));
    }
    if x + 1 < w {
        pad_neighbor(tex, seeded, next, w, h, cov, src, x + 1, y, Ghost(orig), Ghost(seeds));
    }
    if y > 0 {
        pad_neighbor(tex, seeded, next, w, h, cov, src, x, y - 1, Ghost(orig), Ghost(seeds));
    }
    if y + 1 < h {
        pad_neighbor(tex, seeded, next, w, h, cov, src, x, y + 1, Ghost(orig), Ghost(seeds));
    }
}

proof fn lemma_pad_rings_empty(
    pixels: Seq<[u8; 4]>,
    seeded: Seq<bool>,
    w: int,
    h: int,
    cov: Seq<bool>,
    k: nat,
)
    ensures
        pad_rings(pixels, seeded, seq![], w, h, cov, k) == pixels,
    decreases k,
{
    if k > 0 {
        lemma_pad_rings_empty(pixels, seeded, w, h, cov, (k - 1) as nat);
    }
}

} // verus!

verus! {

/// One ring of padding from every texel of `frontier` (see `pad_ring`); returns the texels it
/// filled.
fn pad_one_ring(
    tex: &mut Texture,
    seeded: &mut Vec<bool>,
    w: usize,
    h: usize,
    cov: &Vec<bool>,
    frontier: &Vec<usize>,
    Ghost(orig): Ghost<Seq<[u8; 4]>>,
    Ghost(seeds): Ghost<Seq<bool>>,
) -> (next: Vec<usize>)
    requires
        0 < w,
        0 < h,
        w as int * h as int == old(seeded)@.len(),
        old(seeded)@.len() == cov@.len(),
        old(tex).spec_pixels().len() == cov@.len(),
        old(tex).spec_width() == w,
        pad_keeps(orig, old(tex).spec_pixels(), seeds, cov@),
        seeds.len() == cov@.len(),
        forall|i: int| 0 <= i < seeds.len() && seeds[i] ==> #[trigger] old(seeded)@[i],
    ensures
        final(tex).spec_width() == old(tex).spec_width(),
        final(tex).spec_height() == old(tex).spec_height(),
        (PadState { pixels: final(tex).spec_pixels(), seeded: final(seeded)@, next: next@ }) == pad_ring(
            (PadState { pixels: old(tex).spec_pixels(), seeded: old(seeded)@, next: seq![] }),
            w as int,
            h as int,
            cov@,
            frontier@,
            frontier@.len(),
        ),
        final(seeded)@.len() == old(seeded)@.len(),
        pad_keeps(orig, final(tex).spec_pixels(), seeds, cov@),
        forall|i: int| 0 <= i < seeds.len() && seeds[i] ==> #[trigger] final(seeded)@[i],
{
    let ghost start = PadState { pixels: tex.spec_pixels(), seeded: seeded@, next: seq![] };
    let mut next: Vec<usize> = Vec::new();
    let mut j: usize = 0;
    while j < frontier.len()
        invariant
            0 < w,
            0 < h,
            j <= frontier@.len(),
            w as int * h as int == seeded@.len(),
            seeded@.len() == cov@.len(),
            tex.spec_pixels().len() == cov@.len(),
            tex.spec_width() == w,
            tex.spec_height() == old(tex).spec_height(),
            pad_keeps(orig, tex.spec_pixels(), seeds, cov@),
            seeds.len() == cov@.len(),
            forall|i: int| 0 <= i < seeds.len() && seeds[i] ==> #[trigger] seeded@[i],
            pad_state_of(tex, seeded, &next) == pad_ring(start, w as int, h as int, cov@, frontier@, j as nat),
        decreases frontier.len() - j,
    {
        pad_spread(tex, seeded, &mut next, w, h, cov, frontier[j], Ghost(orig), Ghost(seeds));
        j += 1;
    }
    next
}

fn seeds_from(touched: &Vec<usize>, n: usize) -> (seeded: Vec<bool>)
    ensures
        seeded@ == seeds_of(touched@, n as nat),
{
    let mut seeded: Vec<bool> = Vec::new();
    let mut i: usize = 0;
    while i < n
        invariant
            i <= n,
            seeded@ == Seq::new(i as nat, |k: int| false),
        decreases n - i,
    {
        seeded.push(false);
        proof {
            assert(seeded@ =~= Seq::new((i + 1) as nat, |k: int| false));
        }
        i += 1;
    }
    assert(seeded@ =~= Seq::new(n as nat, |k: int| touched@.take(0).contains(k as usize)));
    let mut j: usize = 0;
    while j < touched.len()
        invariant
            j <= touched@.len(),
            seeded@ == Seq::new(n as nat, |k: int| touched@.take(j as int).contains(k as usize)),
        decreases touched.len() - j,
    {
        let idx = touched[j];
        proof {
            assert(touched@.take(j + 1) =~= touched@.take(j as int).push(idx));
        }
        if idx < n {
            seeded.set(idx, true);
        }
        proof {
            let t = touched@.take(j + 1);
            assert forall|k: int| 0 <= k < n implies #[trigger] seeded@[k] == t.contains(k as usize) by {
                if t.contains(k as usize) && k as usize != idx {
                    let q = choose|q: int| 0 <= q < t.len() && t[q] == k as usize;
                    assert(touched@.take(j as int)[q] == k as usize);
                }
                if touched@.take(j as int).contains(k as usize) {
                    let q = choose|q: int| 0 <= q < j && touched@.take(j as int)[q] == k as usize;
                    assert(t[q] == k as usize);
                }
                if k as usize == idx {
                    assert(t[j as int] == idx);
                }
            }
            assert(seeded@ =~= Seq::new(n as nat, |k: int| t.contains(k as usize)));
        }
        j += 1;
    }
    assert(touched@.take(touched@.len() as int) =~= touched@);
    seeded
}

/// Seam padding: grows painted texels (`touched`, as row-major indices) outward by up to
/// `iterations` rings of texels that lie outside the UV `coverage`, each taking the color of
/// the texel it is reached from (see `padded_pixels`). Painted and covered texels keep their
/// color.
pub fn apply_texture_padding(
    texture: &mut Texture,
    touched: &Vec<usize>,
    coverage: &Vec<bool>,
    iterations: usize,
)
    requires
        ({
            let w = at_least_one(old(texture).spec_width() as nat);
            let h = at_least_one(old(texture).spec_height() as nat);
            ||| old(texture).spec_width() > 0 && old(texture).spec_height() > 0
            ||| iterations == 0
            ||| touched@.len() == 0
            ||| coverage@.len() != w * h
            ||| forall|i: int| 0 <= i < touched@.len() ==> touched@[i] >= w * h
        }),
    ensures
        final(texture).spec_width() == old(texture).spec_width(),
        final(texture).spec_height() == old(texture).spec_height(),
        final(texture).spec_pixels() == padded_pixels(
            old(texture).spec_pixels(),
            old(texture).spec_width() as nat,
            old(texture).spec_height() as nat,
            touched@,
            coverage@,
            iterations as nat,
        ),
        forall|i: int|
            0 <= i < final(texture).spec_pixels().len() && ((0 <= i < coverage@.len() && coverage@[i])
                || touched@.contains(i as usize)) ==> #[trigger] final(texture).spec_pixels()[i]
                == old(texture).spec_pixels()[i],
{
    if iterations == 0 || touched.len() == 0 {
        return;
    }
    let tw = texture.width();
    let th = texture.height();
    let w: usize = if tw == 0 {
        1
    } else {
        tw as usize
    };
    let h: usize = if th == 0 {
        1
    } else {
        th as usize
    };
    let cov_len = coverage.len();
    let total = w.checked_mul(h);
    let total = match total {
        None => return,
        Some(total) => total,
    };
    if coverage.len() != total {
        return;
    }
    let ghost orig = texture.spec_pixels();
    let ghost seeds = seeds_of(touched@, total as nat);
    if tw == 0 || th == 0 {
        // an empty texture: no painted index can lie inside the grid
        proof {
            lemma_pad_ring_outside(
                (PadState { pixels: orig, seeded: seeds, next: seq![] }),
                w as int,
                h as int,
                coverage@,
                touched@,
                touched@.len(),
            );
            lemma_pad_rings_empty(orig, seeds, w as int, h as int, coverage@, (iterations - 1) as nat);
        }
        return;
    }
    let mut seeded = seeds_from(touched, total);
    let mut frontier: Vec<usize> = touched.clone();
    let mut round: usize = 0;
    proof {
        assert(pad_keeps(orig, texture.spec_pixels(), seeds, coverage@));
    }
    while round < iterations && frontier.len() > 0
        invariant
            0 < w,
            0 < h,
            w == tw,
            h == th,
            total == w * h,
            round <= iterations,
            w as int * h as int == seeded@.len(),
            seeded@.len() == coverage@.len(),
            texture.spec_pixels().len() == coverage@.len(),
            texture.spec_width() == tw,
            texture.spec_height() == th,
            pad_keeps(orig, texture.spec_pixels(), seeds, coverage@),
            seeds.len() == coverage@.len(),
            forall|i: int| 0 <= i < seeds.len() && seeds[i] ==> #[trigger] seeded@[i],
            pad_rings(orig, seeds, touched@, w as int, h as int, coverage@, iterations as nat) == pad_rings(
                texture.spec_pixels(),
                seeded@,
                frontier@,
                w as int,
                h as int,
                coverage@,
                (iterations - round) as nat,
            ),
        decreases iterations - round,
    {
        let next = pad_one_ring(texture, &mut seeded, w, h, coverage, &frontier, Ghost(orig), Ghost(seeds));
        frontier = next;
        round += 1;
    }
    proof {
        if frontier@.len() == 0 {
            lemma_pad_rings_empty(
                texture.spec_pixels(),
                seeded@,
                w as int,
                h as int,
                coverage@,
                (iterations - round) as nat,
            );
        }
        assert forall|i: int|
            0 <= i < texture.spec_pixels().len() && ((0 <= i < coverage@.len() && coverage@[i])
                || touched@.contains(i as usize)) implies #[trigger] texture.spec_pixels()[i] == orig[i] by {
            if touched@.contains(i as usize) {
                assert(seeds[i]);
            }
        }
    }
}

/// A ring from texels that all lie outside the grid changes nothing.
proof fn lemma_pad_ring_outside(st: PadState, w: int, h: int, cov: Seq<bool>, frontier: Seq<usize>, n: nat)
    requires
        n <= frontier.len(),
        forall|i: int| 0 <= i < frontier.len() ==> frontier[i] >= w * h,
    ensures
        pad_ring(st, w, h, cov, frontier, n) == st,
    decreases n,
{
    if n > 0 {
        lemma_pad_ring_outside(st, w, h, cov, frontier, (n - 1) as nat);
    }
}

} // verus!

verus! {

/// The texel bounding box of a triangle in UV space, inclusive on both ends.
#[derive(Debug, Clone, Copy, PartialEq, Eq, Structural)]
pub struct TexelBox {
    pub min_x: usize,
    pub max_x: usize,
    pub min_y: usize,
    pub max_y: usize,
}

/// Side of a square tile of texels in the triangle bins.
pub const UV_TILE_SIZE: usize = 32;

pub open spec fn tiles_along(texels: nat) -> nat {
    let t = (texels + 31) / 32;
    if t == 0 {
        1
    } else {
        t as nat
    }
}

/// Whether a triangle with bounding box `b` is filed under tile `(tx, ty)` of a
/// `tiles_w` x `tiles_h` grid: its box is not empty and the tile lies between the tiles of its
/// corners (clamped to the grid).
pub open spec fn box_in_tile(b: Option<TexelBox>, tiles_w: nat, tiles_h: nat, tx: nat, ty: nat) -> bool {
    match b {
        None => false,
        Some(b) => {
            &&& b.min_x <= b.max_x
            &&& b.min_y <= b.max_y
            &&& min_nat(b.min_x as nat / 32, (tiles_w - 1) as nat) <= tx <= min_nat(b.max_x as nat / 32, (tiles_w - 1) as nat)
            &&& min_nat(b.min_y as nat / 32, (tiles_h - 1) as nat) <= ty <= min_nat(b.max_y as nat / 32, (tiles_h - 1) as nat)
        },
    }
}

pub open spec fn min_nat(a: nat, b: nat) -> nat {
    if a <= b {
        a
    } else {
        b
    }
}

/// The ids, in increasing order, of the first `n` triangles filed under tile `(tx, ty)`.
pub open spec fn tile_members(boxes: Seq<Option<TexelBox>>, tiles_w: nat, tiles_h: nat, tx: nat, ty: nat, n: nat) -> Seq<u32>
    decreases n,
{
    if n == 0 {
        seq![]
    } else {
        let before = tile_members(boxes, tiles_w, tiles_h, tx, ty, (n - 1) as nat);
        if box_in_tile(boxes[n - 1], tiles_w, tiles_h, tx, ty) {
            before.push((n - 1) as u32)
        } else {
            before
        }
    }
}

/// How many triangles get an id: ids are `u32`, so at most `u32::MAX + 1`.
pub open spec fn binned_count(n: nat) -> nat {
    min_nat(n, u32::MAX as nat + 1)
}

} // verus!

verus! {

/// What bin `i` holds while triangle `k` is being filed: the earlier triangles filed under it,
/// and `k` too when the tile is one of `k`'s and comes before `(tx, ty)` in row-major order.
spec fn filed_content(boxes: Seq<Option<TexelBox>>, tw: nat, th: nat, i: int, k: nat, tx: nat, ty: nat) -> Seq<u32> {
    let x = (i % tw as int) as nat;
    let y = (i / tw as int) as nat;
    let earlier = tile_members(boxes, tw, th, x, y, k);
    if box_in_tile(boxes[k as int], tw, th, x, y) && (y < ty || (y == ty && x < tx)) {
        earlier.push(k as u32)
    } else {
        earlier
    }
}

/// The bin contents while triangle `k` is being filed: tiles before `(tx, ty)` in row-major
/// order already hold it.
spec fn bins_while_filing(
    bins: Seq<Vec<u32>>,
    boxes: Seq<Option<TexelBox>>,
    tw: nat,
    th: nat,
    k: nat,
    tx: nat,
    ty: nat,
) -> bool {
    &&& bins.len() == tw * th
    &&& forall|i: int|
        0 <= i < tw * th ==> (#[trigger] bins[i])@ == filed_content(boxes, tw, th, i, k, tx, ty)
}

/// Ids in increasing order, each below `n`.
spec fn sorted_ids_below(s: Seq<u32>, n: nat) -> bool {
    &&& forall|a: int, b: int| 0 <= a < b < s.len() ==> s[a] < s[b]
    &&& forall|a: int| 0 <= a < s.len() ==> (s[a] as nat) < n
}

/// Files every triangle under the tiles that its UV bounding box touches (`tri_boxes[i]` is the
/// texel box of triangle `i`, `None` when its corners could not be read). Returns the tile side,
/// the numbers of tiles across and down, and one bin of triangle ids per tile, row-major.
pub fn build_uv_tile_bins(width: usize, height: usize, tri_boxes: &Vec<Option<TexelBox>>) -> (r: (
    usize,
    usize,
    usize,
    Vec<Vec<u32>>,
))
    requires
        width + 32 <= usize::MAX,
        height + 32 <= usize::MAX,
        tiles_along(width as nat) * tiles_along(height as nat) <= usize::MAX,
    ensures
        r.0 == UV_TILE_SIZE,
        r.1 == tiles_along(width as nat),
        r.2 == tiles_along(height as nat),
        r.3@.len() == r.1 * r.2,
        forall|i: int|
            0 <= i < r.3@.len() ==> (#[trigger] r.3@[i])@ == tile_members(
                tri_boxes@,
                r.1 as nat,
                r.2 as nat,
                (i % r.1 as int) as nat,
                (i / r.1 as int) as nat,
                binned_count(tri_boxes@.len()),
            ),
        forall|i: int, a: int, b: int|
            0 <= i < r.3@.len() && 0 <= a < b < r.3@[i]@.len() ==> #[trigger] r.3@[i]@[a] < #[trigger] r.3@[i]@[b],
        forall|i: int, a: int|
            0 <= i < r.3@.len() && 0 <= a < r.3@[i]@.len() ==> (#[trigger] r.3@[i]@[a] as nat) < binned_count(
                tri_boxes@.len(),
            ),
{
    let tile_size: usize = 32;
    let tw0 = (width + tile_size - 1) / tile_size;
    let th0 = (height + tile_size - 1) / tile_size;
    let tiles_w = if tw0 == 0 {
        1
    } else {
        tw0
    };
    let tiles_h = if th0 == 0 {
        1
    } else {
        th0
    };
    let count = tiles_w * tiles_h;
    let ghost tw = tiles_w as nat;
    let ghost th = tiles_h as nat;
    let ghost boxes = tri_boxes@;
    let mut bins: Vec<Vec<u32>> = Vec::new();
    let mut i: usize = 0;
    while i < count
        invariant
            i <= count,
            bins@.len() == i,
            forall|j: int| 0 <= j < i ==> (#[trigger] bins@[j])@ == Seq::<u32>::empty(),
        decreases count - i,
    {
        bins.push(Vec::new());
        i += 1;
    }
    let mut k: usize = 0;
    let n = tri_boxes.len();
    while k < n && k <= u32::MAX as usize
        invariant
            tile_size == 32,
            tiles_w == tw,
            tiles_h == th,
            tw > 0,
            th > 0,
            count == tw * th,
            k <= n,
            n == boxes.len(),
            boxes == tri_boxes@,
            k <= u32::MAX as nat + 1,
            bins_while_filing(bins@, boxes, tw, th, k as nat, 0, 0),
        decreases n - k,
    {
        match tri_boxes[k] {
            None => {
                proof {
                    lemma_filing_skip(bins@, boxes, tw, th, k as nat);
                }
            },
            Some(b) => {
                if b.min_x > b.max_x || b.min_y > b.max_y {
                    proof {
                        lemma_filing_skip(bins@, boxes, tw, th, k as nat);
                    }
                } else {
                    let tx1 = if b.max_x / tile_size < tiles_w - 1 {
                        b.max_x / tile_size
                    } else {
                        tiles_w - 1
                    };
                    let tx0 = if b.min_x / tile_size < tiles_w - 1 {
                        b.min_x / tile_size
                    } else {
                        tiles_w - 1
                    };
                    let ty1 = if b.max_y / tile_size < tiles_h - 1 {
                        b.max_y / tile_size
                    } else {
                        tiles_h - 1
                    };
                    let ty0 = if b.min_y / tile_size < tiles_h - 1 {
                        b.min_y / tile_size
                    } else {
                        tiles_h - 1
                    };
                    assert(tx0 <= tx1 && ty0 <= ty1);
                    let mut ty = ty0;
                    proof {
                        lemma_filing_shift(bins@, boxes, tw, th, k as nat, 0, ty0 as nat, 0, ty0 as nat);
                    }
                    while ty <= ty1
                        invariant
                            tiles_w == tw,
                            tiles_h == th,
                            tw > 0,
                            th > 0,
                            count == tw * th,
                            k < n,
                            n == boxes.len(),
                            boxes[k as int] == Some(b),
                            b.min_x <= b.max_x,
                            b.min_y <= b.max_y,
                            tx0 == min_nat(b.min_x as nat / 32, (tw - 1) as nat),
                            tx1 == min_nat(b.max_x as nat / 32, (tw - 1) as nat),
                            ty0 == min_nat(b.min_y as nat / 32, (th - 1) as nat),
                            ty1 == min_nat(b.max_y as nat / 32, (th - 1) as nat),
                            ty0 <= ty <= ty1 + 1,
                            ty1 < th,
                            tx1 < tw,
                            tx0 <= tx1,
                            k <= u32::MAX,
                            bins_while_filing(bins@, boxes, tw, th, k as nat, 0, ty as nat),
                        decreases ty1 + 1 - ty,
                    {
                        let mut tx = tx0;
                        proof {
                            lemma_filing_shift(bins@, boxes, tw, th, k as nat, 0, ty as nat, tx0 as nat, ty as nat);
                        }
                        while tx <= tx1
                            invariant
                                tiles_w == tw,
                                tiles_h == th,
                                tw > 0,
                                th > 0,
                                count == tw * th,
                                k < n,
                                n == boxes.len(),
                                boxes[k as int] == Some(b),
                                b.min_x <= b.max_x,
                                b.min_y <= b.max_y,
                                tx0 == min_nat(b.min_x as nat / 32, (tw - 1) as nat),
                                tx1 == min_nat(b.max_x as nat / 32, (tw - 1) as nat),
                                ty0 == min_nat(b.min_y as nat / 32, (th - 1) as nat),
                                ty1 == min_nat(b.max_y as nat / 32, (th - 1) as nat),
                                ty0 <= ty <= ty1,
                                ty1 < th,
                                tx1 < tw,
                                tx0 <= tx <= tx1 + 1,
                                k <= u32::MAX,
                                bins_while_filing(bins@, boxes, tw, th, k as nat, tx as nat, ty as nat),
                            decreases tx1 + 1 - tx,
                        {
                            proof {
                                lemma_grid_index(tw as int, th as int, tx as int, ty as int);
                                assert(ty as int * tw as int <= ty as int * tw as int + tx as int);
                            }
                            let t = ty * tiles_w + tx;
                            let ghost before = bins@;
                            bins[t].push(k as u32);
                            proof {
                                lemma_filing_push(before, bins@, boxes, tw, th, k as nat, tx as nat, ty as nat);
                            }
                            tx += 1;
                        }
                        proof {
                            lemma_filing_shift(bins@, boxes, tw, th, k as nat, tx as nat, ty as nat, 0, (ty + 1) as nat);
                        }
                        ty += 1;
                    }
                    proof {
                        lemma_filing_done(bins@, boxes, tw, th, k as nat, ty as nat);
                    }
                }
            },
        }
        k += 1;
    }
    proof {
        if k < n {
            assert(k == u32::MAX + 1);
        }
        assert(binned_count(n as nat) == k);
        assert forall|i: int| 0 <= i < bins@.len() implies sorted_ids_below(#[trigger] bins@[i]@, binned_count(n as nat)) by {
            lemma_tile_members_sorted(
                tri_boxes@,
                tiles_w as nat,
                tiles_h as nat,
                (i % tiles_w as int) as nat,
                (i / tiles_w as int) as nat,
                binned_count(n as nat),
            );
        }
    }
    (tile_size, tiles_w, tiles_h, bins)
}

} // verus!

verus! {

/// A triangle filed under no tile leaves every bin as it was.
proof fn lemma_filing_skip(bins: Seq<Vec<u32>>, boxes: Seq<Option<TexelBox>>, tw: nat, th: nat, k: nat)
    requires
        tw > 0,
        k < boxes.len(),
        bins_while_filing(bins, boxes, tw, th, k, 0, 0),
        boxes[k as int] is None || boxes[k as int]->0.min_x > boxes[k as int]->0.max_x
            || boxes[k as int]->0.min_y > boxes[k as int]->0.max_y,
    ensures
        bins_while_filing(bins, boxes, tw, th, k + 1, 0, 0),
{
    assert forall|i: int| 0 <= i < tw * th implies (#[trigger] bins[i])@ == filed_content(boxes, tw, th, i, k + 1, 0, 0) by {
        lemma_grid_coords(tw as int, th as int, i);
        let tx = (i % tw as int) as nat;
        let ty = (i / tw as int) as nat;
        assert(!box_in_tile(boxes[k as int], tw, th, tx, ty));
        assert(tile_members(boxes, tw, th, tx, ty, k + 1) == tile_members(boxes, tw, th, tx, ty, k));
        assert(bins[i]@ == tile_members(boxes, tw, th, tx, ty, k) + seq![]);
    }
}

/// Moving the filing point between two positions that the triangle's tiles do not lie between.
proof fn lemma_filing_shift(
    bins: Seq<Vec<u32>>,
    boxes: Seq<Option<TexelBox>>,
    tw: nat,
    th: nat,
    k: nat,
    tx: nat,
    ty: nat,
    tx2: nat,
    ty2: nat,
)
    requires
        tw > 0,
        bins_while_filing(bins, boxes, tw, th, k, tx, ty),
        forall|x: nat, y: nat|
            x < tw && y < th && box_in_tile(boxes[k as int], tw, th, x, y) ==> ((y < ty || (y == ty && x < tx))
                <==> (y < ty2 || (y == ty2 && x < tx2))),
    ensures
        bins_while_filing(bins, boxes, tw, th, k, tx2, ty2),
{
    assert forall|i: int| 0 <= i < tw * th implies (#[trigger] bins[i])@ == filed_content(boxes, tw, th, i, k, tx2, ty2) by {
        lemma_grid_coords(tw as int, th as int, i);
        let x = (i % tw as int) as nat;
        let y = (i / tw as int) as nat;
        if box_in_tile(boxes[k as int], tw, th, x, y) {
            assert((y < ty || (y == ty && x < tx)) <==> (y < ty2 || (y == ty2 && x < tx2)));
        }
    }
}

/// Filing the triangle under tile `(tx, ty)`.
proof fn lemma_filing_push(
    before: Seq<Vec<u32>>,
    after: Seq<Vec<u32>>,
    boxes: Seq<Option<TexelBox>>,
    tw: nat,
    th: nat,
    k: nat,
    tx: nat,
    ty: nat,
)
    requires
        tx < tw,
        ty < th,
        box_in_tile(boxes[k as int], tw, th, tx, ty),
        bins_while_filing(before, boxes, tw, th, k, tx, ty),
        after.len() == before.len(),
        after[(ty * tw + tx) as int]@ == before[(ty * tw + tx) as int]@.push(k as u32),
        forall|i: int| 0 <= i < before.len() && i != ty * tw + tx ==> after[i] == before[i],
    ensures
        bins_while_filing(after, boxes, tw, th, k, tx + 1, ty),
{
    lemma_grid_index(tw as int, th as int, tx as int, ty as int);
    let t = ty * tw + tx;
    assert forall|i: int| 0 <= i < tw * th implies (#[trigger] after[i])@ == filed_content(boxes, tw, th, i, k, tx + 1, ty) by {
        lemma_grid_coords(tw as int, th as int, i);
        if i == t {
            assert(before[i]@ == tile_members(boxes, tw, th, tx, ty, k) + seq![]);
            assert(after[i]@ =~= tile_members(boxes, tw, th, tx, ty, k) + seq![k as u32]);
        } else {
            assert(after[i] == before[i]);
            let x = (i % tw as int) as nat;
            let y = (i / tw as int) as nat;
            if y == ty && x == tx {
                lemma_grid_index(tw as int, th as int, x as int, y as int);
            }
        }
    }
}

/// Once every tile of the triangle's box holds it, the bins hold the first `k + 1` triangles.
proof fn lemma_filing_done(bins: Seq<Vec<u32>>, boxes: Seq<Option<TexelBox>>, tw: nat, th: nat, k: nat, ty: nat)
    requires
        tw > 0,
        k < boxes.len(),
        bins_while_filing(bins, boxes, tw, th, k, 0, ty),
        forall|x: nat, y: nat| box_in_tile(boxes[k as int], tw, th, x, y) ==> y < ty,
    ensures
        bins_while_filing(bins, boxes, tw, th, k + 1, 0, 0),
{
    assert forall|i: int| 0 <= i < tw * th implies (#[trigger] bins[i])@ == filed_content(boxes, tw, th, i, k + 1, 0, 0) by {
        lemma_grid_coords(tw as int, th as int, i);
        let x = (i % tw as int) as nat;
        let y = (i / tw as int) as nat;
        if box_in_tile(boxes[k as int], tw, th, x, y) {
            assert(bins[i]@ =~= tile_members(boxes, tw, th, x, y, k + 1) + seq![]);
        } else {
            assert(bins[i]@ =~= tile_members(boxes, tw, th, x, y, k + 1) + seq![]);
        }
    }
}

} // verus!

verus! {

/// Bin `i`, or nothing when there is no such bin.
pub open spec fn bin_at(bins: Seq<Seq<u32>>, i: int) -> Seq<u32> {
    if 0 <= i < bins.len() {
        bins[i]
    } else {
        seq![]
    }
}

/// The bins of tiles `tx0 .. tx` of row `ty`, one after another.
pub open spec fn row_ids(bins: Seq<Seq<u32>>, tw: int, ty: int, tx0: int, tx: int) -> Seq<u32>
    decreases tx - tx0,
{
    if tx <= tx0 {
        seq![]
    } else {
        row_ids(bins, tw, ty, tx0, tx - 1) + bin_at(bins, ty * tw + tx - 1)
    }
}

/// The bins of tiles `tx0 ..= tx1` of rows `ty0 .. ty`, row by row.
pub open spec fn window_ids(bins: Seq<Seq<u32>>, tw: int, tx0: int, tx1: int, ty0: int, ty: int) -> Seq<u32>
    decreases ty - ty0,
{
    if ty <= ty0 {
        seq![]
    } else {
        window_ids(bins, tw, tx0, tx1, ty0, ty - 1) + row_ids(bins, tw, ty - 1, tx0, tx1 + 1)
    }
}

/// The ids of `s` below `limit`, each once, in order of first appearance.
pub open spec fn first_occurrences(s: Seq<u32>, limit: nat) -> Seq<u32>
    decreases s.len(),
{
    if s.len() == 0 {
        seq![]
    } else {
        let before = first_occurrences(s.drop_last(), limit);
        let x = s.last();
        if x >= limit || before.contains(x) {
            before
        } else {
            before.push(x)
        }
    }
}

/// The candidate triangles of a stamp whose texel window is `win`: the triangles filed under the
/// tiles that the window touches (clamped to the grid), row by row, each once, and only ids
/// below `tri_count`. Nothing when there are no bins.
pub open spec fn candidates_in_window(
    bins: Seq<Seq<u32>>,
    tile_size: nat,
    tw: nat,
    th: nat,
    tri_count: nat,
    win: TexelBox,
) -> Seq<u32> {
    if bins.len() == 0 || tile_size == 0 || tw == 0 || th == 0 {
        seq![]
    } else {
        let tx1 = min_nat(win.max_x as nat / tile_size, (tw - 1) as nat);
        let ty1 = min_nat(win.max_y as nat / tile_size, (th - 1) as nat);
        let tx0 = min_nat(win.min_x as nat / tile_size, tx1);
        let ty0 = min_nat(win.min_y as nat / tile_size, ty1);
        first_occurrences(window_ids(bins, tw as int, tx0 as int, tx1 as int, ty0 as int, (ty1 + 1) as int), tri_count)
    }
}

pub open spec fn bin_views(bins: Seq<Vec<u32>>) -> Seq<Seq<u32>> {
    bins.map_values(|b: Vec<u32>| b@)
}

/// What the paint pipeline keeps about a mesh at one texture size: which texels the UV layout
/// covers, and the triangles filed under each tile of texels.
pub struct UvCoverageCache {
    width: usize,
    height: usize,
    mesh_signature: u64,
    covered: Vec<bool>,
    tile_size: usize,
    tiles_w: usize,
    tiles_h: usize,
    tri_bins: Vec<Vec<u32>>,
    tri_marks: Vec<u32>,
    tri_mark_epoch: u32,
    tri_scratch: Vec<u32>,
}

impl Default for UvCoverageCache {
    fn default() -> (c: Self)
        ensures
            c.wf(),
            c.spec_width() == 0,
            c.spec_height() == 0,
            c.spec_signature() == 0,
            c.spec_covered() == Seq::<bool>::empty(),
            c.spec_bins() == Seq::<Seq<u32>>::empty(),
            c.spec_tri_count() == 0,
    {
        UvCoverageCache {
            width: 0,
            height: 0,
            mesh_signature: 0,
            covered: Vec::new(),
            tile_size: 0,
            tiles_w: 0,
            tiles_h: 0,
            tri_bins: Vec::new(),
            tri_marks: Vec::new(),
            tri_mark_epoch: 0,
            tri_scratch: Vec::new(),
        }
    }
}

impl UvCoverageCache {
    /// The bins form the tile grid, and no triangle is marked with an epoch still to come.
    pub closed spec fn wf(&self) -> bool {
        &&& self.tri_bins@.len() == self.tiles_w as nat * self.tiles_h as nat
        &&& forall|i: int| 0 <= i < self.tri_marks@.len() ==> #[trigger] self.tri_marks@[i] <= self.tri_mark_epoch
    }

    pub closed spec fn spec_width(&self) -> usize {
        self.width
    }

    pub closed spec fn spec_height(&self) -> usize {
        self.height
    }

    pub closed spec fn spec_signature(&self) -> u64 {
        self.mesh_signature
    }

    pub closed spec fn spec_covered(&self) -> Seq<bool> {
        self.covered@
    }

    pub closed spec fn spec_tile_size(&self) -> usize {
        self.tile_size
    }

    pub closed spec fn spec_tiles_w(&self) -> usize {
        self.tiles_w
    }

    pub closed spec fn spec_tiles_h(&self) -> usize {
        self.tiles_h
    }

    pub closed spec fn spec_bins(&self) -> Seq<Seq<u32>> {
        bin_views(self.tri_bins@)
    }

    /// How many triangles the cache was built for.
    pub closed spec fn spec_tri_count(&self) -> nat {
        self.tri_marks@.len()
    }

    /// The candidates of the last gathering.
    pub closed spec fn spec_scratch(&self) -> Seq<u32> {
        self.tri_scratch@
    }

    /// Whether the cache must be rebuilt for a mesh with `signature` painted at `width` x
    /// `height`: unless it was built for exactly these and holds its bins.
    pub open spec fn stale_for(&self, signature: u64, width: usize, height: usize) -> bool {
        !(self.spec_width() == width && self.spec_height() == height && self.spec_signature() == signature
            && self.spec_covered().len() == width as nat * height as nat && self.spec_bins().len() > 0)
    }

    pub fn width(&self) -> (w: usize)
        ensures
            w == self.spec_width(),
    {
        self.width
    }

    pub fn height(&self) -> (h: usize)
        ensures
            h == self.spec_height(),
    {
        self.height
    }

    /// The texels that some triangle of the UV layout covers, row-major.
    pub fn coverage(&self) -> (c: &Vec<bool>)
        ensures
            c@ == self.spec_covered(),
    {
        &self.covered
    }

    /// Whether the cache must be rebuilt for a mesh with `signature` painted at `width` x
    /// `height`: it must unless it was built for exactly these and holds its bins.
    pub fn needs_rebuild(&self, signature: u64, width: usize, height: usize) -> (r: bool)
        ensures
            r == self.stale_for(signature, width, height),
    {
        let clen = self.covered.len();
        let same_size = match width.checked_mul(height) {
            Some(n) => clen == n,
            None => false,
        };
        assert(self.spec_bins().len() == self.tri_bins@.len());
        !(self.width == width && self.height == height && self.mesh_signature == signature && same_size
            && self.tri_bins.len() > 0)
    }

    /// Rebuilds the cache for a mesh with `signature` painted at `width` x `height`: keeps the
    /// coverage map and files the triangles (by their texel boxes) into tile bins; no triangle is
    /// marked.
    pub fn rebuild(
        &mut self,
        signature: u64,
        width: usize,
        height: usize,
        covered: Vec<bool>,
        tri_boxes: &Vec<Option<TexelBox>>,
    )
        requires
            width + 32 <= usize::MAX,
            height + 32 <= usize::MAX,
            tiles_along(width as nat) * tiles_along(height as nat) <= usize::MAX,
        ensures
            final(self).wf(),
            final(self).spec_width() == width,
            final(self).spec_height() == height,
            final(self).spec_signature() == signature,
            final(self).spec_covered() == covered@,
            final(self).spec_tile_size() == UV_TILE_SIZE,
            final(self).spec_tiles_w() == tiles_along(width as nat),
            final(self).spec_tiles_h() == tiles_along(height as nat),
            final(self).spec_bins().len() == tiles_along(width as nat) * tiles_along(height as nat),
            forall|i: int|
                0 <= i < final(self).spec_bins().len() ==> #[trigger] final(self).spec_bins()[i] == tile_members(
                    tri_boxes@,
                    tiles_along(width as nat),
                    tiles_along(height as nat),
                    (i % tiles_along(width as nat) as int) as nat,
                    (i / tiles_along(width as nat) as int) as nat,
                    binned_count(tri_boxes@.len()),
                ),
            final(self).spec_tri_count() == tri_boxes@.len(),
            final(self).spec_scratch() == Seq::<u32>::empty(),
            covered@.len() == width as nat * height as nat ==> !final(self).stale_for(signature, width, height),
    {
        let (tile_size, tiles_w, tiles_h, tri_bins) = build_uv_tile_bins(width, height, tri_boxes);
        let tri_count = tri_boxes.len();
        let mut marks: Vec<u32> = Vec::new();
        let mut i: usize = 0;
        while i < tri_count
            invariant
                i <= tri_count,
                marks@ == Seq::new(i as nat, |k: int| 0u32),
            decreases tri_count - i,
        {
            marks.push(0);
            proof {
                assert(marks@ =~= Seq::new((i + 1) as nat, |k: int| 0u32));
            }
            i += 1;
        }
        self.covered = covered;
        self.tile_size = tile_size;
        self.tiles_w = tiles_w;
        self.tiles_h = tiles_h;
        self.tri_bins = tri_bins;
        self.tri_marks = marks;
        self.tri_mark_epoch = 1;
        self.tri_scratch = Vec::new();
        self.width = width;
        self.height = height;
        self.mesh_signature = signature;
        proof {
            if covered@.len() == width as nat * height as nat {
                lemma_rebuilt_cache_is_current(*self, signature, width, height, signature, width, height);
            }
        }
    }
}

} // verus!

verus! {

proof fn lemma_first_occurrences_step(seen: Seq<u32>, x: u32, limit: nat)
    ensures
        first_occurrences(seen.push(x), limit) == (if x >= limit || first_occurrences(seen, limit).contains(x) {
            first_occurrences(seen, limit)
        } else {
            first_occurrences(seen, limit).push(x)
        }),
{
    assert(seen.push(x).drop_last() =~= seen);
}

/// The marks of this gathering: the triangles marked with `mark` are those gathered so far.
spec fn marks_agree(marks: Seq<u32>, mark: u32, scratch: Seq<u32>) -> bool {
    &&& forall|i: int| 0 <= i < marks.len() ==> #[trigger] marks[i] <= mark
    &&& forall|i: int|
        0 <= i < marks.len() ==> (#[trigger] marks[i] == mark <==> (i <= u32::MAX && scratch.contains(
            i as u32,
        )))
    &&& forall|k: int| 0 <= k < scratch.len() ==> (#[trigger] scratch[k] as int) < marks.len()
}

impl UvCoverageCache {
    /// Everything but the marks and the scratch list is the same in `self` and `other`.
    spec fn same_frame(&self, other: &Self) -> bool {
        &&& self.width == other.width
        &&& self.height == other.height
        &&& self.mesh_signature == other.mesh_signature
        &&& self.covered@ == other.covered@
        &&& self.tile_size == other.tile_size
        &&& self.tiles_w == other.tiles_w
        &&& self.tiles_h == other.tiles_h
        &&& self.tri_bins@ == other.tri_bins@
    }
}

impl UvCoverageCache {
    /// Gathers the candidate triangles of a stamp whose texel window is `window` (see
    /// `candidates_in_window`), using per-triangle marks so that each comes once.
    pub fn gather_candidate_triangles(&mut self, window: TexelBox) -> (r: Vec<u32>)
        requires
            old(self).wf(),
        ensures
            final(self).wf(),
            final(self).spec_width() == old(self).spec_width(),
            final(self).spec_height() == old(self).spec_height(),
            final(self).spec_signature() == old(self).spec_signature(),
            final(self).spec_covered() == old(self).spec_covered(),
            final(self).spec_tile_size() == old(self).spec_tile_size(),
            final(self).spec_tiles_w() == old(self).spec_tiles_w(),
            final(self).spec_tiles_h() == old(self).spec_tiles_h(),
            final(self).spec_bins() == old(self).spec_bins(),
            final(self).spec_tri_count() == old(self).spec_tri_count(),
            final(self).spec_scratch() == r@,
            r@ == candidates_in_window(
                old(self).spec_bins(),
                old(self).spec_tile_size() as nat,
                old(self).spec_tiles_w() as nat,
                old(self).spec_tiles_h() as nat,
                old(self).spec_tri_count(),
                window,
            ),
    {
        let ghost bins = bin_views(self.tri_bins@);
        self.tri_scratch.clear();
        if self.tri_bins.len() == 0 || self.tile_size == 0 || self.tiles_w == 0 || self.tiles_h == 0 {
            return Vec::new();
        }
        let ts = self.tile_size;
        let tw = self.tiles_w;
        let th = self.tiles_h;
        let nbins = self.tri_bins.len();
        if self.tri_mark_epoch == u32::MAX {
            let n = self.tri_marks.len();
            let mut i: usize = 0;
            while i < n
                invariant
                    i <= n,
                    n == self.tri_marks@.len(),
                    self.tri_scratch@ == Seq::<u32>::empty(),
                    self.same_frame(old(self)),
                    forall|k: int| 0 <= k < i ==> #[trigger] self.tri_marks@[k] == 0,
                decreases n - i,
            {
                self.tri_marks.set(i, 0);
                i += 1;
            }
            self.tri_mark_epoch = 1;
        } else {
            self.tri_mark_epoch = self.tri_mark_epoch + 1;
        }
        let mark = self.tri_mark_epoch;
        let ghost limit = self.tri_marks@.len();
        let tx1 = if window.max_x / ts < tw - 1 {
            window.max_x / ts
        } else {
            tw - 1
        };
        let ty1 = if window.max_y / ts < th - 1 {
            window.max_y / ts
        } else {
            th - 1
        };
        let tx0 = if window.min_x / ts < tx1 {
            window.min_x / ts
        } else {
            tx1
        };
        let ty0 = if window.min_y / ts < ty1 {
            window.min_y / ts
        } else {
            ty1
        };
        let ghost mut seen: Seq<u32> = seq![];
        proof {
            assert forall|i: int| 0 <= i < self.tri_marks@.len() implies (#[trigger] self.tri_marks@[i]
                == mark <==> (i <= u32::MAX && self.tri_scratch@.contains(i as u32))) by {
                assert(self.tri_marks@[i] < mark);
            }
        }
        let mut ty = ty0;
        while ty <= ty1
            invariant
                0 < tw,
                0 < th,
                ty0 <= ty <= ty1 + 1,
                ty1 < th,
                tx0 <= tx1 < tw,
                self.tri_bins@.len() == tw as nat * th as nat,
                nbins == self.tri_bins@.len(),
                bins == bin_views(self.tri_bins@),
                tw == self.tiles_w,
                self.same_frame(old(self)),
                self.tri_marks@.len() == limit,
                self.tri_mark_epoch == mark,
                marks_agree(self.tri_marks@, mark, self.tri_scratch@),
                seen == window_ids(bins, tw as int, tx0 as int, tx1 as int, ty0 as int, ty as int),
                self.tri_scratch@ == first_occurrences(seen, limit),
            decreases ty1 + 1 - ty,
        {
            let mut tx = tx0;
            while tx <= tx1
                invariant
                    0 < tw,
                    0 < th,
                    ty0 <= ty <= ty1,
                    ty1 < th,
                    tx0 <= tx <= tx1 + 1,
                    tx1 < tw,
                    self.tri_bins@.len() == tw as nat * th as nat,
                    nbins == self.tri_bins@.len(),
                    bins == bin_views(self.tri_bins@),
                    tw == self.tiles_w,
                    self.same_frame(old(self)),
                    self.tri_marks@.len() == limit,
                    self.tri_mark_epoch == mark,
                    marks_agree(self.tri_marks@, mark, self.tri_scratch@),
                    seen == window_ids(bins, tw as int, tx0 as int, tx1 as int, ty0 as int, ty as int)
                        + row_ids(bins, tw as int, ty as int, tx0 as int, tx as int),
                    self.tri_scratch@ == first_occurrences(seen, limit),
                decreases tx1 + 1 - tx,
            {
                proof {
                    lemma_grid_index(tw as int, th as int, tx as int, ty as int);
                    assert(ty as int * tw as int <= ty as int * tw as int + tx as int);
                }
                let tile_idx = ty * tw + tx;
                let ghost before_tile = seen;
                let blen = self.tri_bins[tile_idx].len();
                let mut j: usize = 0;
                while j < blen
                    invariant
                        tile_idx < self.tri_bins@.len(),
                        blen == self.tri_bins@[tile_idx as int]@.len(),
                        j <= blen,
                        bins == bin_views(self.tri_bins@),
                        self.same_frame(old(self)),
                        self.tri_marks@.len() == limit,
                        self.tri_mark_epoch == mark,
                        marks_agree(self.tri_marks@, mark, self.tri_scratch@),
                        seen == before_tile + self.tri_bins@[tile_idx as int]@.take(j as int),
                        self.tri_scratch@ == first_occurrences(seen, limit),
                    decreases blen - j,
                {
                    let tri_id = self.tri_bins[tile_idx][j];
                    let tid = tri_id as usize;
                    proof {
                        lemma_first_occurrences_step(seen, tri_id, limit);
                        assert(self.tri_bins@[tile_idx as int]@.take(j + 1) =~= self.tri_bins@[tile_idx as int]@.take(
                            j as int,
                        ).push(tri_id));
                    }
                    if tid < self.tri_marks.len() && self.tri_marks[tid] != mark {
                        let ghost old_scratch = self.tri_scratch@;
                        let ghost old_marks = self.tri_marks@;
                        self.tri_marks.set(tid, mark);
                        self.tri_scratch.push(tri_id);
                        proof {
                            assert forall|i: int| 0 <= i < self.tri_marks@.len() implies (#[trigger] self.tri_marks@[i]
                                == mark <==> (i <= u32::MAX && self.tri_scratch@.contains(i as u32))) by {
                                if i != tid as int {
                                    if i <= u32::MAX {
                                        assert(i as u32 != tri_id);
                                    }
                                    assert(self.tri_marks@[i] == old_marks[i]);
                                    if i <= u32::MAX && self.tri_scratch@.contains(i as u32) {
                                        let k = choose|k: int| 0 <= k < self.tri_scratch@.len() && self.tri_scratch@[k] == i as u32;
                                        if k < old_scratch.len() {
                                            assert(old_scratch[k] == i as u32);
                                        }
                                    }
                                    if i <= u32::MAX && old_scratch.contains(i as u32) {
                                        let k = choose|k: int| 0 <= k < old_scratch.len() && old_scratch[k] == i as u32;
                                        assert(self.tri_scratch@[k] == i as u32);
                                    }
                                } else {
                                    assert(self.tri_scratch@[old_scratch.len() as int] == tri_id);
                                }
                            }
                            assert(!old_scratch.contains(tri_id));
                        }
                    } else {
                        proof {
                            if tid < self.tri_marks@.len() {
                                assert(self.tri_marks@[tid as int] == mark);
                            }
                        }
                    }
                    proof {
                        seen = seen.push(tri_id);
                    }
                    j += 1;
                }
                proof {
                    assert(self.tri_bins@[tile_idx as int]@.take(blen as int) =~= self.tri_bins@[tile_idx as int]@);
                    assert(bins[tile_idx as int] == self.tri_bins@[tile_idx as int]@);
                    assert(bin_at(bins, ty as int * tw as int + tx as int) == self.tri_bins@[tile_idx as int]@);
                    assert(row_ids(bins, tw as int, ty as int, tx0 as int, tx + 1) == row_ids(
                        bins,
                        tw as int,
                        ty as int,
                        tx0 as int,
                        tx as int,
                    ) + bin_at(bins, ty as int * tw as int + tx as int));
                    assert(seen =~= window_ids(bins, tw as int, tx0 as int, tx1 as int, ty0 as int, ty as int)
                        + row_ids(bins, tw as int, ty as int, tx0 as int, tx + 1));
                }
                tx += 1;
            }
            proof {
                assert(window_ids(bins, tw as int, tx0 as int, tx1 as int, ty0 as int, ty + 1) == window_ids(
                    bins,
                    tw as int,
                    tx0 as int,
                    tx1 as int,
                    ty0 as int,
                    ty as int,
                ) + row_ids(bins, tw as int, ty as int, tx0 as int, tx1 + 1));
            }
            ty += 1;
        }
        let n = self.tri_scratch.len();
        let mut out: Vec<u32> = Vec::new();
        let mut k: usize = 0;
        while k < n
            invariant
                k <= n,
                n == self.tri_scratch@.len(),
                out@ == self.tri_scratch@.take(k as int),
                self.same_frame(old(self)),
                self.tri_mark_epoch == mark,
                marks_agree(self.tri_marks@, mark, self.tri_scratch@),
                self.tri_scratch@ == first_occurrences(seen, limit),
                self.tri_marks@.len() == limit,
                bins == bin_views(self.tri_bins@),
            decreases n - k,
        {
            out.push(self.tri_scratch[k]);
            proof {
                assert(self.tri_scratch@.take(k + 1) =~= self.tri_scratch@.take(k as int).push(self.tri_scratch@[k as int]));
            }
            k += 1;
        }
        assert(self.tri_scratch@.take(n as int) =~= self.tri_scratch@);
        out
    }
}

} // verus!

verus! {

proof fn lemma_first_occurrences_distinct(s: Seq<u32>, limit: nat)
    ensures
        forall|i: int| 0 <= i < first_occurrences(s, limit).len() ==> (#[trigger] first_occurrences(s, limit)[i] as nat) < limit,
        forall|i: int, j: int|
            0 <= i < j < first_occurrences(s, limit).len() ==> first_occurrences(s, limit)[i] != first_occurrences(s, limit)[j],
    decreases s.len(),
{
    if s.len() > 0 {
        lemma_first_occurrences_distinct(s.drop_last(), limit);
        let before = first_occurrences(s.drop_last(), limit);
        let x = s.last();
        if !(x >= limit || before.contains(x)) {
            let after = before.push(x);
            assert forall|i: int, j: int| 0 <= i < j < after.len() implies after[i] != after[j] by {
                if j == before.len() {
                    assert(after[i] == before[i]);
                }
            }
        }
    }
}

/// The candidates of a stamp are triangles of the mesh (ids below the triangle count), each
/// named once.
pub proof fn lemma_candidates_distinct(bins: Seq<Seq<u32>>, tile_size: nat, tw: nat, th: nat, tri_count: nat, win: TexelBox)
    ensures
        forall|i: int|
            0 <= i < candidates_in_window(bins, tile_size, tw, th, tri_count, win).len() ==> (
            #[trigger] candidates_in_window(bins, tile_size, tw, th, tri_count, win)[i] as nat) < tri_count,
        forall|i: int, j: int|
            0 <= i < j < candidates_in_window(bins, tile_size, tw, th, tri_count, win).len()
                ==> candidates_in_window(bins, tile_size, tw, th, tri_count, win)[i] != candidates_in_window(
                bins,
                tile_size,
                tw,
                th,
                tri_count,
                win,
            )[j],
{
    if !(bins.len() == 0 || tile_size == 0 || tw == 0 || th == 0) {
        let tx1 = min_nat(win.max_x as nat / tile_size, (tw - 1) as nat);
        let ty1 = min_nat(win.max_y as nat / tile_size, (th - 1) as nat);
        let tx0 = min_nat(win.min_x as nat / tile_size, tx1);
        let ty0 = min_nat(win.min_y as nat / tile_size, ty1);
        lemma_first_occurrences_distinct(
            window_ids(bins, tw as int, tx0 as int, tx1 as int, ty0 as int, (ty1 + 1) as int),
            tri_count,
        );
    }
}

} // verus!

verus! {

/// A tile's bin lists its triangles in increasing id order, so none twice, and every id in it
/// belongs to a triangle whose box reaches the tile.
pub proof fn lemma_tile_members_sorted(boxes: Seq<Option<TexelBox>>, tiles_w: nat, tiles_h: nat, tx: nat, ty: nat, n: nat)
    requires
        n <= u32::MAX as nat + 1,
        n <= boxes.len(),
    ensures
        forall|i: int, j: int|
            0 <= i < j < tile_members(boxes, tiles_w, tiles_h, tx, ty, n).len() ==> tile_members(
                boxes,
                tiles_w,
                tiles_h,
                tx,
                ty,
                n,
            )[i] < tile_members(boxes, tiles_w, tiles_h, tx, ty, n)[j],
        forall|i: int|
            0 <= i < tile_members(boxes, tiles_w, tiles_h, tx, ty, n).len() ==> {
                let id = #[trigger] tile_members(boxes, tiles_w, tiles_h, tx, ty, n)[i];
                &&& (id as nat) < n
                &&& box_in_tile(boxes[id as int], tiles_w, tiles_h, tx, ty)
            },
    decreases n,
{
    if n > 0 {
        lemma_tile_members_sorted(boxes, tiles_w, tiles_h, tx, ty, (n - 1) as nat);
        let before = tile_members(boxes, tiles_w, tiles_h, tx, ty, (n - 1) as nat);
        if box_in_tile(boxes[n - 1], tiles_w, tiles_h, tx, ty) {
            let after = before.push((n - 1) as u32);
            assert forall|i: int, j: int| 0 <= i < j < after.len() implies after[i] < after[j] by {
                if j == before.len() {
                    assert(after[i] == before[i]);
                }
            }
            assert forall|i: int| 0 <= i < after.len() implies {
                let id = #[trigger] after[i];
                &&& (id as nat) < n
                &&& box_in_tile(boxes[id as int], tiles_w, tiles_h, tx, ty)
            } by {
                if i < before.len() {
                    assert(after[i] == before[i]);
                }
            }
        }
    }
}

} // verus!

verus! {

/// A cache rebuilt for a mesh and a texture size, with one coverage entry per texel, stays
/// current for them: only another mesh or another size makes it stale.
pub proof fn lemma_rebuilt_cache_is_current(
    c: UvCoverageCache,
    signature: u64,
    width: usize,
    height: usize,
    other_signature: u64,
    other_width: usize,
    other_height: usize,
)
    requires
        c.spec_width() == width,
        c.spec_height() == height,
        c.spec_signature() == signature,
        c.spec_covered().len() == width as nat * height as nat,
        c.spec_bins().len() == tiles_along(width as nat) * tiles_along(height as nat),
    ensures
        !c.stale_for(signature, width, height),
        (other_signature != signature || other_width != width || other_height != height) ==> c.stale_for(
            other_signature,
            other_width,
            other_height,
        ),
{
    assert(tiles_along(width as nat) >= 1 && tiles_along(height as nat) >= 1);
    assert(tiles_along(width as nat) * tiles_along(height as nat) >= 1) by (nonlinear_arith)
        requires
            tiles_along(width as nat) >= 1,
            tiles_along(height as nat) >= 1,
    ;
}

} // verus!

verus! {

/// Grid sizes agree: `w` x `h` texels, one pixel, one seed flag and one coverage entry each.
spec fn pad_sized(st: PadState, w: int, h: int, cov: Seq<bool>) -> bool {
    &&& 0 < w
    &&& 0 < h
    &&& st.pixels.len() == w * h
    &&& st.seeded.len() == w * h
    &&& cov.len() == w * h
}

/// A padding step keeps the sizes, never unfills a texel nor changes a filled one, and fills
/// every texel whose color it changes.
spec fn pad_step_ok(a: PadState, b: PadState, w: int, h: int, cov: Seq<bool>) -> bool {
    &&& pad_sized(b, w, h, cov)
    &&& forall|i: int| 0 <= i < w * h && a.seeded[i] ==> #[trigger] b.seeded[i] && b.pixels[i] == a.pixels[i]
    &&& forall|i: int| 0 <= i < w * h && #[trigger] b.pixels[i] != a.pixels[i] ==> b.seeded[i]
}

proof fn lemma_pad_into_ok(st: PadState, w: int, h: int, cov: Seq<bool>, src: [u8; 4], nx: int, ny: int)
    requires
        pad_sized(st, w, h, cov),
    ensures
        pad_step_ok(st, pad_into(st, w, h, cov, src, nx, ny), w, h, cov),
{
    if !(nx < 0 || ny < 0 || nx >= w || ny >= h) {
        lemma_grid_index(w, h, nx, ny);
    }
}

proof fn lemma_pad_step_chain(a: PadState, b: PadState, c: PadState, w: int, h: int, cov: Seq<bool>)
    requires
        pad_sized(a, w, h, cov),
        pad_step_ok(a, b, w, h, cov),
        pad_step_ok(b, c, w, h, cov),
    ensures
        pad_step_ok(a, c, w, h, cov),
{
    assert forall|i: int| 0 <= i < w * h && #[trigger] c.pixels[i] != a.pixels[i] implies c.seeded[i] by {
        if c.pixels[i] == b.pixels[i] {
            assert(b.seeded[i]);
        }
    }
}

proof fn lemma_pad_from_ok(st: PadState, w: int, h: int, cov: Seq<bool>, idx: usize)
    requires
        pad_sized(st, w, h, cov),
    ensures
        pad_step_ok(st, pad_from(st, w, h, cov, idx), w, h, cov),
{
    if idx < w * h {
        let x = idx as int % w;
        let y = idx as int / w;
        let src = st.pixels[idx as int];
        let s1 = pad_into(st, w, h, cov, src, x - 1, y);
        let s2 = pad_into(s1, w, h, cov, src, x + 1, y);
        let s3 = pad_into(s2, w, h, cov, src, x, y - 1);
        let s4 = pad_into(s3, w, h, cov, src, x, y + 1);
        lemma_pad_into_ok(st, w, h, cov, src, x - 1, y);
        lemma_pad_into_ok(s1, w, h, cov, src, x + 1, y);
        lemma_pad_into_ok(s2, w, h, cov, src, x, y - 1);
        lemma_pad_into_ok(s3, w, h, cov, src, x, y + 1);
        lemma_pad_step_chain(st, s1, s2, w, h, cov);
        lemma_pad_step_chain(st, s2, s3, w, h, cov);
        lemma_pad_step_chain(st, s3, s4, w, h, cov);
    } else {
    }
}

proof fn lemma_pad_ring_ok(st: PadState, w: int, h: int, cov: Seq<bool>, frontier: Seq<usize>, n: nat)
    requires
        pad_sized(st, w, h, cov),
        n <= frontier.len(),
    ensures
        pad_step_ok(st, pad_ring(st, w, h, cov, frontier, n), w, h, cov),
    decreases n,
{
    if n > 0 {
        let prev = pad_ring(st, w, h, cov, frontier, (n - 1) as nat);
        lemma_pad_ring_ok(st, w, h, cov, frontier, (n - 1) as nat);
        lemma_pad_from_ok(prev, w, h, cov, frontier[n - 1]);
        lemma_pad_step_chain(st, prev, pad_ring(st, w, h, cov, frontier, n), w, h, cov);
    }
}

/// Texels already filled or painted keep their color through any number of rings.
proof fn lemma_pad_rings_keep_seeded(
    pixels: Seq<[u8; 4]>,
    seeded: Seq<bool>,
    frontier: Seq<usize>,
    w: int,
    h: int,
    cov: Seq<bool>,
    k: nat,
    i: int,
)
    requires
        pad_sized(PadState { pixels, seeded, next: seq![] }, w, h, cov),
        0 <= i < w * h,
        seeded[i],
    ensures
        pad_rings(pixels, seeded, frontier, w, h, cov, k)[i] == pixels[i],
    decreases k,
{
    if k > 0 {
        let st0 = PadState { pixels, seeded, next: seq![] };
        let st = pad_ring(st0, w, h, cov, frontier, frontier.len());
        lemma_pad_ring_ok(st0, w, h, cov, frontier, frontier.len());
        assert(st.seeded[i] && st.pixels[i] == pixels[i]);
        lemma_pad_rings_keep_seeded(st.pixels, st.seeded, st.next, w, h, cov, (k - 1) as nat, i);
    }
}

proof fn lemma_pad_rings_grow(
    pixels: Seq<[u8; 4]>,
    seeded: Seq<bool>,
    frontier: Seq<usize>,
    w: int,
    h: int,
    cov: Seq<bool>,
    k1: nat,
    k2: nat,
    i: int,
)
    requires
        pad_sized(PadState { pixels, seeded, next: seq![] }, w, h, cov),
        k1 <= k2,
        0 <= i < w * h,
        pad_rings(pixels, seeded, frontier, w, h, cov, k1)[i] != pixels[i],
    ensures
        pad_rings(pixels, seeded, frontier, w, h, cov, k2)[i] == pad_rings(pixels, seeded, frontier, w, h, cov, k1)[i],
    decreases k1,
{
    if k1 > 0 {
        let st0 = PadState { pixels, seeded, next: seq![] };
        let st = pad_ring(st0, w, h, cov, frontier, frontier.len());
        lemma_pad_ring_ok(st0, w, h, cov, frontier, frontier.len());
        let a = pad_rings(st.pixels, st.seeded, st.next, w, h, cov, (k1 - 1) as nat);
        if a[i] != st.pixels[i] {
            lemma_pad_rings_grow(st.pixels, st.seeded, st.next, w, h, cov, (k1 - 1) as nat, (k2 - 1) as nat, i);
        } else {
            assert(st.pixels[i] != pixels[i]);
            assert(st.seeded[i]);
            lemma_pad_rings_keep_seeded(st.pixels, st.seeded, st.next, w, h, cov, (k1 - 1) as nat, i);
            lemma_pad_rings_keep_seeded(st.pixels, st.seeded, st.next, w, h, cov, (k2 - 1) as nat, i);
        }
    }
}

/// More rings of padding reach farther: every texel that padding with `k1` rings changes,
/// padding with `k2 >= k1` rings changes too, to the same color.
pub proof fn lemma_padding_grows_with_rings(
    pixels: Seq<[u8; 4]>,
    width: nat,
    height: nat,
    touched: Seq<usize>,
    cov: Seq<bool>,
    k1: nat,
    k2: nat,
)
    requires
        k1 <= k2,
        pixels.len() == at_least_one(width) * at_least_one(height),
    ensures
        forall|i: int|
            0 <= i < pixels.len() && #[trigger] padded_pixels(pixels, width, height, touched, cov, k1)[i] != pixels[i]
                ==> padded_pixels(pixels, width, height, touched, cov, k2)[i] == padded_pixels(
                pixels,
                width,
                height,
                touched,
                cov,
                k1,
            )[i],
{
    let w = at_least_one(width);
    let h = at_least_one(height);
    if !(k1 == 0 || touched.len() == 0 || cov.len() != w * h) {
        let seeds = seeds_of(touched, w * h);
        assert forall|i: int|
            0 <= i < pixels.len() && #[trigger] padded_pixels(pixels, width, height, touched, cov, k1)[i]
                != pixels[i] implies padded_pixels(pixels, width, height, touched, cov, k2)[i] == padded_pixels(
            pixels,
            width,
            height,
            touched,
            cov,
            k1,
        )[i] by {
            lemma_pad_rings_grow(pixels, seeds, touched, w as int, h as int, cov, k1, k2, i);
        }
    }
}

} // verus!

verus! {

/// Whether texels `i` and `j` of a `w`-wide, `h`-high grid are side by side (left, right,
/// above or below).
pub open spec fn grid_neighbors(w: int, h: int, i: int, j: int) -> bool {
    &&& 0 <= i < w * h
    &&& 0 <= j < w * h
    &&& ((i / w == j / w && (j % w == i % w - 1 || j % w == i % w + 1)) || (i % w == j % w && (j / w == i / w - 1
        || j / w == i / w + 1)))
}

/// Whether seam padding reaches texel `i` of a `w` x `h` grid within `k` rings: `i` is a seed,
/// or it lies outside the coverage beside (left, right, above or below) a texel reached within
/// `k - 1` rings.
pub open spec fn pad_reach(seeds: Seq<bool>, w: int, h: int, cov: Seq<bool>, k: nat, i: int) -> bool
    decreases k,
{
    0 <= i < w * h && (seeds[i] || (k > 0 && (pad_reach(seeds, w, h, cov, (k - 1) as nat, i) || (!cov[i] && (
    (i % w > 0 && pad_reach(seeds, w, h, cov, (k - 1) as nat, i - 1)) || (i % w < w - 1 && pad_reach(
        seeds,
        w,
        h,
        cov,
        (k - 1) as nat,
        i + 1,
    )) || (i / w > 0 && pad_reach(seeds, w, h, cov, (k - 1) as nat, i - w)) || (i / w < h - 1 && pad_reach(
        seeds,
        w,
        h,
        cov,
        (k - 1) as nat,
        i + w,
    )))))))
}

/// Stepping from texel `j` to a grid neighbour `i`.
proof fn lemma_neighbor_offsets(w: int, h: int, j: int, i: int)
    requires
        0 < w,
        grid_neighbors(w, h, j, i),
    ensures
        (i % w > 0 && j == i - 1) || (i % w < w - 1 && j == i + 1) || (i / w > 0 && j == i - w) || (i / w < h - 1
            && j == i + w),
{
    lemma_grid_coords(w, h, i);
    lemma_grid_coords(w, h, j);
    let a = i / w;
    let b = j / w;
    if b == a - 1 {
        assert(b * w == a * w - w) by (nonlinear_arith)
            requires
                b == a - 1,
        ;
    } else if b == a + 1 {
        assert(b * w == a * w + w) by (nonlinear_arith)
            requires
                b == a + 1,
        ;
    }
}

proof fn lemma_reach_neighbor(seeds: Seq<bool>, w: int, h: int, cov: Seq<bool>, r: nat, j: int, i: int)
    requires
        0 < w,
        pad_reach(seeds, w, h, cov, r, j),
        grid_neighbors(w, h, j, i),
        !cov[i],
    ensures
        pad_reach(seeds, w, h, cov, r + 1, i),
{
    lemma_neighbor_offsets(w, h, j, i);
    let k: nat = r + 1;
    assert((k - 1) as nat == r);
}

proof fn lemma_reach_unfold(seeds: Seq<bool>, w: int, h: int, cov: Seq<bool>, r: nat, i: int)
    requires
        0 < w,
        0 < h,
        pad_reach(seeds, w, h, cov, r + 1, i),
    ensures
        0 <= i < w * h,
        seeds[i] || pad_reach(seeds, w, h, cov, r, i) || (!cov[i] && exists|j: int|
            #![trigger pad_reach(seeds, w, h, cov, r, j)]
            grid_neighbors(w, h, j, i) && pad_reach(seeds, w, h, cov, r, j)),
{
    let k: nat = r + 1;
    assert((k - 1) as nat == r);
    assert(pad_reach(seeds, w, h, cov, k, i));
    if !seeds[i] && !pad_reach(seeds, w, h, cov, r, i) {
        assert(!cov[i]);
        lemma_grid_coords(w, h, i);
        let x = i % w;
        let y = i / w;
        if x > 0 && pad_reach(seeds, w, h, cov, r, i - 1) {
            lemma_grid_index(w, h, x - 1, y);
            assert(grid_neighbors(w, h, i - 1, i));
        } else if x < w - 1 && pad_reach(seeds, w, h, cov, r, i + 1) {
            lemma_grid_index(w, h, x + 1, y);
            assert(grid_neighbors(w, h, i + 1, i));
        } else if y > 0 && pad_reach(seeds, w, h, cov, r, i - w) {
            lemma_grid_index(w, h, x, y - 1);
            assert((y - 1) * w == y * w - w) by (nonlinear_arith);
            assert(grid_neighbors(w, h, i - w, i));
        } else {
            assert(y < h - 1 && pad_reach(seeds, w, h, cov, r, i + w));
            lemma_grid_index(w, h, x, y + 1);
            assert((y + 1) * w == y * w + w) by (nonlinear_arith);
            assert(grid_neighbors(w, h, i + w, i));
        }
    }
}

/// One ring of padding spreading from the texels that `st.next` lists.
spec fn ring_once(st: PadState, w: int, h: int, cov: Seq<bool>) -> PadState {
    pad_ring(PadState { pixels: st.pixels, seeded: st.seeded, next: seq![] }, w, h, cov, st.next, st.next.len())
}

spec fn rings_state(st: PadState, w: int, h: int, cov: Seq<bool>, k: nat) -> PadState
    decreases k,
{
    if k == 0 {
        st
    } else {
        rings_state(ring_once(st, w, h, cov), w, h, cov, (k - 1) as nat)
    }
}

proof fn lemma_pad_rings_state(pixels: Seq<[u8; 4]>, seeded: Seq<bool>, frontier: Seq<usize>, w: int, h: int, cov: Seq<bool>, k: nat)
    ensures
        pad_rings(pixels, seeded, frontier, w, h, cov, k) == rings_state(
            PadState { pixels, seeded, next: frontier },
            w,
            h,
            cov,
            k,
        ).pixels,
    decreases k,
{
    if k > 0 {
        let st = ring_once(PadState { pixels, seeded, next: frontier }, w, h, cov);
        lemma_pad_rings_state(st.pixels, st.seeded, st.next, w, h, cov, (k - 1) as nat);
        assert(PadState { pixels: st.pixels, seeded: st.seeded, next: st.next } == st);
    }
}

proof fn lemma_rings_state_split(st: PadState, w: int, h: int, cov: Seq<bool>, a: nat, b: nat)
    ensures
        rings_state(st, w, h, cov, a + b) == rings_state(rings_state(st, w, h, cov, a), w, h, cov, b),
    decreases a,
{
    if a > 0 {
        lemma_rings_state_split(ring_once(st, w, h, cov), w, h, cov, (a - 1) as nat, b);
        assert((a + b - 1) as nat == (a - 1) as nat + b);
    }
}

/// What holds part way through a ring that started at `st0` and spreads from texels reached
/// within `r` rings: texels newly filled are listed in `next` and reached within `r + 1` rings,
/// and `next` lists only texels newly filled.
spec fn ring_inv(st0: PadState, b: PadState, w: int, h: int, cov: Seq<bool>, seeds: Seq<bool>, r: nat) -> bool {
    &&& pad_sized(b, w, h, cov)
    &&& w * h <= usize::MAX
    &&& pad_step_ok(st0, b, w, h, cov)
    &&& forall|i: int|
        0 <= i < w * h && #[trigger] b.seeded[i] && !st0.seeded[i] ==> b.next.contains(i as usize) && pad_reach(
            seeds,
            w,
            h,
            cov,
            r + 1,
            i,
        )
    &&& forall|k: int|
        0 <= k < b.next.len() ==> (#[trigger] b.next[k] as int) < w * h && b.seeded[b.next[k] as int]
            && !st0.seeded[b.next[k] as int]
}

proof fn lemma_pad_into_reach(
    st0: PadState,
    b: PadState,
    w: int,
    h: int,
    cov: Seq<bool>,
    seeds: Seq<bool>,
    r: nat,
    src: [u8; 4],
    idx: int,
    nx: int,
    ny: int,
)
    requires
        pad_sized(st0, w, h, cov),
        ring_inv(st0, b, w, h, cov, seeds, r),
        pad_reach(seeds, w, h, cov, r, idx),
        (ny == idx / w && (nx == idx % w - 1 || nx == idx % w + 1)) || (nx == idx % w && (ny == idx / w - 1 || ny
            == idx / w + 1)),
    ensures
        ring_inv(st0, pad_into(b, w, h, cov, src, nx, ny), w, h, cov, seeds, r),
        pad_step_ok(b, pad_into(b, w, h, cov, src, nx, ny), w, h, cov),
        (0 <= nx < w && 0 <= ny < h && !cov[ny * w + nx]) ==> pad_into(b, w, h, cov, src, nx, ny).seeded[ny * w
            + nx],
{
    let c = pad_into(b, w, h, cov, src, nx, ny);
    lemma_pad_into_ok(b, w, h, cov, src, nx, ny);
    lemma_pad_step_chain(st0, b, c, w, h, cov);
    if !(nx < 0 || ny < 0 || nx >= w || ny >= h) {
        let n = ny * w + nx;
        lemma_grid_index(w, h, nx, ny);
        if !(cov[n] || b.seeded[n]) {
            assert(grid_neighbors(w, h, idx, n));
            lemma_reach_neighbor(seeds, w, h, cov, r, idx, n);
            assert(c.next[b.next.len() as int] == n as usize);
            assert forall|i: int|
                0 <= i < w * h && #[trigger] c.seeded[i] && !st0.seeded[i] implies c.next.contains(i as usize)
                && pad_reach(seeds, w, h, cov, r + 1, i) by {
                if i != n {
                    assert(b.seeded[i]);
                    let k = choose|k: int| 0 <= k < b.next.len() && b.next[k] == i as usize;
                    assert(c.next[k] == i as usize);
                }
            }
            assert forall|k: int| 0 <= k < c.next.len() implies (#[trigger] c.next[k] as int) < w * h
                && c.seeded[c.next[k] as int] && !st0.seeded[c.next[k] as int] by {
                if k < b.next.len() {
                    assert(c.next[k] == b.next[k]);
                } else {
                    assert(c.next[k] == n as usize);
                    if st0.seeded[n] {
                        assert(b.seeded[n]);
                    }
                }
            }
        }
    }
}

proof fn lemma_pad_from_reach(
    st0: PadState,
    b: PadState,
    w: int,
    h: int,
    cov: Seq<bool>,
    seeds: Seq<bool>,
    r: nat,
    idx: usize,
)
    requires
        pad_sized(st0, w, h, cov),
        ring_inv(st0, b, w, h, cov, seeds, r),
        idx < w * h ==> pad_reach(seeds, w, h, cov, r, idx as int),
    ensures
        ring_inv(st0, pad_from(b, w, h, cov, idx), w, h, cov, seeds, r),
        pad_step_ok(b, pad_from(b, w, h, cov, idx), w, h, cov),
        forall|q: int|
            #![trigger grid_neighbors(w, h, idx as int, q)]
            grid_neighbors(w, h, idx as int, q) && !cov[q] ==> pad_from(b, w, h, cov, idx).seeded[q],
{
    if idx < w * h {
        let x = idx as int % w;
        let y = idx as int / w;
        let src = b.pixels[idx as int];
        let s1 = pad_into(b, w, h, cov, src, x - 1, y);
        let s2 = pad_into(s1, w, h, cov, src, x + 1, y);
        let s3 = pad_into(s2, w, h, cov, src, x, y - 1);
        let s4 = pad_into(s3, w, h, cov, src, x, y + 1);
        lemma_pad_into_reach(st0, b, w, h, cov, seeds, r, src, idx as int, x - 1, y);
        lemma_pad_into_reach(st0, s1, w, h, cov, seeds, r, src, idx as int, x + 1, y);
        lemma_pad_into_reach(st0, s2, w, h, cov, seeds, r, src, idx as int, x, y - 1);
        lemma_pad_into_reach(st0, s3, w, h, cov, seeds, r, src, idx as int, x, y + 1);
        lemma_pad_step_chain(b, s1, s2, w, h, cov);
        lemma_pad_step_chain(b, s2, s3, w, h, cov);
        lemma_pad_step_chain(b, s3, s4, w, h, cov);
        assert forall|q: int|
            #![trigger grid_neighbors(w, h, idx as int, q)]
            grid_neighbors(w, h, idx as int, q) && !cov[q] implies s4.seeded[q] by {
            lemma_grid_coords(w, h, q);
            let qx = q % w;
            let qy = q / w;
            assert(qy * w + qx == q);
            if qy == y && qx == x - 1 {
                assert(s1.seeded[q]);
            } else if qy == y && qx == x + 1 {
                assert(s2.seeded[q]);
            } else if qx == x && qy == y - 1 {
                assert(s3.seeded[q]);
            } else {
                assert(s4.seeded[q]);
            }
        }
    } else {
        assert forall|q: int|
            #![trigger grid_neighbors(w, h, idx as int, q)]
            grid_neighbors(w, h, idx as int, q) && !cov[q] implies pad_from(b, w, h, cov, idx).seeded[q] by {}
    }
}

proof fn lemma_pad_ring_reach(
    st0: PadState,
    w: int,
    h: int,
    cov: Seq<bool>,
    seeds: Seq<bool>,
    r: nat,
    frontier: Seq<usize>,
    n: nat,
)
    requires
        pad_sized(st0, w, h, cov),
        w * h <= usize::MAX,
        st0.next == Seq::<usize>::empty(),
        n <= frontier.len(),
        forall|s: int|
            0 <= s < frontier.len() && (frontier[s] as int) < w * h ==> pad_reach(
                seeds,
                w,
                h,
                cov,
                r,
                #[trigger] frontier[s] as int,
            ),
    ensures
        ring_inv(st0, pad_ring(st0, w, h, cov, frontier, n), w, h, cov, seeds, r),
        forall|s: int, q: int|
            #![trigger grid_neighbors(w, h, frontier[s] as int, q)]
            0 <= s < n && grid_neighbors(w, h, frontier[s] as int, q) && !cov[q] ==> pad_ring(
                st0,
                w,
                h,
                cov,
                frontier,
                n,
            ).seeded[q],
    decreases n,
{
    if n > 0 {
        lemma_pad_ring_reach(st0, w, h, cov, seeds, r, frontier, (n - 1) as nat);
        let prev = pad_ring(st0, w, h, cov, frontier, (n - 1) as nat);
        let idx = frontier[n - 1];
        lemma_pad_from_reach(st0, prev, w, h, cov, seeds, r, idx);
        let cur = pad_ring(st0, w, h, cov, frontier, n);
        assert forall|s: int, q: int|
            #![trigger grid_neighbors(w, h, frontier[s] as int, q)]
            0 <= s < n && grid_neighbors(w, h, frontier[s] as int, q) && !cov[q] implies cur.seeded[q] by {
            if s < n - 1 {
                assert(prev.seeded[q]);
            }
        }
    }
}

/// What holds after `r` rings: the texels filled or painted are exactly those reached within
/// `r` rings, the next frontier lists every texel first reached in ring `r`, and lists only
/// texels reached.
spec fn reach_inv(st: PadState, w: int, h: int, cov: Seq<bool>, seeds: Seq<bool>, r: nat) -> bool {
    &&& pad_sized(st, w, h, cov)
    &&& w * h <= usize::MAX
    &&& forall|i: int| 0 <= i < w * h ==> (#[trigger] st.seeded[i] <==> pad_reach(seeds, w, h, cov, r, i))
    &&& forall|i: int|
        #[trigger] pad_reach(seeds, w, h, cov, r, i) && (r == 0 || !pad_reach(seeds, w, h, cov, (r - 1) as nat, i))
            ==> st.next.contains(i as usize)
    &&& forall|k: int|
        0 <= k < st.next.len() && (st.next[k] as int) < w * h ==> pad_reach(
            seeds,
            w,
            h,
            cov,
            r,
            #[trigger] st.next[k] as int,
        )
}

#[verifier::rlimit(40)]
proof fn lemma_reach_step(st: PadState, w: int, h: int, cov: Seq<bool>, seeds: Seq<bool>, r: nat)
    requires
        reach_inv(st, w, h, cov, seeds, r),
    ensures
        reach_inv(ring_once(st, w, h, cov), w, h, cov, seeds, r + 1),
{
    let st0 = PadState { pixels: st.pixels, seeded: st.seeded, next: seq![] };
    let f = st.next;
    lemma_pad_ring_reach(st0, w, h, cov, seeds, r, f, f.len());
    let nw = ring_once(st, w, h, cov);
    assert forall|q: int| 0 <= q < w * h implies (#[trigger] nw.seeded[q] <==> pad_reach(
        seeds,
        w,
        h,
        cov,
        r + 1,
        q,
    )) by {
        if nw.seeded[q] && !st.seeded[q] {
        } else if st.seeded[q] {
            assert(pad_reach(seeds, w, h, cov, r, q));
        }
        if pad_reach(seeds, w, h, cov, r + 1, q) {
            if pad_reach(seeds, w, h, cov, r, q) {
                assert(st.seeded[q]);
            } else if seeds[q] {
            } else {
                lemma_reach_unfold(seeds, w, h, cov, r, q);
                let j = choose|j: int|
                    #![trigger pad_reach(seeds, w, h, cov, r, j)]
                    grid_neighbors(w, h, j, q) && pad_reach(seeds, w, h, cov, r, j);
                if r > 0 && pad_reach(seeds, w, h, cov, (r - 1) as nat, j) {
                    lemma_reach_neighbor(seeds, w, h, cov, (r - 1) as nat, j, q);
                    assert((r - 1) as nat + 1 == r);
                    assert(pad_reach(seeds, w, h, cov, r, q));
                } else {
                    assert(f.contains(j as usize));
                    let s = choose|s: int| 0 <= s < f.len() && f[s] == j as usize;
                    assert(grid_neighbors(w, h, f[s] as int, q));
                }
            }
        }
    }
    assert forall|i: int|
        #[trigger] pad_reach(seeds, w, h, cov, r + 1, i) && (r + 1 == 0 || !pad_reach(seeds, w, h, cov, r, i))
            implies nw.next.contains(i as usize) by {
        assert(nw.seeded[i]);
        assert(!st.seeded[i]);
    }
    assert forall|k: int|
        0 <= k < nw.next.len() && (nw.next[k] as int) < w * h implies pad_reach(
        seeds,
        w,
        h,
        cov,
        r + 1,
        #[trigger] nw.next[k] as int,
    ) by {
        let i = nw.next[k] as int;
        assert(nw.seeded[i] && !st.seeded[i]);
    }
}

proof fn lemma_reach_rings(st: PadState, w: int, h: int, cov: Seq<bool>, seeds: Seq<bool>, k: nat)
    requires
        reach_inv(st, w, h, cov, seeds, 0),
    ensures
        reach_inv(rings_state(st, w, h, cov, k), w, h, cov, seeds, k),
    decreases k,
{
    if k > 0 {
        lemma_reach_rings(st, w, h, cov, seeds, (k - 1) as nat);
        lemma_rings_state_split(st, w, h, cov, (k - 1) as nat, 1);
        let prev = rings_state(st, w, h, cov, (k - 1) as nat);
        lemma_reach_step(prev, w, h, cov, seeds, (k - 1) as nat);
        assert(rings_state(ring_once(prev, w, h, cov), w, h, cov, 0) == ring_once(prev, w, h, cov));
        assert(rings_state(prev, w, h, cov, 1) == ring_once(prev, w, h, cov));
    }
}

/// Texels that more rings of padding change lie beyond the reach of fewer rings: where padding
/// with `k2 >= k1` rings leaves texel `i` with another color than padding with `k1` rings does,
/// padding does not reach `i` from the painted texels within `k1` rings.
pub proof fn lemma_padding_reach(
    pixels: Seq<[u8; 4]>,
    width: nat,
    height: nat,
    touched: Seq<usize>,
    cov: Seq<bool>,
    k1: nat,
    k2: nat,
    i: int,
)
    requires
        k1 <= k2,
        pixels.len() == at_least_one(width) * at_least_one(height),
        pixels.len() <= usize::MAX,
        0 <= i < pixels.len(),
        padded_pixels(pixels, width, height, touched, cov, k2)[i] != padded_pixels(
            pixels,
            width,
            height,
            touched,
            cov,
            k1,
        )[i],
    ensures
        !pad_reach(
            seeds_of(touched, at_least_one(width) * at_least_one(height)),
            at_least_one(width) as int,
            at_least_one(height) as int,
            cov,
            k1,
            i,
        ),
{
    let w = at_least_one(width) as int;
    let h = at_least_one(height) as int;
    let seeds = seeds_of(touched, (w * h) as nat);
    if !(touched.len() == 0 || cov.len() != w * h) {
        let s0 = PadState { pixels, seeded: seeds, next: touched };
        assert(w * h > 0) by (nonlinear_arith)
            requires
                w > 0,
                h > 0,
        ;
        assert forall|j: int| 0 <= j < w * h implies (#[trigger] s0.seeded[j] <==> pad_reach(
            seeds,
            w,
            h,
            cov,
            0,
            j,
        )) by {}
        assert forall|j: int|
            #[trigger] pad_reach(seeds, w, h, cov, 0, j) && (0nat == 0 || !pad_reach(seeds, w, h, cov, 0, j))
                implies s0.next.contains(j as usize) by {}
        assert forall|k: int| 0 <= k < s0.next.len() && (s0.next[k] as int) < w * h implies pad_reach(
            seeds,
            w,
            h,
            cov,
            0,
            #[trigger] s0.next[k] as int,
        ) by {
            assert(touched.contains(touched[k]));
        }
        assert(reach_inv(s0, w, h, cov, seeds, 0));
        lemma_reach_rings(s0, w, h, cov, seeds, k1);
        let sk = rings_state(s0, w, h, cov, k1);
        lemma_pad_rings_state(pixels, seeds, touched, w, h, cov, k1);
        lemma_pad_rings_state(pixels, seeds, touched, w, h, cov, k2);
        lemma_rings_state_split(s0, w, h, cov, k1, (k2 - k1) as nat);
        assert(k1 + (k2 - k1) as nat == k2);
        lemma_pad_rings_state(sk.pixels, sk.seeded, sk.next, w, h, cov, (k2 - k1) as nat);
        assert(PadState { pixels: sk.pixels, seeded: sk.seeded, next: sk.next } == sk);
        if pad_reach(seeds, w, h, cov, k1, i) {
            assert(sk.seeded[i]);
            lemma_pad_rings_keep_seeded(sk.pixels, sk.seeded, sk.next, w, h, cov, (k2 - k1) as nat, i);
            assert(pad_rings(pixels, seeds, touched, w, h, cov, k2)[i] == pad_rings(
                pixels,
                seeds,
                touched,
                w,
                h,
                cov,
                k1,
            )[i]);
        }
    }
}

} // verus!

verus! {

proof fn lemma_first_occurrences_covers(s: Seq<u32>, limit: nat, j: int)
    requires
        0 <= j < s.len(),
        (s[j] as nat) < limit,
    ensures
        first_occurrences(s, limit).contains(s[j]),
    decreases s.len(),
{
    let before = first_occurrences(s.drop_last(), limit);
    if j < s.len() - 1 {
        assert(s.drop_last()[j] == s[j]);
        lemma_first_occurrences_covers(s.drop_last(), limit, j);
        let i = choose|i: int| 0 <= i < before.len() && before[i] == s[j];
        if !(s.last() >= limit || before.contains(s.last())) {
            assert(before.push(s.last())[i] == s[j]);
        }
    } else {
        if !before.contains(s.last()) {
            assert(before.push(s.last())[before.len() as int] == s[j]);
        }
    }
}

proof fn lemma_row_ids_contains(bins: Seq<Seq<u32>>, tw: int, ty: int, tx0: int, tx: int, x: int, k: int)
    requires
        tx0 <= x < tx,
        0 <= k < bin_at(bins, ty * tw + x).len(),
    ensures
        row_ids(bins, tw, ty, tx0, tx).contains(bin_at(bins, ty * tw + x)[k]),
    decreases tx - tx0,
{
    let prev = row_ids(bins, tw, ty, tx0, tx - 1);
    let last = bin_at(bins, ty * tw + tx - 1);
    if x < tx - 1 {
        lemma_row_ids_contains(bins, tw, ty, tx0, tx - 1, x, k);
        let i = choose|i: int| 0 <= i < prev.len() && prev[i] == bin_at(bins, ty * tw + x)[k];
        assert((prev + last)[i] == prev[i]);
    } else {
        assert((prev + last)[prev.len() + k] == last[k]);
    }
}

proof fn lemma_window_ids_contains(
    bins: Seq<Seq<u32>>,
    tw: int,
    tx0: int,
    tx1: int,
    ty0: int,
    ty: int,
    x: int,
    y: int,
    k: int,
)
    requires
        ty0 <= y < ty,
        tx0 <= x <= tx1,
        0 <= k < bin_at(bins, y * tw + x).len(),
    ensures
        window_ids(bins, tw, tx0, tx1, ty0, ty).contains(bin_at(bins, y * tw + x)[k]),
    decreases ty - ty0,
{
    let prev = window_ids(bins, tw, tx0, tx1, ty0, ty - 1);
    let row = row_ids(bins, tw, ty - 1, tx0, tx1 + 1);
    let v = bin_at(bins, y * tw + x)[k];
    if y < ty - 1 {
        lemma_window_ids_contains(bins, tw, tx0, tx1, ty0, ty - 1, x, y, k);
        let i = choose|i: int| 0 <= i < prev.len() && prev[i] == v;
        assert((prev + row)[i] == prev[i]);
    } else {
        lemma_row_ids_contains(bins, tw, ty - 1, tx0, tx1 + 1, x, k);
        let i = choose|i: int| 0 <= i < row.len() && row[i] == v;
        assert((prev + row)[prev.len() + i] == row[i]);
    }
}

proof fn lemma_tile_in_span(ts: nat, t: nat, lo: nat, hi: nat)
    requires
        ts > 0,
        t * ts <= hi,
        lo < (t + 1) * ts,
    ensures
        lo / ts <= t <= hi / ts,
{
    vstd::arithmetic::div_mod::lemma_fundamental_div_mod(lo as int, ts as int);
    vstd::arithmetic::div_mod::lemma_fundamental_div_mod(hi as int, ts as int);
    vstd::arithmetic::div_mod::lemma_mod_bound(lo as int, ts as int);
    vstd::arithmetic::div_mod::lemma_mod_bound(hi as int, ts as int);
    let a = lo as int / ts as int;
    let b = hi as int / ts as int;
    assert(a <= t) by (nonlinear_arith)
        requires
            lo == ts * a + lo % ts,
            0 <= lo % ts,
            lo < (t + 1) * ts,
            ts > 0,
    ;
    assert(t <= b) by (nonlinear_arith)
        requires
            hi == ts * b + hi % ts,
            hi % ts < ts,
            t * ts <= hi,
            ts > 0,
    ;
}

/// The candidates of a window miss no triangle: every id below `tri_count` filed under a tile
/// of the grid that the window overlaps (the tile's texels `tx * tile_size ..` up to
/// `(tx + 1) * tile_size` across, and likewise down, meet the window's columns and rows) is
/// among them.
pub proof fn lemma_candidates_complete(
    bins: Seq<Seq<u32>>,
    tile_size: nat,
    tw: nat,
    th: nat,
    tri_count: nat,
    win: TexelBox,
    tx: nat,
    ty: nat,
    k: int,
)
    requires
        bins.len() > 0,
        tile_size > 0,
        tx < tw,
        ty < th,
        tx * tile_size <= win.max_x,
        win.min_x < (tx + 1) * tile_size,
        ty * tile_size <= win.max_y,
        win.min_y < (ty + 1) * tile_size,
        0 <= k < bin_at(bins, (ty * tw + tx) as int).len(),
        (bin_at(bins, (ty * tw + tx) as int)[k] as nat) < tri_count,
    ensures
        candidates_in_window(bins, tile_size, tw, th, tri_count, win).contains(bin_at(bins, (ty * tw + tx) as int)[k]),
{
    lemma_tile_in_span(tile_size, tx, win.min_x as nat, win.max_x as nat);
    lemma_tile_in_span(tile_size, ty, win.min_y as nat, win.max_y as nat);
    let tx1 = min_nat(win.max_x as nat / tile_size, (tw - 1) as nat);
    let ty1 = min_nat(win.max_y as nat / tile_size, (th - 1) as nat);
    let tx0 = min_nat(win.min_x as nat / tile_size, tx1);
    let ty0 = min_nat(win.min_y as nat / tile_size, ty1);
    let s = window_ids(bins, tw as int, tx0 as int, tx1 as int, ty0 as int, (ty1 + 1) as int);
    lemma_window_ids_contains(bins, tw as int, tx0 as int, tx1 as int, ty0 as int, (ty1 + 1) as int, tx as int, ty as int, k);
    let j = choose|j: int| 0 <= j < s.len() && s[j] == bin_at(bins, (ty * tw + tx) as int)[k];
    lemma_first_occurrences_covers(s, tri_count, j);
}

} // verus!
