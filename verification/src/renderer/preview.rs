//! The integer side of the software preview: the pick lookup that turns a pixel of the pick
//! buffer into the triangle under it, and the unique edges of the wireframe overlay.

use std::collections::HashSet;
use vstd::prelude::*;

verus! {

broadcast use vstd::std_specs::hash::group_hash_axioms;

/// The triangle id that marks an empty pixel of the pick buffer.
pub const NO_TRIANGLE: u32 = 0xffff_ffff;

/// The corners of triangle `t` of an index list, when the list has them.
pub open spec fn triangle_corners(indices: Seq<u32>, t: int) -> Option<[u32; 3]> {
    if 3 * t + 2 < indices.len() {
        Some([indices[3 * t], indices[3 * t + 1], indices[3 * t + 2]])
    } else {
        None
    }
}

/// What the pick buffer shows at pixel `(x, y)` of a `width` x `height` buffer: the pixel's
/// index and the corners of the triangle drawn there, or nothing for a pixel outside the
/// buffer, an empty pixel, or a triangle the index list does not have.
pub open spec fn picked(tri_ids: Seq<u32>, width: int, height: int, x: int, y: int, indices: Seq<u32>) -> Option<(usize, [u32; 3])> {
    if x < 0 || y < 0 || x >= width || y >= height {
        None
    } else {
        let idx = y * width + x;
        if idx >= tri_ids.len() || tri_ids[idx] == NO_TRIANGLE {
            None
        } else {
            match triangle_corners(indices, tri_ids[idx] as int) {
                Some(c) => Some((idx as usize, c)),
                None => None,
            }
        }
    }
}

/// Looks up pixel `(x, y)` of the pick buffer (see `picked`).
pub fn pick_triangle(tri_ids: &Vec<u32>, width: usize, height: usize, x: i32, y: i32, indices: &Vec<u32>) -> (r: Option<(usize, [u32; 3])>)
    requires
        tri_ids@.len() == width * height,
    ensures
        r == picked(tri_ids@, width as int, height as int, x as int, y as int, indices@),
{
    if x < 0 || y < 0 || x as usize >= width || y as usize >= height {
        return None;
    }
    let xs = x as usize;
    let ys = y as usize;
    let total = tri_ids.len();
    proof {
        assert(ys * width + xs < width * height) by (nonlinear_arith)
            requires
                xs < width,
                ys < height,
        ;
        assert(ys * width <= ys * width + xs);
    }
    let idx = ys * width + xs;
    let tri_id = tri_ids[idx];
    if tri_id == NO_TRIANGLE {
        return None;
    }
    let n = indices.len();
    let t = tri_id as usize;
    if t > (n / 3) {
        return None;
    }
    let i = t * 3;
    if n - i < 3 {
        return None;
    }
    Some((idx, [indices[i], indices[i + 1], indices[i + 2]]))
}

/// The key of the undirected edge between `a` and `b`: the smaller end in the high word.
pub open spec fn edge_key(a: u32, b: u32) -> u64 {
    if a < b {
        (a as int * 0x1_0000_0000 + b as int) as u64
    } else {
        (b as int * 0x1_0000_0000 + a as int) as u64
    }
}

/// The key of the undirected edge between `a` and `b`.
pub fn edge_key_of(a: u32, b: u32) -> (k: u64)
    ensures
        k == edge_key(a, b),
{
    if a < b {
        (a as u64) * 0x1_0000_0000 + b as u64
    } else {
        (b as u64) * 0x1_0000_0000 + a as u64
    }
}

/// The two ends of the edge with key `key`, smaller first.
pub fn edge_endpoints(key: u64) -> (ends: (u32, u32))
    ensures
        ends.0 as int == key / 0x1_0000_0000,
        ends.1 as int == key % 0x1_0000_0000,
{
    ((key / 0x1_0000_0000) as u32, (key % 0x1_0000_0000) as u32)
}

/// An edge has one key whichever way it is walked, and its ends come back from the key.
pub proof fn lemma_edge_key(a: u32, b: u32)
    ensures
        edge_key(a, b) == edge_key(b, a),
        edge_key(a, b) / 0x1_0000_0000 == (if a < b { a } else { b }),
        edge_key(a, b) % 0x1_0000_0000 == (if a < b { b } else { a }),
{
}

/// Adds the edge between `a` and `b`, in either direction, to `edges`.
pub fn add_edge(edges: &mut HashSet<u64>, a: u32, b: u32)
    ensures
        final(edges)@ == old(edges)@.insert(edge_key(a, b)),
{
    let k = edge_key_of(a, b);
    edges.insert(k);
}

/// The keys of the three edges of triangle `t`.
pub open spec fn triangle_edge_keys(s: Seq<u32>, t: int) -> Set<u64> {
    set![edge_key(s[3 * t], s[3 * t + 1]), edge_key(s[3 * t + 1], s[3 * t + 2]), edge_key(s[3 * t + 2], s[3 * t])]
}

/// The keys of the edges of the first `n` triangles.
pub open spec fn mesh_edge_keys(s: Seq<u32>, n: nat) -> Set<u64>
    decreases n,
{
    if n == 0 {
        Set::empty()
    } else {
        mesh_edge_keys(s, (n - 1) as nat).union(triangle_edge_keys(s, n - 1))
    }
}

/// The edges of every whole triangle of `indices`, each once.
pub fn unique_mesh_edges(indices: &Vec<u32>) -> (edges: HashSet<u64>)
    ensures
        edges@ == mesh_edge_keys(indices@, (indices@.len() / 3) as nat),
{
    let n = indices.len();
    let tris = n / 3;
    let mut edges: HashSet<u64> = HashSet::new();
    let mut t: usize = 0;
    while t < tris
        invariant
            t <= tris,
            tris == n / 3,
            n == indices@.len(),
            edges@ == mesh_edge_keys(indices@, t as nat),
        decreases tris - t,
    {
        let i = t * 3;
        let a = indices[i];
        let b = indices[i + 1];
        let c = indices[i + 2];
        add_edge(&mut edges, a, b);
        add_edge(&mut edges, b, c);
        add_edge(&mut edges, c, a);
        proof {
            assert(edges@ =~= mesh_edge_keys(indices@, t as nat).union(triangle_edge_keys(indices@, t as int)));
        }
        t += 1;
    }
    edges
}

} // verus!
