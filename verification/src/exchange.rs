//! Writing meshes for other programs: binary STL files, and faceted solids out of triangles.

use vstd::prelude::*;

use crate::mesh::{
    edge_key, edge_table, key_of, met, proper, runs, side, side_is_listed, side_keys, side_of, watertight, EdgeTable, Tri,
};
use crate::first_seen::{firsts, firsts_distinct, Key};

verus! {

/// The bytes before the triangles: an empty header and the count.
pub const STL_HEADER: usize = 84;

/// The bytes of one triangle.
pub const STL_RECORD: usize = 50;

/// A word in little-endian bytes.
pub open spec fn le_bytes(x: u32) -> Seq<u8> {
    seq![(x % 256) as u8, ((x / 256) % 256) as u8, ((x / 65536) % 256) as u8, (x / 16777216) as u8]
}

/// The word that starts at a place in the file.
pub open spec fn word_at(b: Seq<u8>, at: int) -> int {
    b[at] + 256 * b[at + 1] + 65536 * b[at + 2] + 16777216 * b[at + 3]
}

/// The first `n` words, one after the other.
pub open spec fn words(w: Seq<u32>, n: int) -> Seq<u8>
    decreases n,
{
    if n <= 0 {
        Seq::empty()
    } else {
        words(w, n - 1) + le_bytes(w[n - 1])
    }
}

/// The record of a triangle: its normal, its corners, and an empty attribute.
pub open spec fn record(t: [u32; 12]) -> Seq<u8> {
    words(t@, 12) + seq![0u8, 0u8]
}

/// The records of the first `n` triangles.
pub open spec fn records(tris: Seq<[u32; 12]>, n: int) -> Seq<u8>
    decreases n,
{
    if n <= 0 {
        Seq::empty()
    } else {
        records(tris, n - 1) + record(tris[n - 1])
    }
}

/// The file: eighty empty bytes, the number of triangles, the triangles.
pub open spec fn stl(tris: Seq<[u32; 12]>) -> Seq<u8> {
    Seq::new(80, |i: int| 0u8) + le_bytes(tris.len() as u32) + records(tris, tris.len() as int)
}

fn put_word(out: &mut Vec<u8>, x: u32)
    ensures
        final(out)@ == old(out)@ + le_bytes(x),
{
    out.push((x % 256) as u8);
    out.push(((x / 256) % 256) as u8);
    out.push(((x / 65536) % 256) as u8);
    out.push((x / 16777216) as u8);
    assert(out@ =~= old(out)@ + le_bytes(x));
}

/// Write a mesh as a binary STL file. A triangle is given by the bit patterns of its normal and of
/// its three corners.
#[verifier::loop_isolation(false)]
pub fn export_stl(tris: &Vec<[u32; 12]>) -> (out: Vec<u8>)
    requires
        tris@.len() <= u32::MAX,
    ensures
        out@ == stl(tris@),
{
    let n: usize = tris.len();
    let mut out: Vec<u8> = Vec::new();
    let mut h: usize = 0;
    while h < 80
        invariant
            h <= 80,
            out@ == Seq::new(h as nat, |i: int| 0u8),
        decreases 80 - h,
    {
        out.push(0);
        h = h + 1;
        assert(out@ =~= Seq::new(h as nat, |i: int| 0u8));
    }
    put_word(&mut out, n as u32);
    let ghost head = out@;
    let mut t: usize = 0;
    assert(head + records(tris@, 0) =~= head);
    while t < n
        invariant
            t <= n,
            out@ == head + records(tris@, t as int),
        decreases n - t,
    {
        let ghost now = out@;
        let mut k: usize = 0;
        assert(now + words(tris@[t as int]@, 0) =~= now);
        while k < 12
            invariant
                k <= 12,
                out@ == now + words(tris@[t as int]@, k as int),
            decreases 12 - k,
        {
            put_word(&mut out, tris[t][k]);
            k = k + 1;
            assert(out@ =~= now + words(tris@[t as int]@, k as int));
        }
        out.push(0);
        out.push(0);
        t = t + 1;
        assert(out@ =~= head + records(tris@, t as int));
    }
    out
}

proof fn words_read_back(w: Seq<u32>, n: int, k: int)
    requires
        0 <= k < n,
    ensures
        words(w, n).len() == 4 * n,
        word_at(words(w, n), 4 * k) == w[k],
    decreases n,
{
    words_len(w, n);
    words_len(w, n - 1);
    let b = words(w, n);
    let rest = words(w, n - 1);
    if k < n - 1 {
        words_read_back(w, n - 1, k);
        assert(b[4 * k] == rest[4 * k] && b[4 * k + 1] == rest[4 * k + 1] && b[4 * k + 2] == rest[4 * k + 2] && b[4 * k + 3] == rest[4 * k + 3]);
    } else {
        let x = w[k];
        assert(b[4 * k] == le_bytes(x)[0] && b[4 * k + 1] == le_bytes(x)[1] && b[4 * k + 2] == le_bytes(x)[2] && b[4 * k + 3] == le_bytes(x)[3]);
        bytes_make_the_word(x);
    }
}

proof fn bytes_make_the_word(x: u32)
    ensures
        word_at(le_bytes(x), 0) == x,
{
    assert(x % 256 + 256 * ((x / 256) % 256) + 65536 * ((x / 65536) % 256) + 16777216 * (x / 16777216) == x) by (bit_vector);
    assert(x / 16777216 < 256) by (bit_vector);
}

proof fn words_len(w: Seq<u32>, n: int)
    requires
        0 <= n,
    ensures
        words(w, n).len() == 4 * n,
    decreases n,
{
    if n > 0 {
        words_len(w, n - 1);
    }
}

proof fn records_len(tris: Seq<[u32; 12]>, n: int)
    requires
        0 <= n,
    ensures
        records(tris, n).len() == 50 * n,
    decreases n,
{
    if n > 0 {
        records_len(tris, n - 1);
        words_len(tris[n - 1]@, 12);
    }
}

proof fn records_read_back(tris: Seq<[u32; 12]>, n: int, t: int, k: int)
    requires
        0 <= t < n,
        0 <= k < 12,
    ensures
        records(tris, n).len() == 50 * n,
        word_at(records(tris, n), 50 * t + 4 * k) == tris[t]@[k],
    decreases n,
{
    records_len(tris, n);
    records_len(tris, n - 1);
    let b = records(tris, n);
    let rest = records(tris, n - 1);
    let at = 50 * t + 4 * k;
    if t < n - 1 {
        records_read_back(tris, n - 1, t, k);
        assert(b[at] == rest[at] && b[at + 1] == rest[at + 1] && b[at + 2] == rest[at + 2] && b[at + 3] == rest[at + 3]);
    } else {
        let w = words(tris[t]@, 12);
        words_read_back(tris[t]@, 12, k);
        let r = record(tris[t]);
        assert(b[at] == r[4 * k] && b[at + 1] == r[4 * k + 1] && b[at + 2] == r[4 * k + 2] && b[at + 3] == r[4 * k + 3]);
        assert(r[4 * k] == w[4 * k] && r[4 * k + 1] == w[4 * k + 1] && r[4 * k + 2] == w[4 * k + 2] && r[4 * k + 3] == w[4 * k + 3]);
    }
}

proof fn records_end_empty(tris: Seq<[u32; 12]>, n: int, t: int)
    requires
        0 <= t < n,
    ensures
        records(tris, n).len() == 50 * n,
        records(tris, n)[50 * t + 48] == 0,
        records(tris, n)[50 * t + 49] == 0,
    decreases n,
{
    records_len(tris, n);
    records_len(tris, n - 1);
    words_len(tris[n - 1]@, 12);
    if t < n - 1 {
        records_end_empty(tris, n - 1, t);
    } else {
        let r = record(tris[t]);
        assert(records(tris, n)[50 * t + 48] == r[48]);
        assert(records(tris, n)[50 * t + 49] == r[49]);
    }
}

/// What a file says can be read back: how many triangles it holds, and every number of each. The
/// header and the attributes are empty.
#[verifier::spinoff_prover]
#[verifier::rlimit(50)]
pub proof fn stl_reads_back(tris: Seq<[u32; 12]>, t: int, k: int)
    requires
        tris.len() <= u32::MAX,
        0 <= t < tris.len(),
        0 <= k < 12,
    ensures
        stl(tris).len() == STL_HEADER + STL_RECORD * tris.len(),
        word_at(stl(tris), 80) == tris.len(),
        word_at(stl(tris), STL_HEADER + STL_RECORD * t + 4 * k) == tris[t]@[k],
        forall|i: int| 0 <= i < 80 ==> #[trigger] stl(tris)[i] == 0,
        stl(tris)[STL_HEADER + STL_RECORD * t + 48] == 0,
        stl(tris)[STL_HEADER + STL_RECORD * t + 49] == 0,
{
    records_end_empty(tris, tris.len() as int, t);
    let n = tris.len() as int;
    records_read_back(tris, n, t, k);
    let b = stl(tris);
    let c = le_bytes(n as u32);
    let r = records(tris, n);
    assert(b[80] == c[0] && b[81] == c[1] && b[82] == c[2] && b[83] == c[3]);
    bytes_make_the_word(n as u32);
    let at = 50 * t + 4 * k;
    assert(b[84 + at] == r[at] && b[84 + at + 1] == r[at + 1] && b[84 + at + 2] == r[at + 2] && b[84 + at + 3] == r[at + 3]);
}

// ---- faceted solids ----

/// A side of a face: the edge it runs along, and whether it runs from the edge's lower end.
#[derive(Clone, Copy, Debug)]
pub struct WireEdge {
    pub edge: usize,
    pub forward: bool,
}

/// A solid of flat faces: its edges, each once, and the sides of every face.
#[derive(Debug)]
pub struct Faceted {
    pub edges: Vec<(usize, usize)>,
    pub faces: Vec<[WireEdge; 3]>,
}

/// A side stands for the directed side of a triangle.
pub open spec fn stands_for(w: WireEdge, edges: Seq<(usize, usize)>, s: (usize, usize)) -> bool {
    &&& w.edge < edges.len()
    &&& w.forward ==> edges[w.edge as int] == s
    &&& !w.forward ==> edges[w.edge as int] == (s.1, s.0)
}

impl Faceted {
    /// The edges are those of the triangles, each once, from the lower end to the higher; every face
    /// is a triangle, side by side.
    pub open spec fn shows(&self, tris: Seq<Tri>) -> bool {
        &&& self.edges@.len() == firsts(side_keys(tris)).len()
        &&& forall|e: int|
            0 <= e < self.edges@.len() ==> {
                &&& (#[trigger] self.edges@[e]).0 <= self.edges@[e].1
                &&& edge_key(self.edges@[e].0, self.edges@[e].1) == firsts(side_keys(tris))[e]
            }
        &&& self.faces@.len() == tris.len()
        &&& forall|t: int, k: int|
            0 <= t < tris.len() && 0 <= k < 3 ==> stands_for(#[trigger] self.faces@[t]@[k], self.edges@, side_of(tris[t], k))
    }
}

#[verifier::loop_isolation(false)]
fn wire_edge(et: &EdgeTable, tris: &Vec<Tri>, t: usize, k: usize) -> (w: WireEdge)
    requires
        et.describes(tris@),
        t < tris@.len(),
        k < 3,
        proper(tris@[t as int]),
    ensures
        stands_for(w, et.ends@, side_of(tris@[t as int], k as int)),
{
    let (p, q) = side(tris[t], k);
    let key: Key = key_of(p, q);
    proof {
        side_is_listed(tris@, t as int, k as int);
    }
    match et.table.find(key) {
        Some(e) => {
            let ends: (usize, usize) = et.ends[e];
            assert(edge_key(et.ends@[e as int].0, et.ends@[e as int].1) == et.table.keys()[e as int]);
            WireEdge { edge: e, forward: p < q }
        },
        None => {
            assert(false);
            WireEdge { edge: 0, forward: true }
        },
    }
}

/// Make a faceted solid out of welded triangles. A shared edge is made once and used by its other
/// face the other way round. There is none with fewer than four faces.
#[verifier::loop_isolation(false)]
pub fn mesh_to_solid(tris: &Vec<Tri>) -> (solid: Option<Faceted>)
    requires
        forall|t: int| 0 <= t < tris@.len() ==> proper(#[trigger] tris@[t]),
    ensures
        solid is None <==> tris@.len() < 4,
        solid matches Some(s) ==> s.shows(tris@),
{
    let et: EdgeTable = edge_table(tris);
    let mut faces: Vec<[WireEdge; 3]> = Vec::new();
    let mut t: usize = 0;
    while t < tris.len()
        invariant
            t <= tris@.len(),
            faces@.len() == t,
            forall|i: int, k: int| 0 <= i < t && 0 <= k < 3 ==> stands_for(#[trigger] faces@[i]@[k], et.ends@, side_of(tris@[i], k)),
        decreases tris@.len() - t,
    {
        assert(proper(tris@[t as int]));
        let ghost before = faces@;
        let face: [WireEdge; 3] = [wire_edge(&et, tris, t, 0), wire_edge(&et, tris, t, 1), wire_edge(&et, tris, t, 2)];
        faces.push(face);
        t = t + 1;
        assert forall|i: int, k: int| 0 <= i < t && 0 <= k < 3 implies stands_for(#[trigger] faces@[i]@[k], et.ends@, side_of(tris@[i], k)) by {
            if i < t - 1 {
                assert(faces@[i] == before[i]);
                assert(stands_for(before[i]@[k], et.ends@, side_of(tris@[i], k)));
            } else {
                assert(faces@[i]@[0] == face@[0] && faces@[i]@[1] == face@[1] && faces@[i]@[2] == face@[2]);
            }
        }
    }
    if faces.len() < 4 {
        return None;
    }
    let EdgeTable { table, ends, uses } = et;
    Some(Faceted { edges: ends, faces })
}

/// On a watertight mesh every edge of the solid is shared: each side of a face runs along an edge that
/// another side runs along the other way round.
#[verifier::spinoff_prover]
#[verifier::rlimit(50)]
pub proof fn solids_share_their_edges(solid: Faceted, tris: Seq<Tri>, t: int, k: int) -> (r: (int, int))
    requires
        solid.shows(tris),
        watertight(tris),
        0 <= t < tris.len(),
        0 <= k < 3,
    ensures
        0 <= r.0 < tris.len(),
        0 <= r.1 < 3,
        solid.faces@[r.0]@[r.1].edge == solid.faces@[t]@[k].edge,
        solid.faces@[r.0]@[r.1].forward == !solid.faces@[t]@[k].forward,
{
    let (p, q) = side_of(tris[t], k);
    assert(met(tris, p, q));
    let u = choose|u: int| 0 <= u < tris.len() && #[trigger] runs(tris[u], q, p);
    let j = choose|j: int| 0 <= j < 3 && #[trigger] side_of(tris[u], j) == (q, p);
    let (w, v) = (solid.faces@[t]@[k], solid.faces@[u]@[j]);
    assert(stands_for(w, solid.edges@, side_of(tris[t], k)));
    assert(stands_for(v, solid.edges@, side_of(tris[u], j)));
    assert(proper(tris[t]));
    let (x, y) = (solid.edges@[w.edge as int], solid.edges@[v.edge as int]);
    assert(x.0 <= x.1 && y.0 <= y.1);
    assert(x == y);
    firsts_distinct(side_keys(tris));
    assert(firsts(side_keys(tris))[w.edge as int] == firsts(side_keys(tris))[v.edge as int]);
    (u, j)
}

} // verus!
