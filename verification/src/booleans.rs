//! Around the mesh booleans: welding what goes in, what to do when the solid modeller declines, and
//! reading model edges off the faces that it finds.

use vstd::prelude::*;

use crate::first_seen::{firsts, noted, number_keys, Key, KeyTable};
use crate::linking::{adjacent, adjacent_linked, linked, linked_reflexive};
use crate::rings::{decides, says};
use crate::union_find::{partitions, partitions_nothing, partitions_push, Uf};

verus! {

// ---- falling back ----

/// With more triangles than this, polygon clipping would take minutes.
pub const BSP_MAX_TRIS: usize = 20_000;

/// What is done when the solid modeller declines a boolean.
#[derive(Clone, Copy, PartialEq, Eq, Structural, Debug)]
pub enum Fallback {
    /// The first operand is kept as it is.
    KeepBase,
    /// The polygons are clipped.
    Clip,
}

/// How many booleans the solid modeller declined since this was last asked.
#[derive(Clone, Copy, PartialEq, Eq, Structural, Debug)]
pub struct Counters {
    /// Those that were done by clipping.
    pub fallbacks: u32,
    /// Those that were skipped.
    pub dense_skips: u32,
}

/// The operands have too many triangles to be clipped.
pub open spec fn too_dense(a: int, b: int) -> bool {
    (a + b) / 3 > BSP_MAX_TRIS
}

/// Tell whether operands with this many indices have too many triangles to be clipped.
pub fn too_dense_for_bsp(a: usize, b: usize) -> (r: bool)
    requires
        a + b <= usize::MAX,
    ensures
        r == too_dense(a as int, b as int),
{
    (a + b) / 3 > BSP_MAX_TRIS
}

impl Counters {
    pub fn new() -> (c: Counters)
        ensures
            c.fallbacks == 0,
            c.dense_skips == 0,
    {
        Counters { fallbacks: 0, dense_skips: 0 }
    }

    /// Note that the modeller declined operands with this many indices, and say what to do.
    pub fn declined(&mut self, a: usize, b: usize) -> (f: Fallback)
        requires
            a + b <= usize::MAX,
        ensures
            too_dense(a as int, b as int) ==> f == Fallback::KeepBase && final(self).dense_skips == old(self).dense_skips.wrapping_add(1)
                && final(self).fallbacks == old(self).fallbacks,
            !too_dense(a as int, b as int) ==> f == Fallback::Clip && final(self).fallbacks == old(self).fallbacks.wrapping_add(1)
                && final(self).dense_skips == old(self).dense_skips,
    {
        if too_dense_for_bsp(a, b) {
            self.dense_skips = self.dense_skips.wrapping_add(1);
            Fallback::KeepBase
        } else {
            self.fallbacks = self.fallbacks.wrapping_add(1);
            Fallback::Clip
        }
    }

    /// The number of booleans done by clipping, counted from nothing again.
    pub fn take_fallback_count(&mut self) -> (n: u32)
        ensures
            n == old(self).fallbacks,
            final(self).fallbacks == 0,
            final(self).dense_skips == old(self).dense_skips,
    {
        let n: u32 = self.fallbacks;
        self.fallbacks = 0;
        n
    }

    /// The number of booleans skipped, counted from nothing again.
    pub fn take_dense_skip_count(&mut self) -> (n: u32)
        ensures
            n == old(self).dense_skips,
            final(self).dense_skips == 0,
            final(self).fallbacks == old(self).fallbacks,
    {
        let n: u32 = self.dense_skips;
        self.dense_skips = 0;
        n
    }
}

/// How far the second operand is moved on an attempt, in hundred thousandths: not at all at first,
/// and then by three small uneven steps that break faces which coincide.
pub open spec fn nudges() -> Seq<[i32; 3]> {
    seq![[0i32, 0, 0], [17i32, 11, 13], [(-23) as i32, 19, (-15) as i32], [31i32, (-27) as i32, 21]]
}

/// How far to move the second operand on an attempt; nothing once every attempt was made.
pub fn nudge(attempt: usize) -> (d: Option<[i32; 3]>)
    ensures
        d is Some <==> attempt < 4,
        d matches Some(x) ==> x@ == nudges()[attempt as int]@,
{
    if attempt == 0 {
        let d: [i32; 3] = [0, 0, 0];
        Some(d)
    } else if attempt == 1 {
        let d: [i32; 3] = [17, 11, 13];
        Some(d)
    } else if attempt == 2 {
        let d: [i32; 3] = [-23, 19, -15];
        Some(d)
    } else if attempt == 3 {
        let d: [i32; 3] = [31, -27, 21];
        Some(d)
    } else {
        None
    }
}

// ---- welding ----

pub open spec fn cell_key(c: (i64, i64, i64)) -> Key {
    Key { x: c.0 as i128, y: c.1 as i128, z: c.2 as i128 }
}

/// The `d`-th of the twenty-seven cells about a cell, itself among them.
pub open spec fn near_key(c: (i64, i64, i64), d: int) -> Key {
    Key { x: (c.0 + d / 9 - 1) as i128, y: (c.1 + (d / 3) % 3 - 1) as i128, z: (c.2 + d % 3 - 1) as i128 }
}

/// The numbers below `n` of the kept points that lie in a cell.
pub open spec fn ids_in(cells: Seq<(i64, i64, i64)>, kept: Seq<usize>, k: Key, n: int) -> Seq<usize>
    decreases n,
{
    if n <= 0 {
        Seq::empty()
    } else if cell_key(cells[kept[n - 1] as int]) == k {
        ids_in(cells, kept, k, n - 1).push((n - 1) as usize)
    } else {
        ids_in(cells, kept, k, n - 1)
    }
}

/// The first number of the list from place `m` on whose point coincides with point `i`.
pub open spec fn pick<F: Fn(usize, usize) -> bool>(close: F, kept: Seq<usize>, list: Seq<usize>, i: usize, m: int) -> Option<usize>
    decreases list.len() - m,
{
    if m < 0 || m >= list.len() {
        None
    } else if says(close, kept[list[m] as int], i) {
        Some(list[m])
    } else {
        pick(close, kept, list, i, m + 1)
    }
}

/// The kept point that point `i` is welded to: the first that coincides with it, in the order of the
/// cells about it from the `d`-th on.
pub open spec fn hit_from<F: Fn(usize, usize) -> bool>(
    cells: Seq<(i64, i64, i64)>,
    close: F,
    kept: Seq<usize>,
    i: usize,
    d: int,
) -> Option<usize>
    decreases 27 - d,
{
    if d < 0 || d >= 27 {
        None
    } else {
        match pick(close, kept, ids_in(cells, kept, near_key(cells[i as int], d), kept.len() as int), i, 0) {
            Some(id) => Some(id),
            None => hit_from(cells, close, kept, i, d + 1),
        }
    }
}

/// The points kept of the first `n`, and the number of the kept point that each is welded to.
pub open spec fn welded<F: Fn(usize, usize) -> bool>(cells: Seq<(i64, i64, i64)>, close: F, n: int) -> (Seq<usize>, Seq<usize>)
    decreases n,
{
    if n <= 0 {
        (Seq::empty(), Seq::empty())
    } else {
        let (kept, remap) = welded(cells, close, n - 1);
        let i = (n - 1) as usize;
        match hit_from(cells, close, kept, i, 0) {
            Some(id) => (kept, remap.push(id)),
            None => (kept.push(i), remap.push(kept.len() as usize)),
        }
    }
}

proof fn ids_nowhere(cells: Seq<(i64, i64, i64)>, kept: Seq<usize>, k: Key, n: int)
    requires
        forall|id: int| 0 <= id < n ==> cell_key(cells[#[trigger] kept[id] as int]) != k,
    ensures
        ids_in(cells, kept, k, n) == Seq::<usize>::empty(),
    decreases n,
{
    if n > 0 {
        ids_nowhere(cells, kept, k, n - 1);
        assert(cell_key(cells[kept[n - 1] as int]) != k);
    }
}

proof fn ids_below(cells: Seq<(i64, i64, i64)>, kept: Seq<usize>, k: Key, n: int)
    requires
        n <= usize::MAX,
    ensures
        forall|m: int| 0 <= m < ids_in(cells, kept, k, n).len() ==> #[trigger] ids_in(cells, kept, k, n)[m] < n,
    decreases n,
{
    if n > 0 {
        ids_below(cells, kept, k, n - 1);
        let list = ids_in(cells, kept, k, n);
        let rest = ids_in(cells, kept, k, n - 1);
        assert forall|m: int| 0 <= m < list.len() implies #[trigger] list[m] < n by {
            if m < rest.len() {
                assert(rest[m] < n - 1);
                assert(list[m] == rest[m]);
            }
        }
    }
}

proof fn ids_same(cells: Seq<(i64, i64, i64)>, kept: Seq<usize>, x: usize, k: Key, n: int)
    requires
        n <= kept.len(),
    ensures
        ids_in(cells, kept.push(x), k, n) == ids_in(cells, kept, k, n),
    decreases n,
{
    if n > 0 {
        ids_same(cells, kept, x, k, n - 1);
    }
}

/// The cells in use, and the kept points in each.
struct Grid {
    table: KeyTable,
    lists: Vec<Vec<usize>>,
}

impl Grid {
    spec fn holds(&self, cells: Seq<(i64, i64, i64)>, kept: Seq<usize>) -> bool {
        &&& self.table.wf()
        &&& self.lists@.len() == self.table.keys().len()
        &&& forall|t: int|
            0 <= t < self.lists@.len() ==> (#[trigger] self.lists@[t])@ == ids_in(cells, kept, self.table.keys()[t], kept.len() as int)
        &&& forall|id: int| 0 <= id < kept.len() ==> self.table.keys().contains(cell_key(cells[#[trigger] kept[id] as int]))
    }

    /// The first kept point that coincides with point `i`.
    #[verifier::loop_isolation(false)]
    fn search<F: Fn(usize, usize) -> bool>(&self, cells: &Vec<(i64, i64, i64)>, close: &F, kept: &Vec<usize>, i: usize) -> (hit: Option<usize>)
        requires
            self.holds(cells@, kept@),
            decides(*close, cells@.len() as int, cells@.len() as int),
            i < cells@.len(),
            forall|k: int| 0 <= k < kept@.len() ==> (#[trigger] kept@[k]) < cells@.len(),
        ensures
            hit == hit_from(cells@, *close, kept@, i, 0),
    {
        let (x, y, z) = cells[i];
        assert(kept@.len() == kept.len());
        let mut d: i128 = 0;
        while d < 27
            invariant
                0 <= d <= 27,
                hit_from(cells@, *close, kept@, i, 0) == hit_from(cells@, *close, kept@, i, d as int),
            decreases 27 - d,
        {
            let k: Key = Key { x: x as i128 + d / 9 - 1, y: y as i128 + (d / 3) % 3 - 1, z: z as i128 + d % 3 - 1 };
            assert(k == near_key(cells@[i as int], d as int));
            let ghost list = ids_in(cells@, kept@, k, kept@.len() as int);
            match self.table.find(k) {
                Some(t) => {
                    assert(self.lists@[t as int]@ == list);
                    proof {
                        ids_below(cells@, kept@, k, kept@.len() as int);
                    }
                    let ids: &Vec<usize> = &self.lists[t];
                    let mut m: usize = 0;
                    while m < ids.len()
                        invariant
                            m <= ids@.len(),
                            ids@ == list,
                            pick(*close, kept@, list, i, 0) == pick(*close, kept@, list, i, m as int),
                        decreases ids@.len() - m,
                    {
                        let id: usize = ids[m];
                        assert(list[m as int] < kept@.len());
                        let same: bool = close(kept[id], i);
                        assert(same <==> says(*close, kept@[id as int], i));
                        if same {
                            return Some(id);
                        }
                        m = m + 1;
                    }
                },
                None => {
                    proof {
                        assert forall|id: int| 0 <= id < kept@.len() implies cell_key(cells@[#[trigger] kept@[id] as int]) != k by {
                            assert(self.table.keys().contains(cell_key(cells@[kept@[id] as int])));
                        }
                        ids_nowhere(cells@, kept@, k, kept@.len() as int);
                    }
                },
            }
            d = d + 1;
        }
        None
    }

    /// Note that point `i` is kept.
    fn note(&mut self, cells: &Vec<(i64, i64, i64)>, Ghost(kept): Ghost<Seq<usize>>, id: usize, i: usize)
        requires
            old(self).holds(cells@, kept),
            id == kept.len(),
            i < cells@.len(),
        ensures
            final(self).holds(cells@, kept.push(i)),
    {
        let ghost keys0 = self.table.keys();
        let ghost lists0 = self.lists@;
        let ghost more = kept.push(i);
        let (x, y, z) = cells[i];
        let k: Key = Key { x: x as i128, y: y as i128, z: z as i128 };
        assert(k == cell_key(cells@[i as int]));
        let t: usize = self.table.id_of(k);
        if t == self.lists.len() {
            proof {
                assert forall|j: int| 0 <= j < kept.len() implies cell_key(cells@[#[trigger] kept[j] as int]) != k by {
                    if cell_key(cells@[kept[j] as int]) == k {
                        assert(keys0.contains(k));
                    }
                }
                ids_nowhere(cells@, kept, k, kept.len() as int);
            }
            let mut list: Vec<usize> = Vec::new();
            list.push(id);
            self.lists.push(list);
            assert(list@ =~= ids_in(cells@, kept, k, kept.len() as int).push(id));
        } else {
            assert(keys0[t as int] == k);
            assert(lists0[t as int]@ == ids_in(cells@, kept, k, kept.len() as int));
            self.lists[t].push(id);
        }
        proof {
            let keys = self.table.keys();
            assert(keys == noted(keys0, k));
            assert forall|u: int| 0 <= u < self.lists@.len() implies (#[trigger] self.lists@[u])@ == ids_in(
                cells@,
                more,
                keys[u],
                more.len() as int,
            ) by {
                ids_same(cells@, kept, i, keys[u], kept.len() as int);
                assert(more[kept.len() as int] == i);
                if u != t {
                    assert(u < lists0.len());
                    assert(keys[u] == keys0[u]);
                    assert(self.lists@[u] == lists0[u]);
                    assert(keys[u] != k) by {
                        self.table.keys_differ(u, t as int);
                    }
                }
            }
            assert forall|j: int| 0 <= j < more.len() implies keys.contains(cell_key(cells@[#[trigger] more[j] as int])) by {
                if j < kept.len() {
                    assert(keys0.contains(cell_key(cells@[kept[j] as int])));
                    let u = choose|u: int| 0 <= u < keys0.len() && keys0[u] == cell_key(cells@[kept[j] as int]);
                    assert(keys[u] == keys0[u]);
                } else {
                    assert(keys[t as int] == k);
                }
            }
        }
    }
}

/// Weld points that coincide. A point is welded to the first kept point, in the order of the cells
/// about its own, that `close` says it coincides with; otherwise it is kept. The result lists the
/// kept points, and the number of the kept point that stands for each.
#[verifier::loop_isolation(false)]
pub fn weld<F: Fn(usize, usize) -> bool>(cells: &Vec<(i64, i64, i64)>, close: &F) -> (r: (Vec<usize>, Vec<usize>))
    requires
        decides(*close, cells@.len() as int, cells@.len() as int),
    ensures
        (r.0@, r.1@) == welded(cells@, *close, cells@.len() as int),
{
    let n: usize = cells.len();
    let mut grid: Grid = Grid { table: KeyTable::new(n), lists: Vec::new() };
    let mut kept: Vec<usize> = Vec::new();
    let mut remap: Vec<usize> = Vec::new();
    let mut i: usize = 0;
    while i < n
        invariant
            i <= n,
            grid.holds(cells@, kept@),
            kept@.len() <= i,
            forall|k: int| 0 <= k < kept@.len() ==> (#[trigger] kept@[k]) < i,
            (kept@, remap@) == welded(cells@, *close, i as int),
        decreases n - i,
    {
        match grid.search(cells, close, &kept, i) {
            Some(id) => {
                remap.push(id);
            },
            None => {
                let id: usize = kept.len();
                grid.note(cells, Ghost(kept@), id, i);
                kept.push(i);
                remap.push(id);
            },
        }
        i = i + 1;
    }
    (kept, remap)
}

proof fn pick_is_close<F: Fn(usize, usize) -> bool>(close: F, kept: Seq<usize>, list: Seq<usize>, i: usize, m: int)
    requires
        0 <= m,
    ensures
        pick(close, kept, list, i, m) matches Some(id) ==> list.contains(id) && says(close, kept[id as int], i),
    decreases list.len() - m,
{
    if m < list.len() {
        if says(close, kept[list[m] as int], i) {
            assert(list.contains(list[m]));
        } else {
            pick_is_close(close, kept, list, i, m + 1);
        }
    }
}

proof fn hit_is_close<F: Fn(usize, usize) -> bool>(cells: Seq<(i64, i64, i64)>, close: F, kept: Seq<usize>, i: usize, d: int)
    requires
        0 <= d,
        kept.len() <= usize::MAX,
    ensures
        hit_from(cells, close, kept, i, d) matches Some(id) ==> id < kept.len() && says(close, kept[id as int], i),
    decreases 27 - d,
{
    if d < 27 {
        let k = near_key(cells[i as int], d);
        let list = ids_in(cells, kept, k, kept.len() as int);
        pick_is_close(close, kept, list, i, 0);
        ids_below(cells, kept, k, kept.len() as int);
        hit_is_close(cells, close, kept, i, d + 1);
    }
}

/// Every point is kept, or coincides with the kept point that stands for it.
pub proof fn welding_moves_nothing_far<F: Fn(usize, usize) -> bool>(cells: Seq<(i64, i64, i64)>, close: F, n: int, i: int)
    requires
        0 <= i < n <= cells.len() <= usize::MAX,
    ensures
        ({
            let (kept, remap) = welded(cells, close, n);
            &&& kept.len() <= n
            &&& remap.len() == n
            &&& remap[i] < kept.len()
            &&& kept[remap[i] as int] == i || says(close, kept[remap[i] as int], i as usize)
        }),
    decreases n,
{
    weld_lengths(cells, close, n - 1);
    let (kept, remap) = welded(cells, close, n - 1);
    if i < n - 1 {
        welding_moves_nothing_far(cells, close, n - 1, i);
    } else {
        hit_is_close(cells, close, kept, i as usize, 0);
    }
}

proof fn weld_lengths<F: Fn(usize, usize) -> bool>(cells: Seq<(i64, i64, i64)>, close: F, n: int)
    requires
        0 <= n,
    ensures
        welded(cells, close, n).0.len() <= n,
        welded(cells, close, n).1.len() == n,
    decreases n,
{
    if n > 0 {
        weld_lengths(cells, close, n - 1);
    }
}

// ---- model edges from faces ----

pub open spec fn face_key(f: u32) -> Key {
    Key { x: f as i128, y: 0, z: 0 }
}

/// Number the faces that triangles lie on, in the order in which they come up.
#[verifier::loop_isolation(false)]
pub fn number_faces(ids: &Vec<u32>) -> (r: (Vec<usize>, usize))
    ensures
        r.0@.len() == ids@.len(),
        r.1 == firsts(ids@).len(),
        forall|t: int| 0 <= t < ids@.len() ==> (#[trigger] r.0@[t]) < r.1 && firsts(ids@)[r.0@[t] as int] == ids@[t],
{
    let mut keys: Vec<Key> = Vec::new();
    let mut t: usize = 0;
    while t < ids.len()
        invariant
            t <= ids@.len(),
            keys@ == Seq::new(t as nat, |i: int| face_key(ids@[i])),
        decreases ids@.len() - t,
    {
        keys.push(Key { x: ids[t] as i128, y: 0, z: 0 });
        t = t + 1;
        assert(keys@ =~= Seq::new(t as nat, |i: int| face_key(ids@[i])));
    }
    let (table, face) = number_keys(&keys);
    proof {
        assert(keys@ =~= ids@.map_values(|f: u32| face_key(f)));
        firsts_of_keys(ids@);
        assert forall|i: int| 0 <= i < ids@.len() implies (#[trigger] face@[i]) < firsts(ids@).len() && firsts(ids@)[face@[i] as int] == ids@[i] by {
            let m = face@[i] as int;
            assert(firsts(keys@)[m] == keys@[i]);
            assert(firsts(keys@)[m] == face_key(firsts(ids@)[m]));
        }
    }
    let n: usize = table.len();
    (face, n)
}

proof fn firsts_of_keys(ids: Seq<u32>)
    ensures
        firsts(ids.map_values(|f: u32| face_key(f))) == firsts(ids).map_values(|f: u32| face_key(f)),
    decreases ids.len(),
{
    let keys = ids.map_values(|f: u32| face_key(f));
    if ids.len() > 0 {
        let rest = ids.drop_last();
        firsts_of_keys(rest);
        assert(keys.drop_last() =~= rest.map_values(|f: u32| face_key(f)));
        let seen = firsts(rest);
        let seen_keys = firsts(rest).map_values(|f: u32| face_key(f));
        if seen.contains(ids.last()) {
            let m = choose|m: int| 0 <= m < seen.len() && seen[m] == ids.last();
            assert(seen_keys[m] == keys.last());
        }
        if seen_keys.contains(keys.last()) {
            let m = choose|m: int| 0 <= m < seen_keys.len() && seen_keys[m] == keys.last();
            assert(seen[m] == ids.last());
        }
        assert(firsts(keys) =~= firsts(ids).map_values(|f: u32| face_key(f)));
    } else {
        assert(keys =~= Seq::<Key>::empty());
        assert(firsts(ids).map_values(|f: u32| face_key(f)) =~= Seq::<Key>::empty());
    }
}

/// The faces that meet smoothly at one of the first `n` edges.
pub open spec fn merges(uses: Seq<Vec<usize>>, face: Seq<usize>, smooth: Seq<bool>, n: int) -> Seq<(usize, usize)>
    decreases n,
{
    if n <= 0 {
        Seq::empty()
    } else {
        let on = uses[n - 1]@;
        if on.len() == 2 && face[on[0] as int] != face[on[1] as int] && smooth[n - 1] {
            merges(uses, face, smooth, n - 1).push((face[on[0] as int], face[on[1] as int]))
        } else {
            merges(uses, face, smooth, n - 1)
        }
    }
}

/// The edge bounds a smooth face: it has one triangle, or two on faces that no smooth meeting joins.
pub open spec fn is_boundary(uses: Seq<Vec<usize>>, face: Seq<usize>, smooth: Seq<bool>, e: int) -> bool {
    let on = uses[e]@;
    if on.len() == 2 {
        !linked(merges(uses, face, smooth, uses.len() as int), face[on[0] as int], face[on[1] as int])
    } else {
        on.len() == 1
    }
}

/// The edge is a hard one: a boundary with one triangle, or one that bends more than the tangent
/// angle.
pub open spec fn is_hard(uses: Seq<Vec<usize>>, face: Seq<usize>, smooth: Seq<bool>, sharp: Seq<bool>, e: int) -> bool {
    is_boundary(uses, face, smooth, e) && (uses[e]@.len() == 1 || sharp[e])
}

/// Two faces meet at the edge within the crease angle, but at more than the tangent angle.
pub open spec fn meets_gently(uses: Seq<Vec<usize>>, face: Seq<usize>, smooth: Seq<bool>, sharp: Seq<bool>, e: int) -> bool {
    let on = uses[e]@;
    on.len() == 2 && face[on[0] as int] != face[on[1] as int] && smooth[e] && sharp[e]
}

/// The edge is a gentle one: two faces meet there gently, or it is a boundary that is not hard.
pub open spec fn is_gentle(uses: Seq<Vec<usize>>, face: Seq<usize>, smooth: Seq<bool>, sharp: Seq<bool>, e: int) -> bool {
    meets_gently(uses, face, smooth, sharp, e) || is_boundary(uses, face, smooth, e) && !is_hard(uses, face, smooth, sharp, e)
}

/// The hard edges among the first `n`, in order.
pub open spec fn hard_edges(uses: Seq<Vec<usize>>, face: Seq<usize>, smooth: Seq<bool>, sharp: Seq<bool>, n: int) -> Seq<usize>
    decreases n,
{
    if n <= 0 {
        Seq::empty()
    } else if is_hard(uses, face, smooth, sharp, n - 1) {
        hard_edges(uses, face, smooth, sharp, n - 1).push((n - 1) as usize)
    } else {
        hard_edges(uses, face, smooth, sharp, n - 1)
    }
}

/// The gentle edges among the first `n`, in order.
pub open spec fn gentle_edges(uses: Seq<Vec<usize>>, face: Seq<usize>, smooth: Seq<bool>, sharp: Seq<bool>, n: int) -> Seq<usize>
    decreases n,
{
    if n <= 0 {
        Seq::empty()
    } else if is_gentle(uses, face, smooth, sharp, n - 1) {
        gentle_edges(uses, face, smooth, sharp, n - 1).push((n - 1) as usize)
    } else {
        gentle_edges(uses, face, smooth, sharp, n - 1)
    }
}

/// Find the model edges: the hard ones, and the gentle ones.
///
/// `uses` lists the triangles at each edge, `face` the face of each triangle out of `faces`. For an
/// edge between two triangles `smooth` tells whether they meet within the crease angle, and `sharp`
/// whether they meet at more than the tangent angle.
#[verifier::loop_isolation(false)]
pub fn feature_edges_by_face(
    uses: &Vec<Vec<usize>>,
    face: &Vec<usize>,
    faces: usize,
    smooth: &Vec<bool>,
    sharp: &Vec<bool>,
) -> (r: (Vec<usize>, Vec<usize>))
    requires
        smooth@.len() == uses@.len(),
        sharp@.len() == uses@.len(),
        forall|e: int, k: int| 0 <= e < uses@.len() && 0 <= k < uses@[e]@.len() ==> (#[trigger] uses@[e]@[k]) < face@.len(),
        forall|t: int| 0 <= t < face@.len() ==> (#[trigger] face@[t]) < faces,
    ensures
        r.0@ == hard_edges(uses@, face@, smooth@, sharp@, uses@.len() as int),
        r.1@ == gentle_edges(uses@, face@, smooth@, sharp@, uses@.len() as int),
{
    let n: usize = uses.len();
    let mut uf: Uf = Uf::new(faces);
    proof {
        partitions_nothing(uf.roots());
    }
    let mut e: usize = 0;
    while e < n
        invariant
            e <= n,
            uf.wf(),
            uf.roots().len() == faces,
            partitions(uf.roots(), merges(uses@, face@, smooth@, e as int)),
        decreases n - e,
    {
        if uses[e].len() == 2 {
            assert(uses@[e as int]@[0] < face@.len() && uses@[e as int]@[1] < face@.len());
            let (f, g): (usize, usize) = (face[uses[e][0]], face[uses[e][1]]);
            if f != g && smooth[e] {
                proof {
                    partitions_push(uf.roots(), merges(uses@, face@, smooth@, e as int), f, g);
                }
                uf.union(f, g);
            }
        }
        e = e + 1;
    }
    let ghost roots = uf.roots();
    let mut hard: Vec<usize> = Vec::new();
    let mut gentle: Vec<usize> = Vec::new();
    let mut k: usize = 0;
    while k < n
        invariant
            k <= n,
            uf.wf(),
            uf.roots() == roots,
            hard@ == hard_edges(uses@, face@, smooth@, sharp@, k as int),
            gentle@ == gentle_edges(uses@, face@, smooth@, sharp@, k as int),
        decreases n - k,
    {
        let on: &Vec<usize> = &uses[k];
        if on.len() == 2 {
            assert(uses@[k as int]@[0] < face@.len() && uses@[k as int]@[1] < face@.len());
            let (f, g): (usize, usize) = (face[on[0]], face[on[1]]);
            let rf: usize = uf.find(f);
            let rg: usize = uf.find(g);
            assert(roots[f as int] == roots[g as int] <==> linked(merges(uses@, face@, smooth@, n as int), f, g));
            if rf != rg && sharp[k] {
                proof {
                    hard_edges_do_not_meet_gently(uses@, face@, smooth@, sharp@, k as int);
                }
                hard.push(k);
            } else if rf != rg || (f != g && smooth[k] && sharp[k]) {
                gentle.push(k);
            }
        } else if on.len() == 1 {
            hard.push(k);
        }
        k = k + 1;
    }
    (hard, gentle)
}

/// An edge inside one face is no model edge: cutting a flat face into triangles adds none.
pub proof fn no_edges_within_a_face(uses: Seq<Vec<usize>>, face: Seq<usize>, smooth: Seq<bool>, sharp: Seq<bool>, e: int)
    requires
        0 <= e < uses.len(),
        uses[e]@.len() == 2,
        face[uses[e]@[0] as int] == face[uses[e]@[1] as int],
    ensures
        !is_boundary(uses, face, smooth, e),
        !is_gentle(uses, face, smooth, sharp, e),
{
    linked_reflexive(merges(uses, face, smooth, uses.len() as int), face[uses[e]@[0] as int]);
}

proof fn smooth_meeting_merges(uses: Seq<Vec<usize>>, face: Seq<usize>, smooth: Seq<bool>, n: int, e: int)
    requires
        0 <= e < n,
        uses[e]@.len() == 2,
        face[uses[e]@[0] as int] != face[uses[e]@[1] as int],
        smooth[e],
    ensures
        merges(uses, face, smooth, n).contains((face[uses[e]@[0] as int], face[uses[e]@[1] as int])),
    decreases n,
{
    let pair = (face[uses[e]@[0] as int], face[uses[e]@[1] as int]);
    let all = merges(uses, face, smooth, n);
    if e == n - 1 {
        assert(all.last() == pair);
    } else {
        smooth_meeting_merges(uses, face, smooth, n - 1, e);
        let fewer = merges(uses, face, smooth, n - 1);
        let k = choose|k: int| 0 <= k < fewer.len() && fewer[k] == pair;
        assert(all[k] == pair);
    }
}

/// An edge at which faces meet gently lies inside a smooth face.
pub proof fn gentle_meetings_bound_nothing(uses: Seq<Vec<usize>>, face: Seq<usize>, smooth: Seq<bool>, sharp: Seq<bool>, e: int)
    requires
        0 <= e < uses.len(),
        meets_gently(uses, face, smooth, sharp, e),
    ensures
        !is_boundary(uses, face, smooth, e),
{
    let (f, g) = (face[uses[e]@[0] as int], face[uses[e]@[1] as int]);
    let all = merges(uses, face, smooth, uses.len() as int);
    smooth_meeting_merges(uses, face, smooth, uses.len() as int, e);
    let k = choose|k: int| 0 <= k < all.len() && all[k] == (f, g);
    assert(adjacent(all, f, g));
    adjacent_linked(all, f, g);
}

proof fn hard_edges_do_not_meet_gently(uses: Seq<Vec<usize>>, face: Seq<usize>, smooth: Seq<bool>, sharp: Seq<bool>, e: int)
    requires
        0 <= e < uses.len(),
        is_boundary(uses, face, smooth, e),
    ensures
        !meets_gently(uses, face, smooth, sharp, e),
{
    if meets_gently(uses, face, smooth, sharp, e) {
        gentle_meetings_bound_nothing(uses, face, smooth, sharp, e);
    }
}

/// No edge is in both lists, and every boundary is in one of them.
pub proof fn every_boundary_is_listed_once(uses: Seq<Vec<usize>>, face: Seq<usize>, smooth: Seq<bool>, sharp: Seq<bool>, e: int)
    requires
        0 <= e < uses.len(),
    ensures
        !(is_hard(uses, face, smooth, sharp, e) && is_gentle(uses, face, smooth, sharp, e)),
        is_boundary(uses, face, smooth, e) ==> is_hard(uses, face, smooth, sharp, e) || is_gentle(uses, face, smooth, sharp, e),
{
    if is_boundary(uses, face, smooth, e) {
        hard_edges_do_not_meet_gently(uses, face, smooth, sharp, e);
    }
}

// ---- what is welded, and what is listed ----

/// Operands are too dense exactly above twenty thousand triangles, whichever of the two has them.
pub proof fn density_counts_triangles(a: int, b: int)
    requires
        0 <= a,
        0 <= b,
    ensures
        too_dense(a, b) == too_dense(b, a),
        too_dense(a, b) <==> a + b >= 3 * 20_001,
{
}

/// The first attempt moves nothing; no two attempts move alike along any axis, and none moves along
/// two axes alike. No step is longer than thirty-one.
pub proof fn nudges_are_uneven(i: int, j: int, x: int, y: int)
    requires
        0 <= i < j < 4,
        0 <= x < 3,
        0 <= y < 3,
    ensures
        nudges().len() == 4,
        nudges()[0]@[x] == 0,
        nudges()[i]@[x] != nudges()[j]@[x],
        x != y ==> nudges()[j]@[x] != nudges()[j]@[y],
        -31 <= nudges()[j]@[x] <= 31,
        11 <= nudges()[j]@[x] || nudges()[j]@[x] <= -11,
{
    assert(x == 0 || x == 1 || x == 2);
    assert(y == 0 || y == 1 || y == 2);
    assert(j == 1 || j == 2 || j == 3);
    assert(i == 0 || i == 1 || i == 2);
}

/// The cells touch, or are one.
pub open spec fn near(a: (i64, i64, i64), b: (i64, i64, i64)) -> bool {
    -1 <= b.0 - a.0 <= 1 && -1 <= b.1 - a.1 <= 1 && -1 <= b.2 - a.2 <= 1
}

/// Cell `a` comes before cell `b`: by the first coordinate, then the second, then the third.
pub open spec fn cell_before(a: (i64, i64, i64), b: (i64, i64, i64)) -> bool {
    a.0 < b.0 || a.0 == b.0 && (a.1 < b.1 || a.1 == b.1 && a.2 < b.2)
}

spec fn slot(c: (i64, i64, i64), b: (i64, i64, i64)) -> int {
    9 * (b.0 - c.0 + 1) + 3 * (b.1 - c.1 + 1) + (b.2 - c.2 + 1)
}

proof fn near_key_is_slot(c: (i64, i64, i64), b: (i64, i64, i64), d: int)
    requires
        0 <= d < 27,
    ensures
        near_key(c, d) == cell_key(b) <==> near(c, b) && slot(c, b) == d,
{
}

#[verifier::spinoff_prover]
#[verifier::rlimit(50)]
proof fn ids_in_rise(cells: Seq<(i64, i64, i64)>, kept: Seq<usize>, k: Key, n: int)
    requires
        0 <= n <= kept.len() <= usize::MAX,
    ensures
        forall|a: int, b: int| 0 <= a < b < ids_in(cells, kept, k, n).len() ==> #[trigger] ids_in(cells, kept, k, n)[a] < #[trigger] ids_in(cells, kept, k, n)[b],
        forall|id: usize| #[trigger] ids_in(cells, kept, k, n).contains(id) <==> id < n && cell_key(cells[kept[id as int] as int]) == k,
    decreases n,
{
    let all = ids_in(cells, kept, k, n);
    ids_below(cells, kept, k, n);
    if n > 0 {
        ids_in_rise(cells, kept, k, n - 1);
        ids_below(cells, kept, k, n - 1);
        let rest = ids_in(cells, kept, k, n - 1);
        assert(forall|a: int| 0 <= a < rest.len() ==> #[trigger] all[a] == rest[a]);
        assert forall|id: usize| #[trigger] all.contains(id) <==> id < n && cell_key(cells[kept[id as int] as int]) == k by {
            if rest.contains(id) {
                let a = choose|a: int| 0 <= a < rest.len() && rest[a] == id;
                assert(all[a] == id);
            }
            if all.len() > rest.len() {
                assert(all[rest.len() as int] == n - 1);
            }
            if all.contains(id) {
                let a = choose|a: int| 0 <= a < all.len() && all[a] == id;
                if a < rest.len() {
                    assert(rest[a] == id);
                    assert(rest.contains(id));
                }
            }
        }
    }
}

proof fn pick_is_first<F: Fn(usize, usize) -> bool>(close: F, kept: Seq<usize>, list: Seq<usize>, i: usize, m: int, at: int)
    requires
        0 <= m <= at < list.len(),
        says(close, kept[list[at] as int], i),
        forall|a: int, b: int| 0 <= a < b < list.len() ==> #[trigger] list[a] < #[trigger] list[b],
    ensures
        pick(close, kept, list, i, m) is Some,
        pick(close, kept, list, i, m)->0 <= list[at],
    decreases at - m,
{
    if !says(close, kept[list[m] as int], i) {
        pick_is_first(close, kept, list, i, m + 1, at);
    }
}

#[verifier::spinoff_prover]
#[verifier::rlimit(50)]
proof fn hit_is_first<F: Fn(usize, usize) -> bool>(cells: Seq<(i64, i64, i64)>, close: F, kept: Seq<usize>, i: usize, d: int, other: usize)
    requires
        0 <= d < 27,
        kept.len() <= usize::MAX,
        other < kept.len(),
        near(cells[i as int], cells[kept[other as int] as int]),
        slot(cells[i as int], cells[kept[other as int] as int]) >= d,
        says(close, kept[other as int], i),
    ensures
        ({
            let c = cells[i as int];
            let hit = hit_from(cells, close, kept, i, d);
            let id = hit->0;
            &&& hit is Some && id < kept.len()
            &&& near(c, cells[kept[id as int] as int]) && slot(c, cells[kept[id as int] as int]) >= d
            &&& {
                ||| slot(c, cells[kept[id as int] as int]) < slot(c, cells[kept[other as int] as int])
                ||| slot(c, cells[kept[id as int] as int]) == slot(c, cells[kept[other as int] as int]) && id <= other
            }
        }),
    decreases 27 - d,
{
    let c = cells[i as int];
    let k = near_key(c, d);
    let list = ids_in(cells, kept, k, kept.len() as int);
    ids_in_rise(cells, kept, k, kept.len() as int);
    near_key_is_slot(c, cells[kept[other as int] as int], d);
    pick_is_close(close, kept, list, i, 0);
    if list.contains(other) {
        let at = choose|at: int| 0 <= at < list.len() && list[at] == other;
        pick_is_first(close, kept, list, i, 0, at);
    }
    match pick(close, kept, list, i, 0) {
        Some(id) => {
            assert(list.contains(id));
            near_key_is_slot(c, cells[kept[id as int] as int], d);
        },
        None => {
            assert(slot(c, cells[kept[other as int] as int]) > d);
            hit_is_first(cells, close, kept, i, d + 1, other);
        },
    }
}

/// A point is welded where a kept point in its own cell or one that touches it coincides with it: to
/// the one in the first such cell, and there to the one that was kept first. A point that coincides
/// with none of them is kept.
#[verifier::spinoff_prover]
#[verifier::rlimit(50)]
pub proof fn points_weld_to_what_is_near<F: Fn(usize, usize) -> bool>(cells: Seq<(i64, i64, i64)>, close: F, n: int, other: usize)
    requires
        0 < n <= cells.len() <= usize::MAX,
        other < welded(cells, close, n - 1).0.len(),
        near(cells[n - 1], cells[welded(cells, close, n - 1).0[other as int] as int]),
        says(close, welded(cells, close, n - 1).0[other as int], (n - 1) as usize),
    ensures
        ({
            let kept = welded(cells, close, n - 1).0;
            let id = welded(cells, close, n).1.last();
            &&& welded(cells, close, n).0 == kept
            &&& id < kept.len() && near(cells[n - 1], cells[kept[id as int] as int])
            &&& cell_before(cells[kept[id as int] as int], cells[kept[other as int] as int]) || cells[kept[id as int] as int]
                == cells[kept[other as int] as int] && id <= other
        }),
{
    weld_lengths(cells, close, n - 1);
    hit_is_first(cells, close, welded(cells, close, n - 1).0, (n - 1) as usize, 0, other);
}

/// A point that coincides with no kept point near it is kept as the next.
#[verifier::spinoff_prover]
#[verifier::rlimit(50)]
pub proof fn points_apart_are_kept<F: Fn(usize, usize) -> bool>(cells: Seq<(i64, i64, i64)>, close: F, n: int)
    requires
        0 < n <= cells.len() <= usize::MAX,
        forall|id: usize|
            id < welded(cells, close, n - 1).0.len() && near(cells[n - 1], cells[#[trigger] welded(cells, close, n - 1).0[id as int] as int])
                ==> !says(close, welded(cells, close, n - 1).0[id as int], (n - 1) as usize),
    ensures
        ({
            let kept = welded(cells, close, n - 1).0;
            &&& welded(cells, close, n).0 == kept.push((n - 1) as usize)
            &&& welded(cells, close, n).1 == welded(cells, close, n - 1).1.push(kept.len() as usize)
        }),
{
    weld_lengths(cells, close, n - 1);
    let kept = welded(cells, close, n - 1).0;
    hit_is_near(cells, close, kept, (n - 1) as usize, 0);
    hit_is_close(cells, close, kept, (n - 1) as usize, 0);
    if let Some(id) = hit_from(cells, close, kept, (n - 1) as usize, 0) {
        assert(near(cells[n - 1], cells[kept[id as int] as int]));
        assert(!says(close, kept[id as int], (n - 1) as usize));
    }
}

proof fn hit_is_near<F: Fn(usize, usize) -> bool>(cells: Seq<(i64, i64, i64)>, close: F, kept: Seq<usize>, i: usize, d: int)
    requires
        0 <= d,
        kept.len() <= usize::MAX,
    ensures
        hit_from(cells, close, kept, i, d) matches Some(id) ==> id < kept.len() && near(cells[i as int], cells[kept[id as int] as int]),
    decreases 27 - d,
{
    if d < 27 {
        let k = near_key(cells[i as int], d);
        let list = ids_in(cells, kept, k, kept.len() as int);
        ids_in_rise(cells, kept, k, kept.len() as int);
        pick_is_close(close, kept, list, i, 0);
        if let Some(id) = pick(close, kept, list, i, 0) {
            assert(list.contains(id));
            near_key_is_slot(cells[i as int], cells[kept[id as int] as int], d);
        }
        hit_is_near(cells, close, kept, i, d + 1);
    }
}

/// Two different faces merge where two triangles of theirs, and no third, meet smoothly at an edge.
pub proof fn smooth_meetings_merge_faces(uses: Seq<Vec<usize>>, face: Seq<usize>, smooth: Seq<bool>, n: int)
    requires
        0 <= n <= uses.len(),
    ensures
        merges(uses, face, smooth, n) == Seq::new(n as nat, |i: int| i).filter(|e: int| smooth[e] && uses[e]@.len() == 2 && face[uses[e]@[0] as int] != face[uses[e]@[1] as int]).map_values(|e: int| (face[uses[e]@[0] as int], face[uses[e]@[1] as int])),
    decreases n,
{
    reveal(Seq::filter);
    let (test, made) = (|e: int| smooth[e] && uses[e]@.len() == 2 && face[uses[e]@[0] as int] != face[uses[e]@[1] as int], |e: int| (face[uses[e]@[0] as int], face[uses[e]@[1] as int]));
    let all = Seq::new(n as nat, |i: int| i);
    if n > 0 {
        smooth_meetings_merge_faces(uses, face, smooth, n - 1);
        let rest = Seq::new((n - 1) as nat, |i: int| i);
        assert(all.drop_last() =~= rest);
        assert(all.last() == n - 1);
        let kept = rest.filter(test);
        assert(kept.push(n - 1).map_values(made) =~= kept.map_values(made).push(made(n - 1)));
        assert(merges(uses, face, smooth, n) =~= all.filter(test).map_values(made));
    } else {
        assert(merges(uses, face, smooth, n) =~= all.filter(test).map_values(made));
    }
}

/// The hard edges are those that one triangle alone has, and those between two smooth faces that
/// bend sharply there, in order.
pub proof fn hard_edges_are_open_or_sharp(uses: Seq<Vec<usize>>, face: Seq<usize>, smooth: Seq<bool>, sharp: Seq<bool>, n: int)
    requires
        0 <= n <= uses.len(),
    ensures
        hard_edges(uses, face, smooth, sharp, n) == Seq::new(n as nat, |i: int| i).filter(|e: int| uses[e]@.len() == 1 || uses[e]@.len() == 2 && sharp[e] && !linked(merges(uses, face, smooth, uses.len() as int), face[uses[e]@[0] as int], face[uses[e]@[1] as int])).map_values(|e: int| e as usize),
    decreases n,
{
    reveal(Seq::filter);
    let (test, made) = (|e: int| uses[e]@.len() == 1 || uses[e]@.len() == 2 && sharp[e] && !linked(merges(uses, face, smooth, uses.len() as int), face[uses[e]@[0] as int], face[uses[e]@[1] as int]), |e: int| e as usize);
    let all = Seq::new(n as nat, |i: int| i);
    if n > 0 {
        hard_edges_are_open_or_sharp(uses, face, smooth, sharp, n - 1);
        let rest = Seq::new((n - 1) as nat, |i: int| i);
        assert(all.drop_last() =~= rest);
        assert(all.last() == n - 1);
        let kept = rest.filter(test);
        assert(kept.push(n - 1).map_values(made) =~= kept.map_values(made).push(made(n - 1)));
        assert(hard_edges(uses, face, smooth, sharp, n) =~= all.filter(test).map_values(made));
    } else {
        assert(hard_edges(uses, face, smooth, sharp, n) =~= all.filter(test).map_values(made));
    }
}

/// The gentle edges lie between two triangles of different faces: those that part smooth faces without
/// bending sharply, and those that bend sharply within one smooth face, where they meet smoothly.
pub proof fn gentle_edges_lie_between_faces(uses: Seq<Vec<usize>>, face: Seq<usize>, smooth: Seq<bool>, sharp: Seq<bool>, n: int)
    requires
        0 <= n <= uses.len(),
    ensures
        gentle_edges(uses, face, smooth, sharp, n) == Seq::new(n as nat, |i: int| i).filter(|e: int| uses[e]@.len() == 2 && (!sharp[e] && !linked(merges(uses, face, smooth, uses.len() as int), face[uses[e]@[0] as int], face[uses[e]@[1] as int]) || sharp[e] && smooth[e] && face[uses[e]@[0] as int] != face[uses[e]@[1] as int])).map_values(|e: int| e as usize),
    decreases n,
{
    reveal(Seq::filter);
    let (test, made) = (|e: int| uses[e]@.len() == 2 && (!sharp[e] && !linked(merges(uses, face, smooth, uses.len() as int), face[uses[e]@[0] as int], face[uses[e]@[1] as int]) || sharp[e] && smooth[e] && face[uses[e]@[0] as int] != face[uses[e]@[1] as int]), |e: int| e as usize);
    let all = Seq::new(n as nat, |i: int| i);
    if n > 0 {
        gentle_edges_lie_between_faces(uses, face, smooth, sharp, n - 1);
        let rest = Seq::new((n - 1) as nat, |i: int| i);
        assert(all.drop_last() =~= rest);
        assert(all.last() == n - 1);
        let kept = rest.filter(test);
        assert(kept.push(n - 1).map_values(made) =~= kept.map_values(made).push(made(n - 1)));
        assert(gentle_edges(uses, face, smooth, sharp, n) =~= all.filter(test).map_values(made));
    } else {
        assert(gentle_edges(uses, face, smooth, sharp, n) =~= all.filter(test).map_values(made));
    }
}

} // verus!
