//! Disjoint sets with path compression.

use vstd::prelude::*;

use crate::first_seen::firsts;
use crate::linking::{linked, linked_nothing, linked_push, linked_symmetric};

verus! {

/// A partition of `0..n`, each class known by one of its members, its root.
pub struct Uf {
    parent: Vec<usize>,
    root: Ghost<Seq<usize>>,
    dist: Ghost<Seq<nat>>,
}

/// The item that `k` links lead to from `x`.
pub open spec fn climbed(links: Seq<usize>, x: usize, k: nat) -> usize
    decreases k,
{
    if k == 0 {
        x
    } else {
        links[climbed(links, x, (k - 1) as nat) as int]
    }
}

/// Following the links from `x` leads past `y`; `x` itself counts.
pub open spec fn leads_past(links: Seq<usize>, x: usize, y: usize) -> bool {
    exists|k: nat| #[trigger] climbed(links, x, k) == y
}

/// The links with `x`, and whatever they led past from it, hung directly under `r`.
pub open spec fn rehung(links: Seq<usize>, x: usize, r: usize) -> Seq<usize> {
    Seq::new(links.len(), |y: int| if leads_past(links, x, y as usize) { r } else { links[y] })
}

impl Uf {
    /// What each item hangs under: an item closer to its root, or the root itself.
    pub closed spec fn links(&self) -> Seq<usize> {
        self.parent@
    }

    /// The root of each item.
    pub closed spec fn roots(&self) -> Seq<usize> {
        self.root@
    }

    /// The parent links form trees: each leads strictly closer to the root that the item is
    /// filed under.
    pub closed spec fn wf(&self) -> bool {
        let n = self.parent@.len();
        &&& self.root@.len() == n
        &&& self.dist@.len() == n
        &&& forall|x: int|
            0 <= x < n ==> {
                &&& (#[trigger] self.parent@[x]) < n
                &&& self.root@[x] < n
                &&& self.root@[self.parent@[x] as int] == self.root@[x]
                &&& self.parent@[self.root@[x] as int] == self.root@[x]
                &&& (self.parent@[x] == x ==> self.root@[x] == x)
                &&& (self.parent@[x] != x ==> self.dist@[self.parent@[x] as int] < self.dist@[x])
                &&& (self.root@[x] != x ==> self.dist@[self.root@[x] as int] < self.dist@[x])
            }
    }

    /// Roots are items, and each is its own root.
    pub proof fn roots_are_fixed(&self, x: int)
        requires
            self.wf(),
            0 <= x < self.roots().len(),
        ensures
            self.roots()[x] < self.roots().len(),
            self.roots()[self.roots()[x] as int] == self.roots()[x],
    {
        let p = self.parent@[x];
        let r = self.root@[x] as int;
        let q = self.parent@[r];
    }

    /// The links of an item lead to its root, which hangs under itself.
    pub proof fn links_lead_to_the_root(&self, x: usize)
        requires
            self.wf(),
            x < self.roots().len(),
        ensures
            self.links().len() == self.roots().len(),
            leads_past(self.links(), x, self.roots()[x as int]),
            self.links()[self.roots()[x as int] as int] == self.roots()[x as int],
    {
        self.climb_ends(x, x, 0);
        let p = self.parent@[x as int];
    }

    proof fn climb_ends(&self, x: usize, c: usize, k: nat)
        requires
            self.wf(),
            x < self.parent@.len(),
            c < self.parent@.len(),
            c == climbed(self.parent@, x, k),
            self.root@[c as int] == self.root@[x as int],
        ensures
            leads_past(self.parent@, x, self.root@[x as int]),
        decreases self.dist@[c as int],
    {
        let p = self.parent@[c as int];
        if p != c {
            assert(climbed(self.parent@, x, k + 1) == p);
            self.climb_ends(x, p, k + 1);
        }
    }

    /// The links never lead out of a class, so that finding a root re-hangs nothing of another.
    pub proof fn links_stay_in_the_class(&self, x: usize, y: usize)
        requires
            self.wf(),
            x < self.roots().len(),
            leads_past(self.links(), x, y),
        ensures
            y < self.roots().len(),
            self.roots()[y as int] == self.roots()[x as int],
    {
        let k = choose|k: nat| #[trigger] climbed(self.links(), x, k) == y;
        self.climb_stays_inside(x, k);
    }

    proof fn climb_stays_inside(&self, x: usize, k: nat)
        requires
            self.wf(),
            x < self.parent@.len(),
        ensures
            climbed(self.parent@, x, k) < self.parent@.len(),
            self.root@[climbed(self.parent@, x, k) as int] == self.root@[x as int],
        decreases k,
    {
        if k > 0 {
            self.climb_stays_inside(x, (k - 1) as nat);
            let p = self.parent@[climbed(self.parent@, x, (k - 1) as nat) as int];
        }
    }

    /// `n` items, each alone in its class.
    pub fn new(n: usize) -> (uf: Self)
        ensures
            uf.wf(),
            uf.links() =~= Seq::new(n as nat, |i: int| i as usize),
            uf.roots() =~= Seq::new(n as nat, |i: int| i as usize),
    {
        let mut parent: Vec<usize> = Vec::with_capacity(n);
        for i in 0..n
            invariant
                parent@ =~= Seq::new(i as nat, |k: int| k as usize),
        {
            parent.push(i);
        }
        Uf {
            parent,
            root: Ghost(Seq::new(n as nat, |i: int| i as usize)),
            dist: Ghost(Seq::new(n as nat, |i: int| 0nat)),
        }
    }

    /// The number of items.
    pub fn len(&self) -> (n: usize)
        requires
            self.wf(),
        ensures
            n == self.roots().len(),
    {
        self.parent.len()
    }

    /// The root of `x`, with every item on the way re-hung directly under it. No class changes.
    #[verifier::spinoff_prover]
    #[verifier::rlimit(50)]
    pub fn find(&mut self, x: usize) -> (r: usize)
        requires
            old(self).wf(),
            x < old(self).roots().len(),
        ensures
            final(self).wf(),
            final(self).roots() == old(self).roots(),
            r == old(self).roots()[x as int],
            final(self).links() == rehung(old(self).links(), x, r),
    {
        let mut r: usize = x;
        while self.parent[r] != r
            invariant
                self.wf(),
                *self == *old(self),
                x < self.parent@.len(),
                r < self.parent@.len(),
                self.root@[r as int] == self.root@[x as int],
            decreases self.dist@[r as int],
        {
            r = self.parent[r];
        }
        let ghost links = self.parent@;
        let ghost mut k: nat = 0;
        let mut c: usize = x;
        while self.parent[c] != r
            invariant
                self.wf(),
                self.root@ == old(self).root@,
                self.dist@ == old(self).dist@,
                self.parent@.len() == old(self).parent@.len(),
                c < self.parent@.len(),
                x < self.parent@.len(),
                r < self.parent@.len(),
                self.root@[x as int] == r,
                self.root@[c as int] == r,
                self.parent@[r as int] == r,
                links == old(self).parent@,
                links.len() == self.parent@.len(),
                links[r as int] == r,
                c == climbed(links, x, k),
                forall|j: nat| j < k ==> (#[trigger] climbed(links, x, j)) < links.len() && self.dist@[climbed(links, x, j) as int] > self.dist@[c as int],
                forall|j: nat| j < k ==> self.parent@[#[trigger] climbed(links, x, j) as int] == r,
                forall|y: int|
                    0 <= y < links.len() && (forall|j: nat| j < k ==> #[trigger] climbed(links, x, j) != y) ==> #[trigger] self.parent@[y] == links[y],
            decreases self.dist@[c as int],
        {
            let next: usize = self.parent[c];
            assert(next == links[c as int]);
            let ghost before = *self;
            self.parent.set(c, r);
            proof {
                let n = before.parent@.len();
                assert(before.parent@[c as int] < n && before.parent@[r as int] < n);
                assert(self.root@[r as int] == r && c != r);
                assert forall|y: int| 0 <= y < n implies {
                    &&& (#[trigger] self.parent@[y]) < n
                    &&& self.root@[y] < n
                    &&& self.root@[self.parent@[y] as int] == self.root@[y]
                    &&& self.parent@[self.root@[y] as int] == self.root@[y]
                    &&& (self.parent@[y] == y ==> self.root@[y] == y)
                    &&& (self.parent@[y] != y ==> self.dist@[self.parent@[y] as int] < self.dist@[y])
                    &&& (self.root@[y] != y ==> self.dist@[self.root@[y] as int] < self.dist@[y])
                } by {
                    assert(before.parent@[y] < n);
                    assert(before.parent@[before.root@[y] as int] == before.root@[y]);
                    assert(before.root@[y] != c);
                }
                assert(self.wf());
                assert(climbed(links, x, k + 1) == next);
                k = k + 1;
            }
            c = next;
        }
        proof {
            assert(links.len() == self.parent.len());
            assert(self.parent@[c as int] == links[c as int]);
            assert(climbed(links, x, k + 1) == r);
            assert forall|y: int| 0 <= y < links.len() implies #[trigger] self.parent@[y] == rehung(links, x, r)[y] by {
                if leads_past(links, x, y as usize) {
                    let j = choose|j: nat| #[trigger] climbed(links, x, j) == y as usize;
                    if j > k {
                        climb_stays(links, x, k + 1, j);
                    }
                }
            }
            assert(self.parent@ =~= rehung(links, x, r));
        }
        r
    }

    /// Merge the class of `a` into that of `b`, which keeps its root.
    pub fn union(&mut self, a: usize, b: usize)
        requires
            old(self).wf(),
            a < old(self).roots().len(),
            b < old(self).roots().len(),
        ensures
            final(self).wf(),
            final(self).roots() == merged(old(self).roots(), a as int, b as int),
            ({
                let (ra, rb) = (old(self).roots()[a as int], old(self).roots()[b as int]);
                final(self).links() == rehung(rehung(old(self).links(), a, ra), b, rb).update(ra as int, rb)
            }),
    {
        let ra: usize = self.find(a);
        let rb: usize = self.find(b);
        proof {
            self.roots_are_fixed(a as int);
            self.roots_are_fixed(b as int);
        }
        let ghost before = *self;
        if ra != rb {
            self.parent.set(ra, rb);
            proof {
                let up = before.dist@[rb as int] + 1;
                self.root = Ghost(merged(before.root@, a as int, b as int));
                self.dist = Ghost(
                    Seq::new(
                        before.dist@.len(),
                        |i: int| if before.root@[i] == ra { before.dist@[i] + up } else { before.dist@[i] },
                    ),
                );
                assert forall|x: int| 0 <= x < self.parent@.len() implies {
                    &&& (#[trigger] self.parent@[x]) < self.parent@.len()
                    &&& self.root@[x] < self.parent@.len()
                    &&& self.root@[self.parent@[x] as int] == self.root@[x]
                    &&& self.parent@[self.root@[x] as int] == self.root@[x]
                    &&& (self.parent@[x] == x ==> self.root@[x] == x)
                    &&& (self.parent@[x] != x ==> self.dist@[self.parent@[x] as int] < self.dist@[x])
                    &&& (self.root@[x] != x ==> self.dist@[self.root@[x] as int] < self.dist@[x])
                } by {
                    let p = before.parent@[x];
                    let r = before.root@[x] as int;
                    let q = before.parent@[r];
                }
            }
        } else {
            proof {
                assert(before.root@ =~= merged(before.root@, a as int, b as int));
                let p = before.parent@[a as int];
                assert(before.parent@ =~= before.parent@.update(ra as int, rb));
            }
        }
    }
}

/// Once the links have led to an item that hangs under itself, they lead nowhere else.
proof fn climb_stays(links: Seq<usize>, x: usize, k: nat, j: nat)
    requires
        k <= j,
        links[climbed(links, x, k) as int] == climbed(links, x, k),
    ensures
        climbed(links, x, j) == climbed(links, x, k),
    decreases j,
{
    if k < j {
        climb_stays(links, x, k, (j - 1) as nat);
    }
}

/// `roots` after the class of item `a` has been filed under the root of item `b`.
pub open spec fn merged(roots: Seq<usize>, a: int, b: int) -> Seq<usize> {
    Seq::new(roots.len(), |i: int| if roots[i] == roots[a] { roots[b] } else { roots[i] })
}

/// The classes are exactly what `pairs` links.
pub open spec fn partitions(roots: Seq<usize>, pairs: Seq<(usize, usize)>) -> bool {
    forall|x: usize, y: usize|
        x < roots.len() && y < roots.len() ==> (#[trigger] roots[x as int] == #[trigger] roots[y as int]
            <==> linked(pairs, x, y))
}

/// Items that are all apart are partitioned by no links.
pub proof fn partitions_nothing(roots: Seq<usize>)
    requires
        forall|i: int| 0 <= i < roots.len() ==> #[trigger] roots[i] == i,
    ensures
        partitions(roots, Seq::empty()),
{
    assert forall|x: usize, y: usize| x < roots.len() && y < roots.len() implies (#[trigger] roots[x as int]
        == #[trigger] roots[y as int] <==> linked(Seq::empty(), x, y)) by {
        linked_nothing(x, y);
    }
}

/// Merging two classes adds exactly one link: union-find keeps the partition that the links made
/// so far generate.
pub proof fn partitions_push(roots: Seq<usize>, pairs: Seq<(usize, usize)>, a: usize, b: usize)
    requires
        partitions(roots, pairs),
        a < roots.len(),
        b < roots.len(),
    ensures
        partitions(merged(roots, a as int, b as int), pairs.push((a, b))),
{
    let after = merged(roots, a as int, b as int);
    let more = pairs.push((a, b));
    assert forall|x: usize, y: usize| x < after.len() && y < after.len() implies (#[trigger] after[x as int]
        == #[trigger] after[y as int] <==> linked(more, x, y)) by {
        linked_push(pairs, a, b, x, y);
        let (rx, ry, ra, rb) = (roots[x as int], roots[y as int], roots[a as int], roots[b as int]);
        if linked(pairs, x, a) {
            linked_symmetric(pairs, x, a);
        }
        if linked(pairs, x, b) {
            linked_symmetric(pairs, x, b);
        }
    }
}

/// `ids` numbers the classes of `items` in the order of their first appearance.
pub open spec fn numbers_classes(ids: Seq<usize>, count: int, items: Seq<usize>, roots: Seq<usize>) -> bool {
    &&& ids.len() == items.len()
    &&& firsts(ids) == Seq::new(count as nat, |i: int| i as usize)
    &&& forall|j: int| 0 <= j < ids.len() ==> (#[trigger] ids[j]) < count
    &&& forall|j: int, k: int|
        0 <= j < ids.len() && 0 <= k < ids.len() ==> (#[trigger] ids[j] == #[trigger] ids[k] <==> roots[items[j] as int]
            == roots[items[k] as int])
}

impl Uf {
    /// Number the classes of `items` in the order of their first appearance.
    #[verifier::loop_isolation(false)]
    pub fn number_classes(&mut self, items: &Vec<usize>) -> (r: (Vec<usize>, usize))
        requires
            old(self).wf(),
            forall|k: int| 0 <= k < items@.len() ==> (#[trigger] items@[k]) < old(self).roots().len(),
        ensures
            final(self).wf(),
            final(self).roots() == old(self).roots(),
            numbers_classes(r.0@, r.1 as int, items@, old(self).roots()),
            r.1 <= items@.len(),
    {
        let n: usize = self.len();
        let ghost roots = self.roots();
        assert forall|s: int| 0 <= s < n implies (#[trigger] roots[s]) < n by {
            self.roots_are_fixed(s);
        }
        let m: usize = items.len();
        let mut id_of_root: Vec<Option<usize>> = Vec::with_capacity(n);
        let mut x: usize = 0;
        while x < n
            invariant
                x <= n,
                id_of_root@.len() == x,
                forall|k: int| 0 <= k < x ==> (#[trigger] id_of_root@[k]) is None,
            decreases n - x,
        {
            id_of_root.push(None);
            x = x + 1;
        }
        let mut ids: Vec<usize> = Vec::with_capacity(m);
        let mut count: usize = 0;
        let mut t: usize = 0;
        while t < m
            invariant
                t <= m,
                count <= t,
                self.wf(),
                self.roots() == roots,
                ids@.len() == t,
                id_of_root@.len() == n,
                firsts(ids@) == Seq::new(count as nat, |i: int| i as usize),
                forall|s: int| 0 <= s < t ==> (#[trigger] ids@[s]) < count && id_of_root@[roots[items@[s] as int] as int] == Some(ids@[s]),
                forall|r: int|
                    0 <= r < n && (#[trigger] id_of_root@[r]) is Some ==> exists|s: int| 0 <= s < t && roots[#[trigger] items@[s] as int] == r,
                forall|s: int, u: int|
                    0 <= s < t && 0 <= u < t ==> (#[trigger] ids@[s] == #[trigger] ids@[u] <==> roots[items@[s] as int]
                        == roots[items@[u] as int]),
            decreases m - t,
        {
            let item: usize = items[t];
            let r: usize = self.find(item);
            let ghost ids0 = ids@;
            let ghost map0 = id_of_root@;
            let ghost count0 = count as int;
            match id_of_root[r] {
                None => {
                    id_of_root.set(r, Some(count));
                    ids.push(count);
                    count = count + 1;
                    proof {
                        assert forall|s: int| 0 <= s < t implies roots[#[trigger] items@[s] as int] != r by {
                            assert(ids0[s] < count0);
                        }
                    }
                },
                Some(id) => {
                    ids.push(id);
                    proof {
                        let s = choose|s: int| 0 <= s < t && roots[#[trigger] items@[s] as int] == r;
                        assert(map0[r as int] == Some(ids0[s]));
                    }
                },
            }
            proof {
                assert(ids@.drop_last() =~= ids0);
                let f = Seq::new(count0 as nat, |i: int| i as usize);
                if count > count0 {
                    assert(!f.contains(count0 as usize));
                    assert(firsts(ids@) =~= Seq::new(count as nat, |i: int| i as usize));
                } else {
                    assert(f[ids@[t as int] as int] == ids@[t as int]);
                    assert(f.contains(ids@[t as int]));
                }
                assert(roots[items@[t as int] as int] == r);
                assert forall|s: int| 0 <= s < t + 1 implies (#[trigger] ids@[s]) < count && id_of_root@[roots[items@[s] as int] as int]
                    == Some(ids@[s]) by {
                    if s < t {
                        assert(ids@[s] == ids0[s]);
                        assert(map0[roots[items@[s] as int] as int] == Some(ids0[s]));
                    }
                }
                assert forall|s: int, u: int| 0 <= s < t + 1 && 0 <= u < t + 1 implies (#[trigger] ids@[s] == #[trigger] ids@[u]
                    <==> roots[items@[s] as int] == roots[items@[u] as int]) by {
                    if s < t && u < t {
                        assert(ids@[s] == ids0[s] && ids@[u] == ids0[u]);
                    } else if s < t || u < t {
                        let v = if s < t { s } else { u };
                        assert(ids@[v] == ids0[v]);
                        if count > count0 {
                            assert(roots[items@[v] as int] != r);
                        } else {
                            let w = choose|w: int| 0 <= w < t && roots[#[trigger] items@[w] as int] == r;
                            assert(map0[r as int] == Some(ids0[w]));
                            assert(ids0[v] == ids0[w] <==> roots[items@[v] as int] == roots[items@[w] as int]);
                        }
                    }
                }
                assert forall|q: int| 0 <= q < n && (#[trigger] id_of_root@[q]) is Some implies exists|s: int|
                    0 <= s < t + 1 && roots[#[trigger] items@[s] as int] == q by {
                    if q == r {
                        assert(roots[items@[t as int] as int] == q);
                    } else {
                        assert(map0[q] is Some);
                        let s = choose|s: int| 0 <= s < t && roots[#[trigger] items@[s] as int] == q;
                        assert(roots[items@[s] as int] == q);
                    }
                }
            }
            t = t + 1;
        }
        (ids, count)
    }
}

} // verus!
