//! Numbering things in the order in which they first turn up.

use vstd::prelude::*;

verus! {

/// The distinct entries of `s`, in the order of their first appearance.
pub open spec fn firsts<A>(s: Seq<A>) -> Seq<A>
    decreases s.len(),
{
    if s.len() == 0 {
        Seq::empty()
    } else {
        noted(firsts(s.drop_last()), s.last())
    }
}

/// A list of distinct entries after `x` has turned up.
pub open spec fn noted<A>(list: Seq<A>, x: A) -> Seq<A> {
    if list.contains(x) {
        list
    } else {
        list.push(x)
    }
}

/// `firsts` of one entry more.
pub proof fn firsts_push<A>(s: Seq<A>, x: A)
    ensures
        firsts(s.push(x)) == noted(firsts(s), x),
{
    assert(s.push(x).drop_last() =~= s);
}

/// `firsts` keeps every entry, repeats none and is no longer than the list.
pub proof fn firsts_distinct<A>(s: Seq<A>)
    ensures
        firsts(s).no_duplicates(),
        firsts(s).len() <= s.len(),
        forall|x: A| #[trigger] firsts(s).contains(x) <==> s.contains(x),
    decreases s.len(),
{
    if s.len() > 0 {
        let t = s.drop_last();
        firsts_distinct(t);
        let f = firsts(t);
        assert forall|x: A| #[trigger] firsts(s).contains(x) <==> s.contains(x) by {
            if s.contains(x) {
                let k = choose|k: int| 0 <= k < s.len() && s[k] == x;
                if k < t.len() {
                    assert(t[k] == x);
                    assert(f.contains(x));
                    let j = choose|j: int| 0 <= j < f.len() && f[j] == x;
                    assert(firsts(s)[j] == x);
                } else if !f.contains(x) {
                    assert(firsts(s)[f.len() as int] == x);
                }
            }
            if firsts(s).contains(x) {
                let j = choose|j: int| 0 <= j < firsts(s).len() && firsts(s)[j] == x;
                if f.contains(s.last()) || j < f.len() {
                    assert(f[j] == x);
                    assert(f.contains(x));
                    assert(t.contains(x));
                    let k = choose|k: int| 0 <= k < t.len() && t[k] == x;
                    assert(s[k] == x);
                } else {
                    assert(s[s.len() - 1] == x);
                }
            }
        }
    }
}

/// What has turned up stays where it is in the list.
pub proof fn firsts_prefix<A>(s: Seq<A>, n: int)
    requires
        0 <= n <= s.len(),
    ensures
        firsts(s.take(n)).len() <= firsts(s).len(),
        firsts(s).take(firsts(s.take(n)).len() as int) == firsts(s.take(n)),
    decreases s.len() - n,
{
    if n < s.len() {
        firsts_prefix(s, n + 1);
        assert(s.take(n + 1).drop_last() =~= s.take(n));
        assert(s.take(n + 1).last() == s[n]);
        let short = firsts(s.take(n));
        let long = firsts(s.take(n + 1));
        assert(long.take(short.len() as int) =~= short);
        assert(firsts(s).take(short.len() as int) =~= firsts(s).take(long.len() as int).take(short.len() as int));
    } else {
        assert(s.take(n) =~= s);
        assert(firsts(s).take(firsts(s).len() as int) =~= firsts(s));
    }
}

/// Three integers that identify something: the cell of a point, or the two ends of an edge.
#[derive(Clone, Copy, PartialEq, Eq, Structural, Debug)]
pub struct Key {
    pub x: i128,
    pub y: i128,
    pub z: i128,
}

spec fn bucket_of(k: Key, buckets: usize) -> int {
    let h = (k.x as u64).wrapping_mul(0x9E37_79B9_7F4A_7C15u64) ^ (k.y as u64).wrapping_mul(0xC2B2_AE3D_27D4_EB4Fu64)
        ^ (k.z as u64).wrapping_mul(0x1656_67B1_9E37_79F9u64);
    ((h >> 17u64) % (buckets as u64)) as int
}

/// A table of distinct keys, numbered in the order in which they were first asked for.
///
/// Keys that fall into one bucket are chained from the newest to the oldest: `heads` holds one more
/// than the newest key's number, `older` one more than the next older one's, and 0 ends a chain.
pub struct KeyTable {
    keys: Vec<Key>,
    heads: Vec<usize>,
    older: Vec<usize>,
}

impl KeyTable {
    /// The keys seen so far.
    pub closed spec fn keys(&self) -> Seq<Key> {
        self.keys@
    }

    spec fn bucket(&self, i: int) -> int {
        bucket_of(self.keys@[i], self.heads.len())
    }

    /// `h` starts the chain of the keys before number `end` that fall into bucket `b`.
    spec fn chain(&self, h: usize, b: int, end: int) -> bool {
        &&& h <= end
        &&& h > 0 ==> self.bucket(h - 1) == b
        &&& forall|j: int| h <= j < end ==> #[trigger] self.bucket(j) != b
    }

    /// The chains lead through every key, and no key occurs twice.
    pub closed spec fn wf(&self) -> bool {
        &&& 0 < self.heads@.len() <= u64::MAX
        &&& self.older@.len() == self.keys@.len()
        &&& self.keys@.no_duplicates()
        &&& forall|b: int| 0 <= b < self.heads@.len() ==> self.chain(#[trigger] self.heads@[b], b, self.keys@.len() as int)
        &&& forall|i: int| 0 <= i < self.keys@.len() ==> self.chain(#[trigger] self.older@[i], self.bucket(i), i)
    }

    /// No key is numbered twice.
    pub proof fn keys_differ(&self, i: int, j: int)
        requires
            self.wf(),
            0 <= i < self.keys().len(),
            0 <= j < self.keys().len(),
            i != j,
        ensures
            self.keys()[i] != self.keys()[j],
    {
    }

    /// A table that holds nothing yet, meant for about `expected` keys.
    pub fn new(expected: usize) -> (t: KeyTable)
        ensures
            t.wf(),
            t.keys() == Seq::<Key>::empty(),
    {
        let n: usize = if expected < 16 { 16 } else if expected > 16_777_216 { 16_777_216 } else { expected };
        let mut heads: Vec<usize> = Vec::with_capacity(n);
        for i in 0..n
            invariant
                heads@.len() == i,
                forall|b: int| 0 <= b < i ==> #[trigger] heads@[b] == 0,
        {
            heads.push(0);
        }
        KeyTable { keys: Vec::new(), heads, older: Vec::new() }
    }

    fn bucket_for(&self, k: Key) -> (b: usize)
        requires
            self.wf(),
        ensures
            b == bucket_of(k, self.heads.len()),
            b < self.heads@.len(),
    {
        let h: u64 = (#[verifier::truncate] (k.x as u64)).wrapping_mul(0x9E37_79B9_7F4A_7C15u64)
            ^ (#[verifier::truncate] (k.y as u64)).wrapping_mul(0xC2B2_AE3D_27D4_EB4Fu64)
            ^ (#[verifier::truncate] (k.z as u64)).wrapping_mul(0x1656_67B1_9E37_79F9u64);
        ((h >> 17u64) % (self.heads.len() as u64)) as usize
    }

    /// The number of keys.
    pub fn len(&self) -> (n: usize)
        ensures
            n == self.keys().len(),
    {
        self.keys.len()
    }

    /// The `i`-th key.
    pub fn key(&self, i: usize) -> (k: Key)
        requires
            i < self.keys().len(),
        ensures
            k == self.keys()[i as int],
    {
        self.keys[i]
    }

    /// The number of `k`, if it has been seen.
    pub fn find(&self, k: Key) -> (found: Option<usize>)
        requires
            self.wf(),
        ensures
            found matches Some(i) ==> i < self.keys().len() && self.keys()[i as int] == k,
            found is None ==> !self.keys().contains(k),
    {
        let b: usize = self.bucket_for(k);
        let mut h: usize = self.heads[b];
        assert forall|j: int| h <= j < self.keys@.len() implies #[trigger] self.keys@[j] != k by {
            assert(self.chain(self.heads@[b as int], b as int, self.keys@.len() as int));
            assert(self.bucket(j) != b);
        }
        while h > 0
            invariant
                self.wf(),
                b == bucket_of(k, self.heads.len()),
                h <= self.keys@.len(),
                h > 0 ==> self.bucket(h - 1) == b,
                forall|j: int| h <= j < self.keys@.len() ==> #[trigger] self.keys@[j] != k,
            decreases h,
        {
            let i: usize = h - 1;
            if self.keys[i] == k {
                return Some(i);
            }
            let ghost older = self.older@[i as int];
            h = self.older[i];
            assert(self.chain(older, self.bucket(i as int), i as int));
            assert forall|j: int| h <= j < self.keys@.len() implies #[trigger] self.keys@[j] != k by {
                if j < i {
                    assert(self.bucket(j) != b);
                }
            }
        }
        None
    }

    /// The number of `k`, which is given the next free one if it has not been seen.
    pub fn id_of(&mut self, k: Key) -> (i: usize)
        requires
            old(self).wf(),
        ensures
            final(self).wf(),
            final(self).keys() == noted(old(self).keys(), k),
            i < final(self).keys().len(),
            final(self).keys()[i as int] == k,
    {
        let found: Option<usize> = self.find(k);
        match found {
            Some(i) => {
                assert(self.keys@[i as int] == k);
                assert(self.keys@.contains(k));
                i
            },
            None => {
                let b: usize = self.bucket_for(k);
                let i: usize = self.keys.len();
                let head: usize = self.heads[b];
                let ghost before = *self;
                self.keys.push(k);
                self.older.push(head);
                self.heads.set(b, self.keys.len());
                proof {
                    assert(forall|j: int| 0 <= j < i ==> #[trigger] self.bucket(j) == before.bucket(j));
                    assert(self.bucket(i as int) == b);
                    assert forall|c: int| 0 <= c < self.heads@.len() implies self.chain(#[trigger] self.heads@[c], c, self.keys@.len() as int) by {
                        assert(before.chain(before.heads@[c], c, i as int));
                    }
                    assert forall|j: int| 0 <= j < self.keys@.len() implies self.chain(#[trigger] self.older@[j], self.bucket(j), j) by {
                        if j < i {
                            assert(before.chain(before.older@[j], before.bucket(j), j));
                        } else {
                            assert(before.chain(before.heads@[b as int], b as int, i as int));
                        }
                    }
                    assert forall|p: int, q: int| 0 <= p < self.keys@.len() && 0 <= q < self.keys@.len() && p != q implies self.keys@[p] != self.keys@[q] by {
                        if p == i {
                            assert(before.keys@[q] != k);
                        } else if q == i {
                            assert(before.keys@[p] != k);
                        }
                    }
                }
                i
            },
        }
    }
}

/// Number `keys` by first appearance: the distinct keys, and for each input the number of its key.
pub fn number_keys(keys: &Vec<Key>) -> (r: (KeyTable, Vec<usize>))
    ensures
        r.0.wf(),
        r.0.keys() == firsts(keys@),
        r.1@.len() == keys@.len(),
        forall|i: int|
            0 <= i < keys@.len() ==> (#[trigger] r.1@[i]) < firsts(keys@).len() && firsts(keys@)[r.1@[i] as int] == keys@[i],
{
    let mut table: KeyTable = KeyTable::new(keys.len());
    let mut ids: Vec<usize> = Vec::with_capacity(keys.len());
    assert(keys@.take(0) =~= Seq::<Key>::empty());
    let mut i: usize = 0;
    while i < keys.len()
        invariant
            i <= keys@.len(),
            table.wf(),
            table.keys() == firsts(keys@.take(i as int)),
            ids@.len() == i,
            forall|k: int| 0 <= k < i ==> (#[trigger] ids@[k]) < table.keys().len() && table.keys()[ids@[k] as int] == keys@[k],
        decreases keys@.len() - i,
    {
        assert(keys@.take(i + 1).drop_last() =~= keys@.take(i as int));
        let ghost seen = table.keys();
        let id: usize = table.id_of(keys[i]);
        assert(forall|m: int| 0 <= m < seen.len() ==> #[trigger] table.keys()[m] == seen[m]);
        ids.push(id);
        i = i + 1;
    }
    assert(keys@.take(i as int) =~= keys@);
    (table, ids)
}

/// The list holds each entry where it first turns up, in that order.
pub proof fn firsts_keep_the_order<A>(s: Seq<A>) -> (at: Seq<int>)
    ensures
        at.len() == firsts(s).len(),
        forall|i: int, j: int| 0 <= i < j < at.len() ==> #[trigger] at[i] < #[trigger] at[j],
        forall|i: int| 0 <= i < at.len() ==> 0 <= #[trigger] at[i] < s.len() && firsts(s)[i] == s[at[i]],
        forall|i: int, j: int| 0 <= i < at.len() && 0 <= j < at[i] ==> #[trigger] s[j] != s[#[trigger] at[i]],
    decreases s.len(),
{
    if s.len() > 0 {
        let t = s.drop_last();
        let rest = firsts_keep_the_order(t);
        firsts_distinct(t);
        let f = firsts(t);
        let x = s.last();
        if f.contains(x) {
            assert forall|i: int, j: int| 0 <= i < rest.len() && 0 <= j < rest[i] implies #[trigger] s[j] != s[#[trigger] rest[i]] by {
                assert(t[j] == s[j] && t[rest[i]] == s[rest[i]]);
            }
            rest
        } else {
            let at = rest.push(s.len() - 1);
            assert forall|i: int, j: int| 0 <= i < at.len() && 0 <= j < at[i] implies #[trigger] s[j] != s[#[trigger] at[i]] by {
                assert(t[j] == s[j]);
                if i < rest.len() {
                    assert(at[i] == rest[i]);
                    assert(t[rest[i]] == s[rest[i]]);
                } else {
                    assert(t.contains(t[j]));
                }
            }
            at
        }
    } else {
        Seq::empty()
    }
}

} // verus!
