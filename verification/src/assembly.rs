//! Assemblies: placed instances of parts, and the mates between them.

use vstd::prelude::*;
use vstd::std_specs::cmp::PartialEqSpecImpl;

use crate::document::{Document, ONE};

verus! {

/// One placed part.
#[derive(Clone, Debug)]
pub struct Component<S> {
    /// A stable identifier, never used twice.
    pub id: u64,
    pub name: String,
    /// The part file, relative to the assembly file; empty if there is none.
    pub source: String,
    /// The embedded copy of the part.
    pub cached: Document<S>,
    /// Where the part stands.
    pub translation: [u64; 3],
    /// How it is turned: a unit quaternion.
    pub rotation: [u64; 4],
    /// A fixed component cannot be dragged.
    pub fixed: bool,
    pub hidden: bool,
}

/// The placed parts and the mates between their faces.
#[derive(Clone, Debug)]
pub struct Assembly<S> {
    pub components: Vec<Component<S>>,
    pub mates: Vec<Mate>,
    next_id: u64,
    next_mate_id: u64,
}

/// One side of a mate: a point on a face of a component with the face's normal, or a point on the
/// axis of a cylinder with its direction.
#[derive(Clone, Debug)]
pub struct MateRef {
    pub comp: u64,
    /// 0 for a planar face, 1 for a cylindrical one.
    pub kind: u8,
    pub point: [u64; 3],
    pub dir: [u64; 3],
}

/// A constraint between two faces: 0 coincident, 1 at a distance, 2 concentric, 3 parallel.
#[derive(Clone, Debug)]
pub struct Mate {
    pub id: u64,
    pub kind: u8,
    pub value: u64,
    pub flip: bool,
    pub a: MateRef,
    pub b: MateRef,
}

/// Whether two numbers, held as the bit patterns of double precision floats, are equal: a zero has
/// either sign, and what is not a number equals nothing.
pub open spec fn same_number(a: u64, b: u64) -> bool {
    magnitude(a) <= INFINITE && magnitude(b) <= INFINITE && (a == b || magnitude(a) == 0 && magnitude(b) == 0)
}

/// The bit pattern without its sign.
pub open spec fn magnitude(a: u64) -> int {
    if a < SIGN {
        a as int
    } else {
        a - SIGN
    }
}

/// The sign of a number, as a bit pattern.
pub const SIGN: u64 = 0x8000_0000_0000_0000;

/// The bit pattern of infinity; greater magnitudes are not numbers.
pub const INFINITE: u64 = 0x7ff0_0000_0000_0000;

fn numbers_equal(a: u64, b: u64) -> (same: bool)
    ensures
        same == same_number(a, b),
{
    let x: u64 = if a < SIGN { a } else { a - SIGN };
    let y: u64 = if b < SIGN { b } else { b - SIGN };
    x <= INFINITE && y <= INFINITE && (a == b || x == 0 && y == 0)
}

/// Two points or directions are equal in each coordinate.
pub open spec fn same_place(a: [u64; 3], b: [u64; 3]) -> bool {
    same_number(a@[0], b@[0]) && same_number(a@[1], b@[1]) && same_number(a@[2], b@[2])
}

fn places_equal(a: &[u64; 3], b: &[u64; 3]) -> (same: bool)
    ensures
        same == same_place(*a, *b),
{
    numbers_equal(a[0], b[0]) && numbers_equal(a[1], b[1]) && numbers_equal(a[2], b[2])
}

/// Two sides are equal: the numbers as numbers, the rest field by field.
pub open spec fn same_side(a: MateRef, b: MateRef) -> bool {
    a.comp == b.comp && a.kind == b.kind && same_place(a.point, b.point) && same_place(a.dir, b.dir)
}

/// Two mates are equal, in the same sense.
pub open spec fn same_mate(a: Mate, b: Mate) -> bool {
    a.id == b.id && a.kind == b.kind && same_number(a.value, b.value) && a.flip == b.flip && same_side(a.a, b.a) && same_side(a.b, b.b)
}

impl PartialEq for MateRef {
    fn eq(&self, other: &Self) -> (same: bool) {
        self.comp == other.comp && self.kind == other.kind && places_equal(&self.point, &other.point) && places_equal(&self.dir, &other.dir)
    }
}

impl PartialEqSpecImpl for MateRef {
    open spec fn obeys_eq_spec() -> bool {
        true
    }

    open spec fn eq_spec(&self, other: &Self) -> bool {
        same_side(*self, *other)
    }
}

impl PartialEq for Mate {
    fn eq(&self, other: &Self) -> (same: bool) {
        self.id == other.id && self.kind == other.kind && numbers_equal(self.value, other.value) && self.flip == other.flip && self.a == other.a
            && self.b == other.b
    }
}

impl PartialEqSpecImpl for Mate {
    open spec fn obeys_eq_spec() -> bool {
        true
    }

    open spec fn eq_spec(&self, other: &Self) -> bool {
        same_mate(*self, *other)
    }
}

/// The place of the first component with this identifier, or the number of components.
pub open spec fn place_of<S>(cs: Seq<Component<S>>, id: u64) -> int
    decreases cs.len(),
{
    if cs.len() == 0 || cs[0].id == id {
        0
    } else {
        1 + place_of(cs.drop_first(), id)
    }
}

/// An identifier leads to the first component that has it, and past the end where none has.
pub proof fn place_is_first<S>(cs: Seq<Component<S>>, id: u64, i: int)
    requires
        0 <= i <= cs.len(),
        forall|j: int| 0 <= j < i ==> (#[trigger] cs[j]).id != id,
        i < cs.len() ==> cs[i].id == id,
    ensures
        place_of(cs, id) == i,
    decreases cs.len(),
{
    if i > 0 {
        assert(cs[0].id != id);
        let rest = cs.drop_first();
        assert forall|j: int| 0 <= j < i - 1 implies (#[trigger] rest[j]).id != id by {
            assert(cs[j + 1].id != id);
        }
        place_is_first(rest, id, i - 1);
    }
}

impl<S> Assembly<S> {
    /// The components, in the order they were added.
    pub closed spec fn placed(&self) -> Seq<Component<S>> {
        self.components@
    }

    /// The mates, in the order they were added.
    pub closed spec fn mated(&self) -> Seq<Mate> {
        self.mates@
    }

    /// The identifier of the last component that was added.
    pub closed spec fn last(&self) -> u64 {
        self.next_id
    }

    /// The identifier of the last mate that was added.
    pub closed spec fn last_mate(&self) -> u64 {
        self.next_mate_id
    }

    /// The identifiers in use differ, and all of them were handed out.
    pub open spec fn wf(&self) -> bool {
        &&& forall|i: int| 0 <= i < self.placed().len() ==> 0 < (#[trigger] self.placed()[i]).id <= self.last()
        &&& forall|i: int, j: int|
            0 <= i < j < self.placed().len() ==> (#[trigger] self.placed()[i]).id != (#[trigger] self.placed()[j]).id
        &&& forall|i: int| 0 <= i < self.mated().len() ==> 0 < (#[trigger] self.mated()[i]).id <= self.last_mate()
        &&& forall|i: int, j: int| 0 <= i < j < self.mated().len() ==> (#[trigger] self.mated()[i]).id != (#[trigger] self.mated()[j]).id
    }

    /// An assembly as it was filed.
    pub fn restore(components: Vec<Component<S>>, mates: Vec<Mate>, next_id: u64, next_mate_id: u64) -> (whole: Self)
        ensures
            whole.placed() == components@,
            whole.mated() == mates@,
            whole.last() == next_id,
            whole.last_mate() == next_mate_id,
    {
        Assembly { components, mates, next_id, next_mate_id }
    }

    /// The identifiers of the last component and the last mate that were added.
    pub fn counters(&self) -> (ids: (u64, u64))
        ensures
            ids == (self.last(), self.last_mate()),
    {
        (self.next_id, self.next_mate_id)
    }

    /// Add a component, unturned and shown. The first one is fixed, for an assembly needs an anchor.
    pub fn add_component(&mut self, name: String, source: String, cached: Document<S>, translation: [u64; 3]) -> (id: u64)
        requires
            old(self).last() < u64::MAX,
        ensures
            id == old(self).last() + 1,
            final(self).last() == id,
            final(self).placed() == old(self).placed().push(
                (Component {
                    id,
                    name,
                    source,
                    cached,
                    translation,
                    rotation: [0, 0, 0, ONE],
                    fixed: old(self).placed().len() == 0,
                    hidden: false,
                }),
            ),
            final(self).mated() == old(self).mated(),
            final(self).last_mate() == old(self).last_mate(),
            old(self).wf() ==> final(self).wf(),
    {
        self.next_id = self.next_id + 1;
        let id: u64 = self.next_id;
        let fixed: bool = self.components.len() == 0;
        self.components.push(Component { id, name, source, cached, translation, rotation: [0, 0, 0, ONE], fixed, hidden: false });
        assert(self.placed().drop_last() =~= old(self).placed());
        assert(self.mated() == old(self).mated());
        id
    }

    fn find(&self, id: u64) -> (i: usize)
        ensures
            i == place_of(self.placed(), id),
            i <= self.placed().len(),
            i < self.placed().len() ==> self.placed()[i as int].id == id,
    {
        let mut i: usize = 0;
        while i < self.components.len() && self.components[i].id != id
            invariant
                i <= self.components@.len(),
                forall|j: int| 0 <= j < i ==> (#[trigger] self.components@[j]).id != id,
            decreases self.components@.len() - i,
        {
            i = i + 1;
        }
        proof {
            place_is_first(self.components@, id, i as int);
        }
        i
    }

    /// The component with this identifier.
    pub fn component(&self, id: u64) -> (c: Option<&Component<S>>)
        ensures
            c is Some <==> exists|i: int| 0 <= i < self.placed().len() && (#[trigger] self.placed()[i]).id == id,
            c matches Some(x) ==> x == self.placed()[place_of(self.placed(), id)] && x.id == id,
    {
        let i: usize = self.find(id);
        proof {
            place_bounds(self.placed(), id);
            assert(i < self.placed().len() ==> self.placed()[i as int].id == id);
        }
        if i < self.components.len() {
            Some(&self.components[i])
        } else {
            None
        }
    }

    /// The component with this identifier, to change.
    pub fn component_mut(&mut self, id: u64) -> (c: Option<&mut Component<S>>)
        ensures
            c is Some <==> exists|i: int| 0 <= i < old(self).placed().len() && (#[trigger] old(self).placed()[i]).id == id,
            c is None ==> *final(self) == *old(self),
            c matches Some(x) ==> *x == old(self).placed()[place_of(old(self).placed(), id)] && x.id == id,
            c matches Some(x) ==> final(self).placed() == old(self).placed().update(
                place_of(old(self).placed(), id),
                *final(x),
            ) && final(self).mated() == old(self).mated() && final(self).last() == old(self).last() && final(self).last_mate()
                == old(self).last_mate(),
    {
        let i: usize = self.find(id);
        proof {
            place_bounds(self.placed(), id);
            assert(i < self.placed().len() ==> self.placed()[i as int].id == id);
        }
        if i < self.components.len() {
            Some(&mut self.components[i])
        } else {
            None
        }
    }

    /// Add a mate.
    pub fn add_mate(&mut self, kind: u8, value: u64, flip: bool, a: MateRef, b: MateRef) -> (id: u64)
        requires
            old(self).last_mate() < u64::MAX,
        ensures
            id == old(self).last_mate() + 1,
            final(self).last_mate() == id,
            final(self).mated() == old(self).mated().push((Mate { id, kind, value, flip, a, b })),
            final(self).placed() == old(self).placed(),
            final(self).last() == old(self).last(),
            old(self).wf() ==> final(self).wf(),
    {
        self.next_mate_id = self.next_mate_id + 1;
        let id: u64 = self.next_mate_id;
        self.mates.push(Mate { id, kind, value, flip, a, b });
        id
    }
}

proof fn place_bounds<S>(cs: Seq<Component<S>>, id: u64)
    ensures
        0 <= place_of(cs, id) <= cs.len(),
        place_of(cs, id) < cs.len() ==> cs[place_of(cs, id)].id == id,
        (exists|i: int| 0 <= i < cs.len() && (#[trigger] cs[i]).id == id) ==> place_of(cs, id) < cs.len(),
    decreases cs.len(),
{
    if cs.len() > 0 && cs[0].id != id {
        let rest = cs.drop_first();
        place_bounds(rest, id);
        if exists|i: int| 0 <= i < cs.len() && (#[trigger] cs[i]).id == id {
            let i = choose|i: int| 0 <= i < cs.len() && (#[trigger] cs[i]).id == id;
            assert(rest[i - 1].id == id);
        }
    }
}

/// In a well-formed assembly an identifier leads to the one component that has it.
pub proof fn identifiers_lead_home<S>(whole: Assembly<S>, i: int)
    requires
        whole.wf(),
        0 <= i < whole.placed().len(),
    ensures
        place_of(whole.placed(), whole.placed()[i].id) == i,
{
    let cs = whole.placed();
    assert forall|j: int| 0 <= j < i implies (#[trigger] cs[j]).id != cs[i].id by {}
    place_is_first(cs, cs[i].id, i);
}

impl<S> Default for Assembly<S> {
    fn default() -> (whole: Self)
        ensures
            whole.placed().len() == 0,
            whole.mated().len() == 0,
            whole.last() == 0,
            whole.last_mate() == 0,
            whole.wf(),
    {
        Assembly { components: Vec::new(), mates: Vec::new(), next_id: 0, next_mate_id: 0 }
    }
}

/// Not a number: the bit pattern without its sign is greater than that of infinity.
pub open spec fn is_no_number(a: u64) -> bool {
    a % 0x8000_0000_0000_0000 > 0x7ff0_0000_0000_0000
}

/// A number equals itself and the zero of the other sign equals zero; nothing else is equal, and what
/// is not a number equals nothing, itself included.
pub proof fn numbers_compare_by_value(a: u64, b: u64)
    ensures
        same_number(a, b) == same_number(b, a),
        same_number(a, a) <==> !is_no_number(a),
        is_no_number(a) ==> !same_number(a, b),
        same_number(a, b) && a != b ==> a % 0x8000_0000_0000_0000 == 0 && b % 0x8000_0000_0000_0000 == 0,
        a % 0x8000_0000_0000_0000 == 0 && b % 0x8000_0000_0000_0000 == 0 ==> same_number(a, b),
{
}

/// Mates are equal exactly where all of their fields are: changing any field of one side, or the
/// value, the kind, the flip or the identifier, makes them differ. Which of the two is asked does not
/// matter.
pub proof fn mates_compare_by_all_fields(x: Mate, y: Mate)
    ensures
        same_mate(x, y) == same_mate(y, x),
        same_mate(x, y) <==> x.id == y.id && x.kind == y.kind && x.flip == y.flip && same_number(x.value, y.value) && x.a.comp == y.a.comp
            && x.a.kind == y.a.kind && x.b.comp == y.b.comp && x.b.kind == y.b.kind && forall|i: int|
            #![trigger x.a.point@[i]]
            #![trigger x.b.dir@[i]]
            0 <= i < 3 ==> same_number(x.a.point@[i], y.a.point@[i]) && same_number(x.a.dir@[i], y.a.dir@[i]) && same_number(
                x.b.point@[i],
                y.b.point@[i],
            ) && same_number(x.b.dir@[i], y.b.dir@[i]),
{
    if forall|i: int|
        #![trigger x.a.point@[i]]
        #![trigger x.b.dir@[i]]
        0 <= i < 3 ==> same_number(x.a.point@[i], y.a.point@[i]) && same_number(x.a.dir@[i], y.a.dir@[i]) && same_number(
            x.b.point@[i],
            y.b.point@[i],
        ) && same_number(x.b.dir@[i], y.b.dir@[i]) {
        let (p0, p1, p2) = (x.a.point@[0], x.a.point@[1], x.a.point@[2]);
    }
}

} // verus!
