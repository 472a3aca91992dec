//! A small set of the kinds of thing a weapon may aim at, one bit per kind.
use vstd::prelude::*;

verus! {

/// A set of target kinds, stored as the bits of a byte.
#[derive(Clone, Copy, Debug)]
pub struct TargetType {
    byte: u8,
}

/// The kinds of target.
pub enum TargetTypes {
    Ground,
    Air,
    Water,
    Underwater,
    Hover,
}

/// The bit that stands for each kind of target.
pub open spec fn kind_bit(t: TargetTypes) -> u8 {
    match t {
        TargetTypes::Ground => 0,
        TargetTypes::Air => 1,
        TargetTypes::Water => 2,
        TargetTypes::Underwater => 3,
        TargetTypes::Hover => 4,
    }
}

/// Whether bit `i` of `byte` is set.
pub open spec fn has_bit(byte: u8, i: u8) -> bool {
    (byte >> i) & 1u8 == 1u8
}

fn kind_index(t: &TargetTypes) -> (r: u8)
    ensures
        r == kind_bit(*t),
{
    match t {
        TargetTypes::Ground => 0,
        TargetTypes::Air => 1,
        TargetTypes::Water => 2,
        TargetTypes::Underwater => 3,
        TargetTypes::Hover => 4,
    }
}

impl TargetType {
    /// The bits of the set.
    pub closed spec fn bits(self) -> u8 {
        self.byte
    }

    /// Whether the kind with bit `i` is in the set.
    pub open spec fn contains_bit(self, i: u8) -> bool {
        has_bit(self.bits(), i)
    }

    /// What the constructors and `set` can build: a set of the five kinds,
    /// or the set with all eight bits.
    pub open spec fn wf(self) -> bool {
        self.bits() & 0xe0u8 == 0 || self.bits() == 0xffu8
    }

    /// The empty set.
    pub fn new() -> (r: TargetType)
        ensures
            r.bits() == 0,
            r.wf(),
    {
        assert(0u8 & 0xe0u8 == 0) by (bit_vector);
        TargetType { byte: 0 }
    }

    /// The set of all eight bits.
    pub fn new_all_set() -> (r: TargetType)
        ensures
            r.bits() == 0xffu8,
            r.wf(),
    {
        TargetType { byte: 0b11111111 }
    }

    /// The set with `target_types` added.
    pub fn set(self, target_types: TargetTypes) -> (r: TargetType)
        ensures
            r.bits() == self.bits() | (1u8 << kind_bit(target_types)),
            self.wf() ==> r.wf(),
    {
        let ix = kind_index(&target_types);
        proof {
            let b = self.byte;
            assert(ix < 5 && b & 0xe0u8 == 0 ==> (b | (1u8 << ix)) & 0xe0u8 == 0) by (bit_vector);
            assert(b == 0xffu8 ==> (b | (1u8 << ix)) == 0xffu8) by (bit_vector);
        }
        TargetType { byte: self.byte | 1u8 << ix }
    }

    /// Whether `target_types` is in the set.
    pub fn get(self, target_types: TargetTypes) -> (r: bool)
        ensures
            r == self.contains_bit(kind_bit(target_types)),
    {
        let ix = kind_index(&target_types);
        proof {
            lemma_bit_test(self.byte, ix);
        }
        self.byte & (1u8 << ix) == (1u8 << ix)
    }

    /// Whether the two sets share a kind.
    pub fn has_a_match(self, other: TargetType) -> (r: bool)
        ensures
            r == (self.bits() & other.bits() != 0),
    {
        self.byte & other.byte > 0
    }
}

proof fn lemma_bit_test(byte: u8, i: u8)
    requires
        i < 8,
    ensures
        ((byte & (1u8 << i)) == (1u8 << i)) == has_bit(byte, i),
{
    assert(i < 8 ==> (((byte & (1u8 << i)) == (1u8 << i)) == ((byte >> i) & 1u8 == 1u8))) by (bit_vector);
}

/// Adding a kind puts exactly that kind into the set: the kind is then
/// found, and every other kind is found as before.
pub proof fn lemma_set_then_get(t: TargetType, k: u8, j: u8)
    requires
        k < 8,
        j < 8,
    ensures
        has_bit(t.bits() | (1u8 << k), k),
        j != k ==> has_bit(t.bits() | (1u8 << k), j) == has_bit(t.bits(), j),
{
    let b = t.bits();
    assert(k < 8 && j < 8 ==> (((b | (1u8 << k)) >> k) & 1u8 == 1u8)) by (bit_vector);
    assert(k < 8 && j < 8 && j != k ==> ((((b | (1u8 << k)) >> j) & 1u8 == 1u8) == ((b >> j) & 1u8
        == 1u8))) by (bit_vector);
}

/// The empty set holds no kind and the full set holds every kind.
pub proof fn lemma_empty_and_full(i: u8)
    requires
        i < 8,
    ensures
        !has_bit(0u8, i),
        has_bit(0xffu8, i),
{
    assert(i < 8 ==> !((0u8 >> i) & 1u8 == 1u8)) by (bit_vector);
    assert(i < 8 ==> ((0xffu8 >> i) & 1u8 == 1u8)) by (bit_vector);
}

/// Two sets match exactly when some kind is in both, and matching is
/// symmetric.
pub proof fn lemma_match_shares_a_kind(a: u8, b: u8)
    ensures
        (a & b != 0) == (b & a != 0),
        (a & b != 0) == exists|i: u8| i < 8 && #[trigger] has_bit(a, i) && has_bit(b, i),
{
    assert((a & b != 0) == (b & a != 0)) by (bit_vector);
    if a & b != 0 {
        assert((a & b) != 0u8 ==> ((a >> 0u8) & 1u8 == 1u8 && (b >> 0u8) & 1u8 == 1u8) || ((a >> 1u8)
            & 1u8 == 1u8 && (b >> 1u8) & 1u8 == 1u8) || ((a >> 2u8) & 1u8 == 1u8 && (b >> 2u8) & 1u8
            == 1u8) || ((a >> 3u8) & 1u8 == 1u8 && (b >> 3u8) & 1u8 == 1u8) || ((a >> 4u8) & 1u8 == 1u8
            && (b >> 4u8) & 1u8 == 1u8) || ((a >> 5u8) & 1u8 == 1u8 && (b >> 5u8) & 1u8 == 1u8) || ((a
            >> 6u8) & 1u8 == 1u8 && (b >> 6u8) & 1u8 == 1u8) || ((a >> 7u8) & 1u8 == 1u8 && (b >> 7u8)
            & 1u8 == 1u8)) by (bit_vector);
        if has_bit(a, 0) && has_bit(b, 0) {
        } else if has_bit(a, 1) && has_bit(b, 1) {
        } else if has_bit(a, 2) && has_bit(b, 2) {
        } else if has_bit(a, 3) && has_bit(b, 3) {
        } else if has_bit(a, 4) && has_bit(b, 4) {
        } else if has_bit(a, 5) && has_bit(b, 5) {
        } else if has_bit(a, 6) && has_bit(b, 6) {
        } else {
            assert(has_bit(a, 7) && has_bit(b, 7));
        }
    } else {
        assert forall|i: u8| i < 8 implies !(#[trigger] has_bit(a, i) && has_bit(b, i)) by {
            assert(i < 8 && (a & b) == 0u8 ==> !((a >> i) & 1u8 == 1u8 && (b >> i) & 1u8 == 1u8))
                by (bit_vector);
        }
    }
}

/// On the sets that the constructors and `set` build, two sets match
/// exactly when some kind of target is in both, and matching is symmetric.
pub proof fn lemma_match_iff_shared_kind(a: TargetType, b: TargetType)
    requires
        a.wf(),
        b.wf(),
    ensures
        (a.bits() & b.bits() != 0) == (b.bits() & a.bits() != 0),
        (a.bits() & b.bits() != 0) == exists|t: TargetTypes|
            #[trigger] a.contains_bit(kind_bit(t)) && b.contains_bit(kind_bit(t)),
{
    let x = a.bits();
    let y = b.bits();
    lemma_match_shares_a_kind(x, y);
    if x & y != 0 {
        let i = choose|i: u8| i < 8 && #[trigger] has_bit(x, i) && has_bit(y, i);
        if i >= 5 {
            assert(i >= 5 && i < 8 && x & 0xe0u8 == 0 ==> !((x >> i) & 1u8 == 1u8)) by (bit_vector);
            assert(i >= 5 && i < 8 && y & 0xe0u8 == 0 ==> !((y >> i) & 1u8 == 1u8)) by (bit_vector);
            lemma_empty_and_full(0);
            assert(a.contains_bit(kind_bit(TargetTypes::Ground)));
        } else if i == 0 {
            assert(a.contains_bit(kind_bit(TargetTypes::Ground)));
        } else if i == 1 {
            assert(a.contains_bit(kind_bit(TargetTypes::Air)));
        } else if i == 2 {
            assert(a.contains_bit(kind_bit(TargetTypes::Water)));
        } else if i == 3 {
            assert(a.contains_bit(kind_bit(TargetTypes::Underwater)));
        } else {
            assert(a.contains_bit(kind_bit(TargetTypes::Hover)));
        }
    } else {
        assert forall|t: TargetTypes| !(#[trigger] a.contains_bit(kind_bit(t)) && b.contains_bit(
            kind_bit(t),
        )) by {
            assert(kind_bit(t) < 8);
        }
    }
}

} // verus!
