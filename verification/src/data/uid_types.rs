//! Typed indices, vectors indexed by them, a pool that hands indices out and
//! takes them back, and a mapping from names to indices drawn from a pool.
use std::collections::VecDeque;
use std::marker::PhantomData;
use vstd::prelude::*;

verus! {

/// A type that wraps a `usize` index.
pub trait USizeWrapper: Sized + Copy {
    /// The wrapped index.
    spec fn id_value(&self) -> nat;

    /// The wrapped index.
    fn usize_unwrap(self) -> (r: usize)
        ensures
            r == self.id_value(),
    ;

    /// Wraps the index `id`.
    fn usize_wrap(id: usize) -> (r: Self)
        ensures
            r.id_value() == id,
    ;
}

/// The id of a unit.
#[derive(Clone, Copy, Debug, PartialEq, Eq, PartialOrd, Ord, Hash)]
pub struct UnitID(usize);

/// The id of a team.
#[derive(Clone, Copy, Debug, PartialEq, Eq, PartialOrd, Ord, Hash)]
pub struct TeamID(usize);

/// The id of a missile.
#[derive(Clone, Copy, Debug, PartialEq, Eq, PartialOrd, Ord, Hash)]
pub struct MissileID(usize);

/// The id of a kind of unit.
#[derive(Clone, Copy, Debug, PartialEq, Eq, PartialOrd, Ord, Hash)]
pub struct UnitTypeID(usize);

/// The id of a kind of missile.
#[derive(Clone, Copy, Debug, PartialEq, Eq, PartialOrd, Ord, Hash)]
pub struct MissileTypeID(usize);

/// The id of an order.
#[derive(Clone, Copy, Debug, PartialEq, Eq, PartialOrd, Ord, Hash)]
pub struct OrderID(usize);

/// The id of a kind of weapon.
#[derive(Clone, Copy, Debug, PartialEq, Eq, PartialOrd, Ord, Hash)]
pub struct WeaponTypeID(usize);

impl USizeWrapper for UnitID {
    closed spec fn id_value(&self) -> nat {
        self.0 as nat
    }

    fn usize_unwrap(self) -> (r: usize) {
        self.0
    }

    fn usize_wrap(id: usize) -> (r: UnitID) {
        UnitID(id)
    }
}

impl USizeWrapper for TeamID {
    closed spec fn id_value(&self) -> nat {
        self.0 as nat
    }

    fn usize_unwrap(self) -> (r: usize) {
        self.0
    }

    fn usize_wrap(id: usize) -> (r: TeamID) {
        TeamID(id)
    }
}

impl USizeWrapper for MissileID {
    closed spec fn id_value(&self) -> nat {
        self.0 as nat
    }

    fn usize_unwrap(self) -> (r: usize) {
        self.0
    }

    fn usize_wrap(id: usize) -> (r: MissileID) {
        MissileID(id)
    }
}

impl USizeWrapper for UnitTypeID {
    closed spec fn id_value(&self) -> nat {
        self.0 as nat
    }

    fn usize_unwrap(self) -> (r: usize) {
        self.0
    }

    fn usize_wrap(id: usize) -> (r: UnitTypeID) {
        UnitTypeID(id)
    }
}

impl USizeWrapper for MissileTypeID {
    closed spec fn id_value(&self) -> nat {
        self.0 as nat
    }

    fn usize_unwrap(self) -> (r: usize) {
        self.0
    }

    fn usize_wrap(id: usize) -> (r: MissileTypeID) {
        MissileTypeID(id)
    }
}

impl USizeWrapper for OrderID {
    closed spec fn id_value(&self) -> nat {
        self.0 as nat
    }

    fn usize_unwrap(self) -> (r: usize) {
        self.0
    }

    fn usize_wrap(id: usize) -> (r: OrderID) {
        OrderID(id)
    }
}

impl USizeWrapper for WeaponTypeID {
    closed spec fn id_value(&self) -> nat {
        self.0 as nat
    }

    fn usize_unwrap(self) -> (r: usize) {
        self.0
    }

    fn usize_wrap(id: usize) -> (r: WeaponTypeID) {
        WeaponTypeID(id)
    }
}

/// A vector indexed by typed ids.
#[derive(Debug)]
pub struct VecUID<UID, T> {
    vec: Vec<T>,
    index_type: PhantomData<UID>,
}

impl<UID, T: Clone> Clone for VecUID<UID, T> {
    fn clone(&self) -> (r: Self) {
        VecUID { vec: self.vec.clone(), index_type: PhantomData }
    }
}

impl<UID: USizeWrapper, T: Clone> VecUID<UID, T> {
    /// The elements, in id order.
    pub closed spec fn view(&self) -> Seq<T> {
        self.vec@
    }

    /// `size` clones of `default`.
    pub fn full_vec(size: usize, default: T) -> (r: VecUID<UID, T>)
        ensures
            r.view().len() == size,
            forall|i: int| 0 <= i < size ==> cloned::<T>(default, #[trigger] r.view()[i]),
    {
        let mut vec: Vec<T> = Vec::with_capacity(size);
        for k in 0..size
            invariant
                vec.len() == k,
                forall|i: int| 0 <= i < k ==> cloned::<T>(default, #[trigger] vec@[i]),
        {
            vec.push(default.clone());
        }
        VecUID { vec: vec, index_type: PhantomData }
    }

    /// The number of elements.
    pub fn len(&self) -> (r: usize)
        ensures
            r == self.view().len(),
    {
        self.vec.len()
    }

    /// The element at `ix`.
    pub fn get(&self, ix: UID) -> (r: &T)
        requires
            ix.id_value() < self.view().len(),
        ensures
            *r == self.view()[ix.id_value() as int],
    {
        &self.vec[ix.usize_unwrap()]
    }

    /// Replaces the element at `ix` with `v`.
    pub fn set(&mut self, ix: UID, v: T)
        requires
            ix.id_value() < old(self).view().len(),
        ensures
            final(self).view() == old(self).view().update(ix.id_value() as int, v),
    {
        let i = ix.usize_unwrap();
        self.vec.set(i, v);
    }
}

/// The id values of a sequence of ids.
pub open spec fn id_values<T: USizeWrapper>(s: Seq<T>) -> Seq<nat> {
    s.map_values(|t: T| t.id_value())
}

proof fn lemma_id_values<T: USizeWrapper>(s: Seq<T>)
    ensures
        id_values(s).len() == s.len(),
        forall|i: int| 0 <= i < s.len() ==> id_values(s)[i] == #[trigger] s[i].id_value(),
        forall|i: int| 0 <= i < s.len() ==> #[trigger] id_values(s)[i] == s[i].id_value(),
{
}

/// Finds `target` in the strictly increasing ids `v`: `Ok` with its position,
/// or `Err` with the position where it would be inserted.
fn binary_search_ids<T: USizeWrapper>(v: &Vec<T>, target: T) -> (r: Result<usize, usize>)
    requires
        forall|i: int, j: int| 0 <= i < j < v.len() ==> #[trigger] v[i].id_value() < #[trigger] v[j].id_value(),
    ensures
        match r {
            Ok(i) => i < v.len() && v[i as int].id_value() == target.id_value(),
            Err(i) => i <= v.len() && (forall|k: int| 0 <= k < i ==> #[trigger] v[k].id_value()
                < target.id_value()) && (forall|k: int| i <= k < v.len() ==> #[trigger] v[k].id_value()
                > target.id_value()),
        },
{
    let t = target.usize_unwrap();
    let mut lo: usize = 0;
    let mut hi: usize = v.len();
    while lo < hi
        invariant
            lo <= hi <= v.len(),
            t == target.id_value(),
            forall|i: int, j: int| 0 <= i < j < v.len() ==> #[trigger] v[i].id_value() < #[trigger] v[j].id_value(),
            forall|k: int| 0 <= k < lo ==> #[trigger] v[k].id_value() < t,
            forall|k: int| hi <= k < v.len() ==> #[trigger] v[k].id_value() > t,
        decreases hi - lo,
    {
        let mid = lo + (hi - lo) / 2;
        let m = v[mid].usize_unwrap();
        if m == t {
            return Ok(mid);
        } else if m < t {
            lo = mid + 1;
        } else {
            hi = mid;
        }
    }
    Err(lo)
}

/// Distinct ids below `n` that include every id below `n` number exactly `n`.
proof fn lemma_all_ids_count(s: Seq<nat>, n: nat)
    requires
        s.no_duplicates(),
        forall|i: int| 0 <= i < s.len() ==> #[trigger] s[i] < n,
        forall|k: nat| k < n ==> s.contains(k),
    ensures
        s.len() == n,
{
    let target = Set::new(|k: nat| k < n);
    s.unique_seq_to_set();
    assert(s.to_set() =~= target);
    let r = vstd::set_lib::set_int_range(0, n as int);
    vstd::set_lib::lemma_int_range(0, n as int);
    let f = |i: int| i as nat;
    assert forall|k: nat| target.contains(k) implies r.map(f).contains(k) by {
        assert(r.contains(k as int) && f(k as int) == k);
    }
    assert(r.map(f) =~= target);
    assert(vstd::relations::injective_on(f, r));
    vstd::set_lib::lemma_map_size(r, target, f);
}

/// A pool of the ids `0..size`: a queue of free ids, handed out from the
/// front and returned at the back, and the sorted list of ids in use.
#[derive(Clone)]
pub struct UIDPool<T> {
    available_ids: VecDeque<T>,
    iteratable_ids: Vec<T>,
    size: Ghost<nat>,
}

impl<T: USizeWrapper> UIDPool<T> {
    /// The free ids, in the order they will be handed out.
    pub closed spec fn free(&self) -> Seq<nat> {
        id_values(self.available_ids@)
    }

    /// The ids in use, in increasing order.
    pub closed spec fn in_use(&self) -> Seq<nat> {
        id_values(self.iteratable_ids@)
    }

    /// The number of ids the pool manages.
    pub closed spec fn size(&self) -> nat {
        self.size@
    }

    /// Every id below the size is either free or in use, never both and
    /// never twice; the ids in use are sorted.
    pub closed spec fn wf(&self) -> bool {
        &&& forall|i: int, j: int|
            0 <= i < j < self.in_use().len() ==> #[trigger] self.in_use()[i] < #[trigger] self.in_use()[j]
        &&& forall|i: int, j: int|
            0 <= i < j < self.free().len() ==> #[trigger] self.free()[i] != #[trigger] self.free()[j]
        &&& forall|i: int, j: int|
            0 <= i < self.free().len() && 0 <= j < self.in_use().len() ==> #[trigger] self.free()[i]
                != #[trigger] self.in_use()[j]
        &&& forall|n: nat| n < self.size() <==> (self.free().contains(n) || self.in_use().contains(n))
    }

    /// Every id of a well-formed pool is free or in use, so together they
    /// number the pool's size: the pool has no free id exactly when all its
    /// ids are in use, and `get_id` fails exactly then.
    pub proof fn lemma_pool_count(&self)
        requires
            self.wf(),
        ensures
            self.free().len() + self.in_use().len() == self.size(),
            (self.free().len() == 0) == (self.in_use().len() == self.size()),
    {
        let s = self.free() + self.in_use();
        assert forall|i: int, j: int| 0 <= i < s.len() && 0 <= j < s.len() && i != j implies s[i] != s[j] by {
            let a = self.free().len() as int;
            if i < a && j < a {
                if i < j {
                    assert(self.free()[i] != self.free()[j]);
                } else {
                    assert(self.free()[j] != self.free()[i]);
                }
            } else if i >= a && j >= a {
                if i < j {
                    assert(self.in_use()[i - a] < self.in_use()[j - a]);
                } else {
                    assert(self.in_use()[j - a] < self.in_use()[i - a]);
                }
            } else if i < a {
                assert(self.free()[i] != self.in_use()[j - a]);
            } else {
                assert(self.free()[j] != self.in_use()[i - a]);
            }
        }
        assert forall|i: int| 0 <= i < s.len() implies #[trigger] s[i] < self.size() by {
            let a = self.free().len() as int;
            if i < a {
                assert(self.free().contains(self.free()[i]));
            } else {
                assert(self.in_use().contains(self.in_use()[i - a]));
            }
        }
        assert forall|k: nat| k < self.size() implies s.contains(k) by {
            if self.free().contains(k) {
                let i = choose|i: int| 0 <= i < self.free().len() && self.free()[i] == k;
                assert(s[i] == k);
            } else {
                let i = choose|i: int| 0 <= i < self.in_use().len() && self.in_use()[i] == k;
                assert(s[self.free().len() + i] == k);
            }
        }
        lemma_all_ids_count(s, self.size());
    }

    /// A pool whose ids `0..size` are all free, to be handed out in
    /// increasing order.
    pub fn new(size: usize) -> (r: UIDPool<T>)
        ensures
            r.wf(),
            r.size() == size,
            r.free() == Seq::new(size as nat, |i: int| i as nat),
            r.in_use() == Seq::<nat>::empty(),
    {
        let mut available_ids: VecDeque<T> = VecDeque::with_capacity(size);
        let mut c: usize = size;
        while c > 0
            invariant
                c <= size,
                id_values(available_ids@) == Seq::new((size - c) as nat, |i: int| (i + c) as nat),
            decreases c,
        {
            c -= 1;
            let ghost before = available_ids@;
            let w = T::usize_wrap(c);
            available_ids.push_front(w);
            proof {
                lemma_id_values(before);
                lemma_id_values(available_ids@);
                assert(available_ids@ == seq![w] + before);
                assert forall|i: int| 0 <= i < size - c implies #[trigger] id_values(available_ids@)[i]
                    == (i + c) as nat by {
                    if i > 0 {
                        assert(available_ids@[i] == before[i - 1]);
                        assert(id_values(before)[i - 1] == (i - 1 + c + 1) as nat);
                    }
                }
            }
            assert(id_values(available_ids@) =~= Seq::new((size - c) as nat, |i: int| (i + c) as nat));
        }
        let r = UIDPool {
            available_ids: available_ids,
            iteratable_ids: Vec::with_capacity(size),
            size: Ghost(size as nat),
        };
        assert(r.free() =~= Seq::new(size as nat, |i: int| i as nat));
        assert(r.in_use() =~= Seq::<nat>::empty());
        assert forall|n: nat| n < r.size() <==> (r.free().contains(n) || r.in_use().contains(n)) by {
            if n < r.size() {
                assert(r.free()[n as int] == n);
            }
        }
        r
    }

    /// Hands out the free id at the front of the queue and records it as in
    /// use; `None` when every id is in use.
    pub fn get_id(&mut self) -> (r: Option<T>)
        requires
            old(self).wf(),
        ensures
            final(self).wf(),
            final(self).size() == old(self).size(),
            match r {
                None => old(self).free().len() == 0 && final(self).free() == old(self).free()
                    && final(self).in_use() == old(self).in_use(),
                Some(id) => {
                    &&& old(self).free().len() > 0
                    &&& id.id_value() == old(self).free()[0]
                    &&& final(self).free() == old(self).free().drop_first()
                    &&& final(self).in_use().to_set() == old(self).in_use().to_set().insert(id.id_value())
                },
            },
    {
        let ghost old_free = self.free();
        let ghost old_use = self.in_use();
        proof {
            lemma_id_values(self.iteratable_ids@);
            lemma_id_values(self.available_ids@);
        }
        match self.available_ids.pop_front() {
            Some(id) => {
                assert(self.free() =~= old_free.drop_first());
                match binary_search_ids(&self.iteratable_ids, id) {
                    Ok(i) => {
                        assert(old_use[i as int] == old_free[0]);
                        None
                    },
                    Err(i) => {
                        self.iteratable_ids.insert(i, id);
                        proof {
                            let v = id.id_value();
                            assert(self.in_use() =~= old_use.insert(i as int, v));
                            assert(self.in_use().to_set() =~= old_use.to_set().insert(v)) by {
                                assert forall|n: nat| self.in_use().to_set().contains(n) implies old_use.to_set().insert(v).contains(n) by {
                                    let k = choose|k: int| 0 <= k < self.in_use().len() && self.in_use()[k] == n;
                                    if k > i {
                                        assert(old_use[k - 1] == n);
                                    } else if k < i {
                                        assert(old_use[k] == n);
                                    }
                                }
                                assert forall|n: nat| old_use.to_set().insert(v).contains(n) implies self.in_use().to_set().contains(n) by {
                                    if n == v {
                                        assert(self.in_use()[i as int] == v);
                                    } else {
                                        let k = choose|k: int| 0 <= k < old_use.len() && old_use[k] == n;
                                        if k >= i {
                                            assert(self.in_use()[k + 1] == n);
                                        } else {
                                            assert(self.in_use()[k] == n);
                                        }
                                    }
                                }
                            }
                            assert forall|n: nat| n < self.size() implies (self.free().contains(n)
                                || self.in_use().contains(n)) by {
                                if old_free.contains(n) {
                                    let k = choose|k: int| 0 <= k < old_free.len() && old_free[k] == n;
                                    if k == 0 {
                                        assert(self.in_use()[i as int] == n);
                                        assert(self.in_use().contains(n));
                                    } else {
                                        assert(self.free()[k - 1] == n);
                                        assert(self.free().contains(n));
                                    }
                                } else {
                                    assert(old_use.contains(n));
                                    assert(old_use.to_set().contains(n));
                                    assert(self.in_use().to_set().contains(n));
                                    assert(self.in_use().contains(n));
                                }
                            }
                            assert forall|n: nat| self.free().contains(n) implies n < self.size() by {
                                let k = choose|k: int| 0 <= k < self.free().len() && self.free()[k] == n;
                                assert(old_free[k + 1] == n);
                                assert(old_free.contains(n));
                            }
                            assert forall|n: nat| self.in_use().contains(n) implies n < self.size() by {
                                assert(self.in_use().to_set().contains(n));
                                assert(old_use.to_set().insert(v).contains(n));
                                if n != v {
                                    assert(old_use.contains(n));
                                } else {
                                    assert(old_free[0] == n);
                                    assert(old_free.contains(n));
                                }
                            }
                        }
                        Some(id)
                    },
                }
            },
            None => {
                assert(self.free() =~= old_free);
                None
            },
        }
    }

    /// Takes `id` back: an id in use joins the back of the free queue; any
    /// other id leaves the pool as it was.
    pub fn put_id(&mut self, id: T)
        requires
            old(self).wf(),
        ensures
            final(self).wf(),
            final(self).size() == old(self).size(),
            if old(self).in_use().contains(id.id_value()) {
                &&& final(self).free() == old(self).free().push(id.id_value())
                &&& final(self).in_use().to_set() == old(self).in_use().to_set().remove(id.id_value())
            } else {
                &&& final(self).free() == old(self).free()
                &&& final(self).in_use() == old(self).in_use()
            },
    {
        let ghost old_free = self.free();
        let ghost old_use = self.in_use();
        let ghost v = id.id_value();
        proof {
            lemma_id_values(self.iteratable_ids@);
            lemma_id_values(self.available_ids@);
        }
        match binary_search_ids(&self.iteratable_ids, id) {
            Ok(i) => {
                assert(old_use[i as int] == v);
                self.available_ids.push_back(id);
                self.iteratable_ids.remove(i);
                proof {
                    assert(self.free() =~= old_free.push(v));
                    assert(self.in_use() =~= old_use.remove(i as int));
                    assert(old_use.contains(v));
                    assert(self.in_use().to_set() =~= old_use.to_set().remove(v)) by {
                        assert forall|n: nat| self.in_use().to_set().contains(n) implies old_use.to_set().remove(v).contains(n) by {
                            let k = choose|k: int| 0 <= k < self.in_use().len() && self.in_use()[k] == n;
                            if k >= i {
                                assert(old_use[k + 1] == n);
                            } else {
                                assert(old_use[k] == n);
                            }
                        }
                        assert forall|n: nat| old_use.to_set().remove(v).contains(n) implies self.in_use().to_set().contains(n) by {
                            let k = choose|k: int| 0 <= k < old_use.len() && old_use[k] == n;
                            if k > i {
                                assert(self.in_use()[k - 1] == n);
                            } else {
                                assert(k != i);
                                assert(self.in_use()[k] == n);
                            }
                        }
                    }
                    assert forall|n: nat| n < self.size() implies (self.free().contains(n)
                        || self.in_use().contains(n)) by {
                        if n == v {
                            assert(self.free()[self.free().len() - 1] == n);
                        } else if old_free.contains(n) {
                            let k = choose|k: int| 0 <= k < old_free.len() && old_free[k] == n;
                            assert(self.free()[k] == n);
                        } else {
                            assert(old_use.contains(n));
                            assert(old_use.to_set().contains(n));
                            assert(old_use.to_set().remove(v).contains(n));
                            assert(self.in_use().to_set().contains(n));
                        }
                    }
                    assert forall|n: nat| self.free().contains(n) implies n < self.size() by {
                        let k = choose|k: int| 0 <= k < self.free().len() && self.free()[k] == n;
                        if k < old_free.len() {
                            assert(old_free[k] == n);
                            assert(old_free.contains(n));
                        } else {
                            assert(old_use.contains(n));
                        }
                    }
                    assert forall|n: nat| self.in_use().contains(n) implies n < self.size() by {
                        assert(self.in_use().to_set().contains(n));
                        assert(old_use.to_set().contains(n));
                        assert(old_use.contains(n));
                    }
                }
            },
            Err(_) => {
                assert(!old_use.contains(v));
            },
        }
    }

    /// The ids in use, in increasing order.
    pub fn iter(&self) -> (r: Vec<T>)
        ensures
            id_values(r@) == self.in_use(),
    {
        let n = self.iteratable_ids.len();
        let mut r: Vec<T> = Vec::with_capacity(n);
        for k in 0..n
            invariant
                n == self.iteratable_ids.len(),
                r@ == self.iteratable_ids@.subrange(0, k as int),
        {
            r.push(self.iteratable_ids[k]);
            assert(r@ =~= self.iteratable_ids@.subrange(0, k + 1));
        }
        assert(r@ =~= self.iteratable_ids@);
        r
    }
}

/// Names mapped to ids drawn from a pool, each name to its own id.
pub struct UIDMapping<T> {
    pool: UIDPool<T>,
    map: Vec<(String, T)>,
}

impl<T: USizeWrapper> UIDMapping<T> {
    /// The names mapped so far with their ids, in the order they were added.
    pub closed spec fn entries(&self) -> Seq<(Seq<char>, nat)> {
        self.map@.map_values(|e: (String, T)| (e.0@, e.1.id_value()))
    }

    /// The pool the ids come from.
    pub closed spec fn pool(&self) -> UIDPool<T> {
        self.pool
    }

    /// Whether `name` has an id.
    pub open spec fn has_name(&self, name: Seq<char>) -> bool {
        exists|i: int| 0 <= i < self.entries().len() && #[trigger] self.entries()[i].0 == name
    }

    /// The id of a name that has one.
    pub open spec fn id_of(&self, name: Seq<char>) -> nat {
        self.entries()[choose|i: int| 0 <= i < self.entries().len() && #[trigger] self.entries()[i].0 == name].1
    }

    /// The pool is well formed, no name occurs twice, no id is given to two
    /// names, and every id given out is in use in the pool.
    pub closed spec fn wf(&self) -> bool {
        &&& self.pool.wf()
        &&& forall|i: int, j: int|
            0 <= i < j < self.entries().len() ==> #[trigger] self.entries()[i].0 != #[trigger] self.entries()[j].0
        &&& forall|i: int, j: int|
            0 <= i < j < self.entries().len() ==> #[trigger] self.entries()[i].1 != #[trigger] self.entries()[j].1
        &&& forall|i: int| 0 <= i < self.entries().len() ==> self.pool.in_use().contains(#[trigger] self.entries()[i].1)
        &&& self.pool.in_use().len() == self.entries().len()
    }

    /// A well-formed mapping has no free id left exactly when it has given
    /// out as many ids as its pool holds; then, and only then, a new name
    /// gets `None`.
    pub proof fn lemma_mapping_full(&self)
        requires
            self.wf(),
        ensures
            (self.pool().free().len() == 0) == (self.entries().len() == self.pool().size()),
    {
        self.pool.lemma_pool_count();
    }

    /// An empty mapping over a pool of `size` ids.
    pub fn new(size: usize) -> (r: UIDMapping<T>)
        ensures
            r.wf(),
            r.entries() == Seq::<(Seq<char>, nat)>::empty(),
            r.pool().size() == size,
            r.pool().free() == Seq::new(size as nat, |i: int| i as nat),
            r.pool().in_use() == Seq::<nat>::empty(),
    {
        let pool = UIDPool::new(size);
        let r = UIDMapping { pool: pool, map: Vec::new() };
        assert(r.entries() =~= Seq::<(Seq<char>, nat)>::empty());
        r
    }

    /// The id of `name`, taking a fresh one from the pool for a new name;
    /// `None` when the name is new and the pool has no free id.
    pub fn name_to_id(&mut self, name: String) -> (r: Option<T>)
        requires
            old(self).wf(),
        ensures
            final(self).wf(),
            final(self).pool().size() == old(self).pool().size(),
            old(self).has_name(name@) ==> (r matches Some(t) && t.id_value() == old(self).id_of(name@)
                && final(self).entries() == old(self).entries() && final(self).pool() == old(self).pool()),
            !old(self).has_name(name@) && old(self).pool().free().len() > 0 ==> (r matches Some(t)
                && t.id_value() == old(self).pool().free()[0] && final(self).entries() == old(self).entries().push(
                (name@, t.id_value())) && final(self).pool().free() == old(self).pool().free().drop_first()),
            !old(self).has_name(name@) && old(self).pool().free().len() == 0 ==> r is None
                && final(self).entries() == old(self).entries() && final(self).pool().free()
                == old(self).pool().free(),
    {
        let n = self.map.len();
        for i in 0..n
            invariant
                n == self.map.len(),
                self.wf(),
                *self == *old(self),
                forall|k: int| 0 <= k < i ==> #[trigger] self.map@[k].0@ != name@,
        {
            if self.map[i].0 == name {
                let t = self.map[i].1;
                proof {
                    assert(self.entries()[i as int].0 == name@);
                    let c = choose|c: int| 0 <= c < self.entries().len() && #[trigger] self.entries()[c].0 == name@;
                    if c < i {
                        assert(self.entries()[c].0 != self.entries()[i as int].0);
                    } else if c > i {
                        assert(self.entries()[i as int].0 != self.entries()[c].0);
                    }
                }
                return Some(t);
            }
        }
        proof {
            assert forall|i: int| 0 <= i < self.entries().len() implies #[trigger] self.entries()[i].0 != name@ by {
                assert(self.map@[i].0@ != name@);
            }
        }
        let ghost old_entries = self.entries();
        let ghost old_pool = self.pool;
        match self.pool.get_id() {
            Some(id) => {
                self.map.push((name, id));
                proof {
                    old_pool.lemma_pool_count();
                    self.pool.lemma_pool_count();
                    assert(self.entries() =~= old_entries.push((name@, id.id_value())));
                    assert forall|i: int| 0 <= i < self.entries().len() implies self.pool.in_use().contains(
                        #[trigger] self.entries()[i].1) by {
                        let v = self.entries()[i].1;
                        if i < old_entries.len() {
                            assert(old_pool.in_use().contains(v));
                            assert(old_pool.in_use().to_set().contains(v));
                        }
                        assert(self.pool.in_use().to_set().contains(v));
                    }
                    assert forall|i: int, j: int| 0 <= i < j < self.entries().len() implies #[trigger] self.entries()[i].1
                        != #[trigger] self.entries()[j].1 by {
                        if j == old_entries.len() {
                            let v = self.entries()[i].1;
                            assert(old_pool.in_use().contains(v));
                            let k = choose|k: int| 0 <= k < old_pool.in_use().len() && old_pool.in_use()[k] == v;
                            assert(old_pool.free()[0] != old_pool.in_use()[k]);
                        }
                    }
                }
                Some(id)
            },
            None => {
                assert(self.entries() =~= old_entries);
                None
            },
        }
    }
}

impl<T: USizeWrapper> UIDMapping<T> {
    /// The id of `name`, if it has one; the mapping is left as it is.
    pub fn id(&self, name: &String) -> (r: Option<T>)
        requires
            self.wf(),
        ensures
            r is Some <==> self.has_name(name@),
            r matches Some(t) ==> t.id_value() == self.id_of(name@),
    {
        let n = self.map.len();
        for i in 0..n
            invariant
                n == self.map.len(),
                self.wf(),
                forall|k: int| 0 <= k < i ==> #[trigger] self.map@[k].0@ != name@,
        {
            if self.map[i].0 == *name {
                let t = self.map[i].1;
                proof {
                    assert(self.entries()[i as int].0 == name@);
                    let c = choose|c: int| 0 <= c < self.entries().len() && #[trigger] self.entries()[c].0 == name@;
                    if c < i {
                        assert(self.entries()[c].0 != self.entries()[i as int].0);
                    } else if c > i {
                        assert(self.entries()[i as int].0 != self.entries()[c].0);
                    }
                }
                return Some(t);
            }
        }
        proof {
            assert forall|i: int| 0 <= i < self.entries().len() implies #[trigger] self.entries()[i].0 != name@ by {
                assert(self.map@[i].0@ != name@);
            }
        }
        None
    }
}

/// The text of each name.
pub open spec fn name_texts(names: Seq<String>) -> Seq<Seq<char>> {
    names.map_values(|s: String| s@)
}

/// The ids of a list of names that all have one, in order; the position of
/// the first name that has none, if any.
pub fn resolve_names<T: USizeWrapper>(refs: &[String], ids: &UIDMapping<T>) -> (r: Result<Vec<T>, usize>)
    requires
        ids.wf(),
    ensures
        r is Ok <==> forall|i: int| 0 <= i < refs@.len() ==> ids.has_name(#[trigger] refs@[i]@),
        r matches Ok(v) ==> v@.len() == refs@.len() && forall|i: int|
            0 <= i < refs@.len() ==> #[trigger] v@[i].id_value() == ids.id_of(refs@[i]@),
        r matches Err(k) ==> k < refs@.len() && !ids.has_name(refs@[k as int]@) && forall|i: int|
            0 <= i < k ==> ids.has_name(#[trigger] refs@[i]@),
{
    let mut out: Vec<T> = Vec::new();
    let mut i: usize = 0;
    while i < refs.len()
        invariant
            ids.wf(),
            i <= refs@.len(),
            out@.len() == i,
            forall|j: int| 0 <= j < i ==> ids.has_name(#[trigger] refs@[j]@),
            forall|j: int| 0 <= j < i ==> #[trigger] out@[j].id_value() == ids.id_of(refs@[j]@),
        decreases refs@.len() - i,
    {
        match ids.id(&refs[i]) {
            Some(t) => {
                out.push(t);
                i = i + 1;
            },
            None => {
                return Err(i);
            },
        }
    }
    Ok(out)
}

/// What giving ids to `names` in turn does to a mapping with entries `e`
/// and free ids `f`: the ids handed back, the entries and free ids after,
/// and whether every name got an id. A name already mapped gets its id; a
/// new one takes the first free id; with none free, the run stops there.
pub open spec fn assign_run(
    e: Seq<(Seq<char>, nat)>,
    f: Seq<nat>,
    names: Seq<Seq<char>>,
) -> (Seq<nat>, Seq<(Seq<char>, nat)>, Seq<nat>, bool)
    decreases names.len(),
{
    if names.len() == 0 {
        (seq![], e, f, true)
    } else {
        let p = assign_run(e, f, names.drop_last());
        let n = names.last();
        if !p.3 {
            p
        } else if exists|i: int| 0 <= i < p.1.len() && #[trigger] p.1[i].0 == n {
            let id = p.1[choose|i: int| 0 <= i < p.1.len() && #[trigger] p.1[i].0 == n].1;
            (p.0.push(id), p.1, p.2, true)
        } else if p.2.len() > 0 {
            (p.0.push(p.2[0]), p.1.push((n, p.2[0])), p.2.drop_first(), true)
        } else {
            (p.0, p.1, p.2, false)
        }
    }
}

/// Gives each of `names` an id in turn, as `name_to_id` does, and answers
/// their ids in order; `None` when the ids run out, the mapping then
/// keeping what the names before got.
pub fn assign_type_ids<T: USizeWrapper>(names: &[String], ids: &mut UIDMapping<T>) -> (r: Option<Vec<T>>)
    requires
        old(ids).wf(),
    ensures
        final(ids).wf(),
        ({
            let run = assign_run(old(ids).entries(), old(ids).pool().free(), name_texts(names@));
            &&& final(ids).entries() == run.1
            &&& final(ids).pool().free() == run.2
            &&& (r is Some <==> run.3)
            &&& (r matches Some(v) ==> id_values(v@) == run.0)
        }),
{
    let ghost e0 = ids.entries();
    let ghost f0 = ids.pool().free();
    let mut out: Vec<T> = Vec::new();
    let mut i: usize = 0;
    while i < names.len()
        invariant
            ids.wf(),
            i <= names@.len(),
            e0 == old(ids).entries(),
            f0 == old(ids).pool().free(),
            ({
                let run = assign_run(e0, f0, name_texts(names@).take(i as int));
                &&& ids.entries() == run.1
                &&& ids.pool().free() == run.2
                &&& run.3
                &&& id_values(out@) == run.0
            }),
        decreases names@.len() - i,
    {
        let ghost before = *ids;
        let ghost run0 = assign_run(e0, f0, name_texts(names@).take(i as int));
        let name = names[i].clone();
        let got = ids.name_to_id(name);
        proof {
            let t = name_texts(names@).take(i + 1);
            assert(t.drop_last() =~= name_texts(names@).take(i as int));
            assert(t.last() == names@[i as int]@);
            lemma_id_values(out@);
        }
        match got {
            Some(id) => {
                let ghost o0 = out@;
                out.push(id);
                proof {
                    lemma_id_values(out@);
                    lemma_id_values(o0);
                    assert(id_values(out@) =~= id_values(o0).push(id.id_value()));
                }
            },
            None => {
                proof {
                    let nm = names@[i as int]@;
                    let r1 = assign_run(e0, f0, name_texts(names@).take(i + 1));
                    assert(!before.has_name(nm));
                    assert(before.pool().free().len() == 0);
                    assert(!(exists|j: int| 0 <= j < run0.1.len() && #[trigger] run0.1[j].0 == nm));
                    assert(!r1.3);
                    assert(r1.1 == run0.1 && r1.2 == run0.2);
                    lemma_run_stops(e0, f0, name_texts(names@), i as int + 1);
                }
                return None;
            },
        }
        i = i + 1;
    }
    assert(name_texts(names@).take(i as int) =~= name_texts(names@));
    Some(out)
}

/// Once a run of `assign_run` has stopped, later names change nothing.
proof fn lemma_run_stops(e: Seq<(Seq<char>, nat)>, f: Seq<nat>, names: Seq<Seq<char>>, k: int)
    requires
        0 <= k <= names.len(),
        !assign_run(e, f, names.take(k)).3,
    ensures
        assign_run(e, f, names) == assign_run(e, f, names.take(k)),
    decreases names.len() - k,
{
    if k < names.len() {
        assert(names.take(k + 1).drop_last() =~= names.take(k));
        lemma_run_stops(e, f, names, k + 1);
    } else {
        assert(names.take(k) =~= names);
    }
}

/// What one call on a pool does: `get_id` where `op` is `None`, answering
/// `r` (the id's value); `put_id` of the id with value `v` where `op` is
/// `Some(v)`.
pub open spec fn pool_step<T: USizeWrapper>(before: UIDPool<T>, after: UIDPool<T>, op: Option<nat>, r: Option<nat>) -> bool {
    &&& after.wf()
    &&& after.size() == before.size()
    &&& match op {
        None => {
            &&& (r is None ==> before.free().len() == 0 && after.free() == before.free() && after.in_use()
                == before.in_use())
            &&& (r matches Some(v) ==> before.free().len() > 0 && v == before.free()[0] && after.free()
                == before.free().drop_first() && after.in_use().to_set() == before.in_use().to_set().insert(v))
        },
        Some(v) => if before.in_use().contains(v) {
            after.free() == before.free().push(v) && after.in_use().to_set() == before.in_use().to_set().remove(v)
        } else {
            after.free() == before.free() && after.in_use() == before.in_use()
        },
    }
}

/// The ids that a run of pool calls leaves in use, starting from none: each
/// id that `get_id` handed out and `put_id` has not given back since.
pub open spec fn held(ops: Seq<Option<nat>>, results: Seq<Option<nat>>) -> Set<nat>
    decreases ops.len(),
{
    if ops.len() == 0 {
        Set::empty()
    } else {
        let p = held(ops.drop_last(), results.drop_last());
        match ops.last() {
            None => match results.last() {
                Some(v) => p.insert(v),
                None => p,
            },
            Some(v) => p.remove(v),
        }
    }
}

impl<T: USizeWrapper> UIDPool<T> {
    /// The ids in use of a well-formed pool are strictly increasing and
    /// below its size.
    pub proof fn lemma_in_use_sorted(&self)
        requires
            self.wf(),
        ensures
            forall|i: int, j: int| 0 <= i < j < self.in_use().len() ==> self.in_use()[i] < self.in_use()[j],
            forall|i: int| 0 <= i < self.in_use().len() ==> #[trigger] self.in_use()[i] < self.size(),
    {
        assert forall|i: int| 0 <= i < self.in_use().len() implies #[trigger] self.in_use()[i] < self.size() by {
            assert(self.in_use().contains(self.in_use()[i]));
        }
    }
}

proof fn lemma_pool_prefix<T: USizeWrapper>(
    pools: Seq<UIDPool<T>>,
    ops: Seq<Option<nat>>,
    results: Seq<Option<nat>>,
    n: nat,
    m: int,
)
    requires
        pools.len() == ops.len() + 1,
        results.len() == ops.len(),
        pools[0].wf(),
        pools[0].size() == n,
        pools[0].in_use() == Seq::<nat>::empty(),
        forall|k: int| 0 <= k < ops.len() ==> #[trigger] pool_step(pools[k], pools[k + 1], ops[k], results[k]),
        0 <= m < pools.len(),
    ensures
        pools[m].wf(),
        pools[m].size() == n,
        pools[m].in_use().to_set() == held(ops.take(m), results.take(m)),
    decreases m,
{
    if m == 0 {
        assert(ops.take(0).len() == 0);
        assert(pools[0].in_use().to_set() =~= Set::<nat>::empty());
    } else {
        let k = m - 1;
        lemma_pool_prefix(pools, ops, results, n, k);
        assert(pool_step(pools[k], pools[k + 1], ops[k], results[k]));
        assert(ops.take(m).drop_last() =~= ops.take(k));
        assert(results.take(m).drop_last() =~= results.take(k));
        assert(ops.take(m).last() == ops[k]);
        assert(results.take(m).last() == results[k]);
        let before = pools[k].in_use().to_set();
        match ops[k] {
            Some(v) => {
                if !pools[k].in_use().contains(v) {
                    assert(before.remove(v) =~= before);
                }
            },
            None => {},
        }
    }
}

/// While a new pool of `n` ids has only been asked for ids, it has handed
/// out `0, 1, ...` in turn, and its free ids are the rest.
proof fn lemma_fresh_gets<T: USizeWrapper>(
    pools: Seq<UIDPool<T>>,
    ops: Seq<Option<nat>>,
    results: Seq<Option<nat>>,
    n: nat,
    m: int,
)
    requires
        pools.len() == ops.len() + 1,
        results.len() == ops.len(),
        pools[0].free() == Seq::new(n, |i: int| i as nat),
        forall|k: int| 0 <= k < ops.len() ==> #[trigger] pool_step(pools[k], pools[k + 1], ops[k], results[k]),
        0 <= m < pools.len(),
        forall|j: int| 0 <= j < m ==> #[trigger] ops[j] is None,
    ensures
        pools[m].free() == Seq::new(
            (if m < n { n - m } else { 0 }) as nat,
            |i: int| (i + if m < n { m } else { n as int }) as nat,
        ),
        forall|j: int| 0 <= j < m ==> #[trigger] results[j] == if j < n { Some(j as nat) } else { None::<nat> },
    decreases m,
{
    if m == 0 {
        assert(pools[0].free() =~= Seq::new(n, |i: int| (i + 0) as nat));
    } else {
        let k = m - 1;
        lemma_fresh_gets(pools, ops, results, n, k);
        assert(ops[k] is None);
        assert(pool_step(pools[k], pools[k + 1], ops[k], results[k]));
        let f = pools[k].free();
        if k < n {
            assert(f.len() > 0);
            assert(f[0] == k);
            assert(results[k] is Some);
            assert(pools[m].free() =~= Seq::new(
                (if m < n { n - m } else { 0 }) as nat,
                |i: int| (i + if m < n { m } else { n as int }) as nat,
            ));
        } else {
            assert(f.len() == 0);
            assert(results[k] is None);
            assert(pools[m].free() =~= Seq::new(
                (if m < n { n - m } else { 0 }) as nat,
                |i: int| (i + if m < n { m } else { n as int }) as nat,
            ));
        }
    }
}

/// Across any run of `get_id` and `put_id` calls on a new pool of `n` ids:
/// the ids in use are strictly increasing and below `n`, and are exactly
/// the ids handed out and not given back since; `get_id` answers `None`
/// exactly when all `n` ids are in use; and while only ids are asked for,
/// the pool hands out `0, 1, ..., n - 1` in that order, then `None`.
pub proof fn lemma_pool_history<T: USizeWrapper>(
    pools: Seq<UIDPool<T>>,
    ops: Seq<Option<nat>>,
    results: Seq<Option<nat>>,
    n: nat,
)
    requires
        pools.len() == ops.len() + 1,
        results.len() == ops.len(),
        pools[0].wf(),
        pools[0].size() == n,
        pools[0].free() == Seq::new(n, |i: int| i as nat),
        pools[0].in_use() == Seq::<nat>::empty(),
        forall|k: int| 0 <= k < ops.len() ==> #[trigger] pool_step(pools[k], pools[k + 1], ops[k], results[k]),
    ensures
        forall|m: int| 0 <= m < pools.len() ==> #[trigger] pools[m].in_use().to_set() == held(ops.take(m), results.take(m)),
        forall|m: int, i: int, j: int|
            0 <= m < pools.len() && 0 <= i < j < pools[m].in_use().len() ==> #[trigger] pools[m].in_use()[i]
                < #[trigger] pools[m].in_use()[j],
        forall|m: int, i: int|
            0 <= m < pools.len() && 0 <= i < pools[m].in_use().len() ==> #[trigger] pools[m].in_use()[i] < n,
        forall|k: int|
            0 <= k < ops.len() && #[trigger] ops[k] is None ==> (results[k] is None <==> pools[k].in_use().len() == n),
        forall|k: int|
            0 <= k < ops.len() && (forall|j: int| 0 <= j <= k ==> #[trigger] ops[j] is None) ==> #[trigger] results[k]
                == if k < n { Some(k as nat) } else { None::<nat> },
{
    assert forall|m: int| 0 <= m < pools.len() implies #[trigger] pools[m].in_use().to_set() == held(
        ops.take(m),
        results.take(m),
    ) by {
        lemma_pool_prefix(pools, ops, results, n, m);
    }
    assert forall|m: int, i: int, j: int|
        0 <= m < pools.len() && 0 <= i < j < pools[m].in_use().len() implies #[trigger] pools[m].in_use()[i]
            < #[trigger] pools[m].in_use()[j] by {
        lemma_pool_prefix(pools, ops, results, n, m);
        pools[m].lemma_in_use_sorted();
    }
    assert forall|m: int, i: int| 0 <= m < pools.len() && 0 <= i < pools[m].in_use().len() implies #[trigger] pools[m].in_use()[i] < n by {
        lemma_pool_prefix(pools, ops, results, n, m);
        pools[m].lemma_in_use_sorted();
    }
    assert forall|k: int| 0 <= k < ops.len() && #[trigger] ops[k] is None implies (results[k] is None
        <==> pools[k].in_use().len() == n) by {
        lemma_pool_prefix(pools, ops, results, n, k);
        assert(pool_step(pools[k], pools[k + 1], ops[k], results[k]));
        pools[k].lemma_pool_count();
    }
    assert forall|k: int|
        0 <= k < ops.len() && (forall|j: int| 0 <= j <= k ==> #[trigger] ops[j] is None) implies #[trigger] results[k]
            == if k < n { Some(k as nat) } else { None::<nat> } by {
        lemma_fresh_gets(pools, ops, results, n, k + 1);
    }
}

/// What one call of `name_to_id` with `name` does to a mapping, answering
/// the id `r` (by its value).
pub open spec fn name_to_id_step<T: USizeWrapper>(
    before: UIDMapping<T>,
    after: UIDMapping<T>,
    name: Seq<char>,
    r: Option<nat>,
) -> bool {
    &&& after.wf()
    &&& after.pool().size() == before.pool().size()
    &&& (before.has_name(name) ==> r == Some(before.id_of(name)) && after.entries() == before.entries()
        && after.pool() == before.pool())
    &&& (!before.has_name(name) && before.pool().free().len() > 0 ==> r == Some(before.pool().free()[0])
        && after.entries() == before.entries().push((name, before.pool().free()[0]))
        && after.pool().free() == before.pool().free().drop_first())
    &&& (!before.has_name(name) && before.pool().free().len() == 0 ==> r is None && after.entries()
        == before.entries() && after.pool().free() == before.pool().free())
}

/// A name added last to a mapping whose names are distinct has the id it
/// was added with.
proof fn lemma_pushed_id<T: USizeWrapper>(m: UIDMapping<T>)
    requires
        m.wf(),
        m.entries().len() > 0,
    ensures
        m.has_name(m.entries().last().0),
        m.id_of(m.entries().last().0) == m.entries().last().1,
{
    let e = m.entries();
    let l = e.len() - 1;
    assert(e[l].0 == e.last().0);
    let c = choose|c: int| 0 <= c < e.len() && #[trigger] e[c].0 == e.last().0;
    if c < l {
        assert(e[c].0 != e[l].0);
    }
}

/// Up to call `m` of a history of `name_to_id` calls from an empty mapping
/// over `n` ids, every state is well formed over `n` ids and every name
/// that got an id still has it.
proof fn lemma_history_prefix<T: USizeWrapper>(
    maps: Seq<UIDMapping<T>>,
    asks: Seq<Seq<char>>,
    answers: Seq<Option<nat>>,
    n: nat,
    m: int,
)
    requires
        maps.len() == asks.len() + 1,
        answers.len() == asks.len(),
        maps[0].wf(),
        maps[0].pool().size() == n,
        forall|k: int| 0 <= k < asks.len() ==> #[trigger] name_to_id_step(maps[k], maps[k + 1], asks[k], answers[k]),
        0 <= m < maps.len(),
    ensures
        maps[m].wf(),
        maps[m].pool().size() == n,
        forall|j: int|
            0 <= j < m && #[trigger] answers[j] is Some ==> maps[m].has_name(asks[j]) && maps[m].id_of(asks[j])
                == answers[j]->0,
    decreases m,
{
    if m > 0 {
        let k = m - 1;
        lemma_history_prefix(maps, asks, answers, n, k);
        assert(name_to_id_step(maps[k], maps[k + 1], asks[k], answers[k]));
        let before = maps[k];
        let after = maps[m];
        assert forall|j: int| 0 <= j < m && #[trigger] answers[j] is Some implies after.has_name(asks[j])
            && after.id_of(asks[j]) == answers[j]->0 by {
            if j < k {
                if before.has_name(asks[k]) || before.pool().free().len() == 0 {
                    assert(after.entries() == before.entries());
                } else {
                    lemma_ids_are_stable(before, after, asks[j], (asks[k], before.pool().free()[0]));
                }
            } else {
                if before.has_name(asks[k]) {
                    assert(after.entries() == before.entries());
                } else if before.pool().free().len() > 0 {
                    lemma_pushed_id(after);
                    assert(after.entries().last() == (asks[k], before.pool().free()[0]));
                }
            }
        }
    }
}

/// Names keep their ids across any run of `name_to_id` calls on a new
/// mapping over `n` ids: asking a name again gives the id it got before,
/// different names never get the same id, a call answers `None` exactly
/// when its name is new and `n` names are already mapped (and then changes
/// nothing), and never more than `n` names are mapped.
pub proof fn lemma_name_history<T: USizeWrapper>(
    maps: Seq<UIDMapping<T>>,
    asks: Seq<Seq<char>>,
    answers: Seq<Option<nat>>,
    n: nat,
)
    requires
        maps.len() == asks.len() + 1,
        answers.len() == asks.len(),
        maps[0].wf(),
        maps[0].pool().size() == n,
        forall|k: int| 0 <= k < asks.len() ==> #[trigger] name_to_id_step(maps[k], maps[k + 1], asks[k], answers[k]),
    ensures
        forall|j: int, k: int|
            0 <= j < k < asks.len() && asks[j] == asks[k] && #[trigger] answers[j] is Some ==> #[trigger] answers[k]
                == answers[j],
        forall|j: int, k: int|
            0 <= j < asks.len() && 0 <= k < asks.len() && asks[j] != asks[k] && #[trigger] answers[j] is Some
                && #[trigger] answers[k] is Some ==> answers[j] != answers[k],
        forall|k: int|
            0 <= k < asks.len() ==> (#[trigger] answers[k] is None <==> (!maps[k].has_name(asks[k])
                && maps[k].entries().len() == n)),
        forall|k: int|
            0 <= k < asks.len() && #[trigger] answers[k] is None ==> maps[k + 1].entries() == maps[k].entries(),
        maps.last().entries().len() <= n,
{
    let last = asks.len() as int;
    lemma_history_prefix(maps, asks, answers, n, last);
    assert forall|j: int, k: int|
        0 <= j < k < asks.len() && asks[j] == asks[k] && #[trigger] answers[j] is Some implies #[trigger] answers[k]
            == answers[j] by {
        lemma_history_prefix(maps, asks, answers, n, k);
        assert(name_to_id_step(maps[k], maps[k + 1], asks[k], answers[k]));
    }
    assert forall|j: int, k: int|
        0 <= j < asks.len() && 0 <= k < asks.len() && asks[j] != asks[k] && #[trigger] answers[j] is Some
            && #[trigger] answers[k] is Some implies answers[j] != answers[k] by {
        lemma_names_have_distinct_ids(maps[last], asks[j], asks[k]);
    }
    assert forall|k: int| 0 <= k < asks.len() implies (#[trigger] answers[k] is None <==> (!maps[k].has_name(
        asks[k],
    ) && maps[k].entries().len() == n)) by {
        lemma_history_prefix(maps, asks, answers, n, k);
        assert(name_to_id_step(maps[k], maps[k + 1], asks[k], answers[k]));
        maps[k].lemma_mapping_full();
    }
    assert forall|k: int| 0 <= k < asks.len() && #[trigger] answers[k] is None implies maps[k + 1].entries()
        == maps[k].entries() by {
        lemma_history_prefix(maps, asks, answers, n, k);
        assert(name_to_id_step(maps[k], maps[k + 1], asks[k], answers[k]));
    }
    maps[last].pool.lemma_pool_count();
}

/// Different names never share an id.
pub proof fn lemma_names_have_distinct_ids<T: USizeWrapper>(m: UIDMapping<T>, a: Seq<char>, b: Seq<char>)
    requires
        m.wf(),
        m.has_name(a),
        m.has_name(b),
        a != b,
    ensures
        m.id_of(a) != m.id_of(b),
{
    let i = choose|i: int| 0 <= i < m.entries().len() && #[trigger] m.entries()[i].0 == a;
    let j = choose|j: int| 0 <= j < m.entries().len() && #[trigger] m.entries()[j].0 == b;
    if i < j {
        assert(m.entries()[i].1 != m.entries()[j].1);
    } else {
        assert(m.entries()[j].1 != m.entries()[i].1);
    }
}

/// A name keeps its id: once it has one, asking for any name leaves it
/// with the same id.
pub proof fn lemma_ids_are_stable<T: USizeWrapper>(before: UIDMapping<T>, after: UIDMapping<T>, a: Seq<char>, e: (Seq<char>, nat))
    requires
        before.wf(),
        before.has_name(a),
        after.entries() == before.entries() || after.entries() == before.entries().push(e),
        !before.has_name(e.0),
    ensures
        after.has_name(a),
        after.id_of(a) == before.id_of(a),
{
    let i = choose|i: int| 0 <= i < before.entries().len() && #[trigger] before.entries()[i].0 == a;
    assert(after.entries()[i].0 == a);
    let j = choose|j: int| 0 <= j < after.entries().len() && #[trigger] after.entries()[j].0 == a;
    if j != i {
        if j < before.entries().len() {
            if i < j {
                assert(before.entries()[i].0 != before.entries()[j].0);
            } else {
                assert(before.entries()[j].0 != before.entries()[i].0);
            }
        } else {
            assert(after.entries()[j] == e);
        }
    }
}

} // verus!
