//! A set of ids in an open-addressed table: an id is looked for from its
//! home slot, `id % len`, onward, and stored in the first free slot of that
//! run. The table grows to twice its size plus one when it is full.
use vstd::prelude::*;

verus! {

/// The first slot at or after `ix` where a probe for `id` stops: a free
/// slot or one that holds `id`; the table's length if there is none.
pub open spec fn probe_from(s: Seq<(bool, usize)>, id: usize, ix: int) -> int
    decreases s.len() - ix,
{
    if ix < 0 || ix >= s.len() {
        s.len() as int
    } else if !(s[ix].0 && s[ix].1 != id) {
        ix
    } else {
        probe_from(s, id, ix + 1)
    }
}

/// Adding `id` to the table `s`: the new table and whether a slot was
/// filled; `None` when the probe runs off the end of the table (or the
/// table is empty). A stop slot whose stored number already is `id` counts
/// as holding it, whether or not its flag is set.
pub open spec fn add_spec(s: Seq<(bool, usize)>, id: usize) -> Option<(Seq<(bool, usize)>, bool)> {
    if s.len() == 0 {
        None
    } else {
        let j = probe_from(s, id, (id % (s.len() as usize)) as int);
        if j >= s.len() {
            None
        } else if s[j].1 == id {
            Some((s, false))
        } else {
            Some((s.update(j, (true, id)), true))
        }
    }
}

/// A table of `n` free slots.
pub open spec fn empty_slots(n: nat) -> Seq<(bool, usize)> {
    Seq::new(n, |i: int| (false, 0usize))
}

/// The table `start` after adding, in order, the ids held by the first `n`
/// slots of `old`; `None` when one of those additions fails.
pub open spec fn readd(old: Seq<(bool, usize)>, n: int, start: Seq<(bool, usize)>) -> Option<
    Seq<(bool, usize)>,
>
    decreases n,
{
    if n <= 0 {
        Some(start)
    } else {
        match readd(old, n - 1, start) {
            None => None,
            Some(t) => if old[n - 1].0 {
                match add_spec(t, old[n - 1].1) {
                    None => None,
                    Some(p) => Some(p.0),
                }
            } else {
                Some(t)
            },
        }
    }
}

/// Inserting `id` into a set whose table is `s` and whose count is `num`:
/// the new table and count, `None` where an addition fails. A full count
/// first moves every held id into a table of `2 * len + 1` free slots.
pub open spec fn insert_spec(s: Seq<(bool, usize)>, num: nat, id: usize) -> Option<
    (Seq<(bool, usize)>, nat),
> {
    let base = if num == s.len() {
        readd(s, s.len() as int, empty_slots(2 * s.len() + 1))
    } else {
        Some(s)
    };
    match base {
        None => None,
        Some(t) => match add_spec(t, id) {
            None => None,
            Some(p) => Some((p.0, if p.1 {
                num + 1
            } else {
                num
            })),
        },
    }
}

/// A probe stops at or after where it starts, and inside the table when it
/// stops before its end.
proof fn lemma_probe_bounds(s: Seq<(bool, usize)>, id: usize, ix: int)
    requires
        0 <= ix <= s.len(),
    ensures
        ix <= probe_from(s, id, ix) <= s.len(),
    decreases s.len() - ix,
{
    if ix < s.len() && s[ix].0 && s[ix].1 != id {
        lemma_probe_bounds(s, id, ix + 1);
    }
}

/// Adding an id never disturbs a slot that holds one: it only fills a free
/// slot, and only when it reports that it did.
pub proof fn lemma_add_keeps_members(s: Seq<(bool, usize)>, id: usize)
    requires
        add_spec(s, id) is Some,
    ensures
        ({
            let (t, filled) = add_spec(s, id).unwrap();
            &&& t.len() == s.len()
            &&& forall|k: int| 0 <= k < s.len() && s[k].0 ==> t[k] == s[k]
            &&& filled ==> exists|k: int| 0 <= k < s.len() && !s[k].0 && t == s.update(k, (true, id))
            &&& !filled ==> t == s
        }),
{
    let j = probe_from(s, id, (id % (s.len() as usize)) as int);
    lemma_probe_bounds(s, id, (id % (s.len() as usize)) as int);
    lemma_probe_stops(s, id, (id % (s.len() as usize)) as int);
}

/// Where a probe stops inside the table, the slot is free or holds `id`.
proof fn lemma_probe_stops(s: Seq<(bool, usize)>, id: usize, ix: int)
    requires
        0 <= ix <= s.len(),
        probe_from(s, id, ix) < s.len(),
    ensures
        !(s[probe_from(s, id, ix)].0 && s[probe_from(s, id, ix)].1 != id),
    decreases s.len() - ix,
{
    if ix < s.len() && s[ix].0 && s[ix].1 != id {
        lemma_probe_stops(s, id, ix + 1);
    }
}

/// Adds `id` to the table, as `add_spec` says; true when a slot was filled.
fn add_to_vec_set(vec: &mut Vec<(bool, usize)>, id: usize) -> (r: bool)
    requires
        add_spec(old(vec)@, id) is Some,
    ensures
        add_spec(old(vec)@, id) == Some((final(vec)@, r)),
{
    let len = vec.len();
    let start = id % len;
    let mut ix = start;
    proof {
        lemma_probe_bounds(vec@, id, start as int);
    }
    while vec[ix].0 && vec[ix].1 != id
        invariant
            len == vec@.len(),
            start == id % len,
            start <= ix < len,
            probe_from(vec@, id, ix as int) == probe_from(vec@, id, start as int),
            probe_from(vec@, id, start as int) < len,
        decreases len - ix,
    {
        proof {
            lemma_probe_bounds(vec@, id, ix as int + 1);
        }
        ix = ix + 1;
    }
    if vec[ix].1 == id {
        false
    } else {
        vec.set(ix, (true, id));
        true
    }
}

/// A set of ids.
#[derive(Clone)]
pub struct VisSet {
    vec: Vec<(bool, usize)>,
    num: usize,
}

impl VisSet {
    /// The table of slots; a slot `(true, id)` holds `id`.
    pub closed spec fn slots(&self) -> Seq<(bool, usize)> {
        self.vec@
    }

    /// How many slots have been filled since the set was made.
    pub closed spec fn count(&self) -> nat {
        self.num as nat
    }

    /// The count never passes the number of slots.
    pub closed spec fn wf(&self) -> bool {
        self.num <= self.vec@.len()
    }

    /// An empty set with `size` free slots.
    pub fn with_capacity(size: usize) -> (r: VisSet)
        ensures
            r.wf(),
            r.slots() == empty_slots(size as nat),
            r.count() == 0,
    {
        let mut vec: Vec<(bool, usize)> = Vec::with_capacity(size);
        let mut i: usize = 0;
        while i < size
            invariant
                i <= size,
                vec@ == empty_slots(i as nat),
            decreases size - i,
        {
            vec.push((false, 0));
            i = i + 1;
        }
        VisSet { vec, num: 0 }
    }

    /// Inserts `id`, first growing a full table to twice its size plus one
    /// and moving every held id into it.
    pub fn insert(&mut self, id: usize)
        requires
            old(self).wf(),
            old(self).count() == old(self).slots().len() ==> 2 * old(self).slots().len() + 1
                <= usize::MAX,
            insert_spec(old(self).slots(), old(self).count(), id) is Some,
        ensures
            final(self).wf(),
            (final(self).slots(), final(self).count()) == insert_spec(
                old(self).slots(),
                old(self).count(),
                id,
            ).unwrap(),
    {
        if self.num == self.vec.len() {
            let len = self.vec.len();
            let new_len = len * 2 + 1;
            let mut vec2: Vec<(bool, usize)> = Vec::with_capacity(new_len);
            let mut k: usize = 0;
            while k < new_len
                invariant
                    k <= new_len,
                    vec2@ == empty_slots(k as nat),
                decreases new_len - k,
            {
                vec2.push((false, 0));
                k = k + 1;
            }
            let ghost start = vec2@;
            let mut i: usize = 0;
            while i < len
                invariant
                    len == self.vec@.len(),
                    self.num == len,
                    i <= len,
                    start == empty_slots((2 * len + 1) as nat),
                    readd(self.vec@, len as int, start) is Some,
                    readd(self.vec@, i as int, start) == Some(vec2@),
                decreases len - i,
            {
                proof {
                    lemma_readd_prefix(self.vec@, i as int + 1, len as int, start);
                }
                let (b, v) = self.vec[i];
                if b {
                    add_to_vec_set(&mut vec2, v);
                }
                i = i + 1;
            }
            proof {
                lemma_readd_len(self.vec@, len as int, start);
                lemma_add_keeps_members(vec2@, id);
            }
            if add_to_vec_set(&mut vec2, id) {
                self.num = self.num + 1;
            }
            self.vec = vec2;
        } else {
            proof {
                lemma_add_keeps_members(self.vec@, id);
            }
            if add_to_vec_set(&mut self.vec, id) {
                self.num = self.num + 1;
            }
        }
    }

    /// The table of slots.
    pub fn inner_vec(&mut self) -> (r: &Vec<(bool, usize)>)
        ensures
            *final(self) == *old(self),
            r@ == old(self).slots(),
    {
        &self.vec
    }

    /// Frees every slot; the count stays as it was.
    pub fn clear(&mut self)
        requires
            old(self).wf(),
        ensures
            final(self).wf(),
            final(self).slots() == empty_slots(old(self).slots().len()),
            final(self).count() == old(self).count(),
    {
        let len = self.vec.len();
        let mut i: usize = 0;
        while i < len
            invariant
                len == self.vec@.len(),
                i <= len,
                self.num <= len,
                self.num == old(self).num,
                forall|k: int| 0 <= k < i ==> self.vec@[k] == (false, 0usize),
            decreases len - i,
        {
            self.vec.set(i, (false, 0));
            i = i + 1;
        }
        assert(self.vec@ == empty_slots(len as nat));
    }
}

/// Re-adding ids keeps the size of the table.
proof fn lemma_readd_len(old: Seq<(bool, usize)>, n: int, start: Seq<(bool, usize)>)
    requires
        readd(old, n, start) is Some,
    ensures
        readd(old, n, start).unwrap().len() == start.len(),
    decreases n,
{
    if n > 0 {
        lemma_readd_len(old, n - 1, start);
        let t = readd(old, n - 1, start).unwrap();
        if old[n - 1].0 {
            lemma_add_keeps_members(t, old[n - 1].1);
        }
    }
}

/// When re-adding the first `m` slots succeeds, so does re-adding any
/// shorter prefix of them.
proof fn lemma_readd_prefix(old: Seq<(bool, usize)>, n: int, m: int, start: Seq<(bool, usize)>)
    requires
        0 <= n <= m,
        readd(old, m, start) is Some,
    ensures
        readd(old, n, start) is Some,
    decreases m - n,
{
    if n < m {
        lemma_readd_prefix(old, n + 1, m, start);
    }
}

} // verus!
