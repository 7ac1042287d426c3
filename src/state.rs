//! The game's objects and the order in which they are drawn.
use vstd::prelude::*;
use vstd::seq_lib::{to_multiset_contains, to_multiset_insert};

verus! {

/// Something that takes part in each frame and is drawn at a depth.
pub trait GameObject {
    fn get_depth(&self) -> i32;
}

/// The list of the game state that an object belongs to.
#[derive(Clone, Copy, Debug, PartialEq, Eq, Structural)]
pub enum ObjectGroup {
    Controllable,
    General,
}

/// Draw the object at `index` of `group`, whose depth is `depth`.
#[derive(Clone, Copy, Debug, PartialEq, Eq, Structural)]
pub struct RenderInstruction {
    pub group: ObjectGroup,
    pub index: usize,
    pub depth: i32,
}

/// The objects of the game: those that take input, and the others.
pub struct GameState<O, C> {
    pub objects: Vec<O>,
    pub controllables: Vec<C>,
}

pub open spec fn sorted_by_depth(s: Seq<RenderInstruction>) -> bool {
    forall|a: int, b: int| 0 <= a < b < s.len() ==> (#[trigger] s[a]).depth <= (#[trigger] s[b]).depth
}

/// `x` comes before `y` in the order objects are listed: general objects
/// first, then controllable ones, each by position.
pub open spec fn listed_before(x: RenderInstruction, y: RenderInstruction) -> bool {
    ||| (x.group == ObjectGroup::General && y.group == ObjectGroup::Controllable)
    ||| (x.group == y.group && x.index < y.index)
}

/// Instructions of equal depth keep the order in which objects are listed.
pub open spec fn stable(s: Seq<RenderInstruction>) -> bool {
    forall|a: int, b: int| 0 <= a < b < s.len() && (#[trigger] s[a]).depth == (#[trigger] s[b]).depth
        ==> listed_before(s[a], s[b])
}

/// Some instruction draws the object at `index` of `group`.
pub open spec fn draws(s: Seq<RenderInstruction>, group: ObjectGroup, index: usize) -> bool {
    exists|p: int| 0 <= p < s.len() && (#[trigger] s[p]).group == group && s[p].index == index
}

/// Inserts `x` after every instruction of depth at most its own.
fn insert_by_depth(out: &mut Vec<RenderInstruction>, x: RenderInstruction)
    requires
        sorted_by_depth(old(out)@),
        stable(old(out)@),
        forall|a: int| 0 <= a < old(out)@.len() ==> listed_before(#[trigger] old(out)@[a], x),
    ensures
        sorted_by_depth(final(out)@),
        stable(final(out)@),
        final(out)@.to_multiset() == old(out)@.to_multiset().insert(x),
{
    let mut p: usize = 0;
    while p < out.len() && out[p].depth <= x.depth
        invariant
            p <= out@.len(),
            forall|a: int| 0 <= a < p ==> (#[trigger] out@[a]).depth <= x.depth,
        decreases out@.len() - p,
    {
        p += 1;
    }
    let ghost before = out@;
    out.insert(p, x);
    proof {
        to_multiset_insert(before, p as int, x);
        assert forall|a: int, b: int| 0 <= a < b < out@.len() implies (#[trigger] out@[a]).depth <= (#[trigger] out@[b]).depth by {
            if b < p {
                assert(out@[a] == before[a] && out@[b] == before[b]);
            } else if b == p {
                assert(out@[a] == before[a]);
            } else if a < p {
                assert(out@[a] == before[a] && out@[b] == before[b - 1]);
                assert(before[b - 1].depth > x.depth || b - 1 < p);
            } else if a == p {
                assert(out@[b] == before[b - 1]);
            } else {
                assert(out@[a] == before[a - 1] && out@[b] == before[b - 1]);
            }
        }
        assert forall|a: int, b: int| 0 <= a < b < out@.len() && (#[trigger] out@[a]).depth == (#[trigger] out@[b]).depth
            implies listed_before(out@[a], out@[b]) by {
            if b < p {
                assert(out@[a] == before[a] && out@[b] == before[b]);
            } else if b == p {
                assert(out@[a] == before[a]);
            } else if a < p {
                assert(out@[a] == before[a] && out@[b] == before[b - 1]);
            } else if a == p {
                assert(out@[b] == before[b - 1]);
            } else {
                assert(out@[a] == before[a - 1] && out@[b] == before[b - 1]);
            }
        }
    }
}

impl<O: GameObject, C: GameObject> GameState<O, C> {
    pub fn new() -> (r: GameState<O, C>)
        ensures
            r.objects@.len() == 0,
            r.controllables@.len() == 0,
    {
        GameState { objects: Vec::new(), controllables: Vec::new() }
    }

    /// One instruction per object, ordered by depth; objects of equal depth
    /// keep their order, general objects before controllable ones.
    pub fn collect_render_instructions(&self) -> (r: Vec<RenderInstruction>)
        ensures
            r@.len() == self.objects@.len() + self.controllables@.len(),
            sorted_by_depth(r@),
            stable(r@),
            forall|i: usize| i < self.objects@.len() ==> #[trigger] draws(r@, ObjectGroup::General, i),
            forall|i: usize| i < self.controllables@.len() ==> #[trigger] draws(r@, ObjectGroup::Controllable, i),
            forall|p: int| 0 <= p < r@.len() ==> (#[trigger] r@[p]).group == ObjectGroup::General
                ==> r@[p].index < self.objects@.len(),
            forall|p: int| 0 <= p < r@.len() ==> (#[trigger] r@[p]).group == ObjectGroup::Controllable
                ==> r@[p].index < self.controllables@.len(),
    {
        let mut instructions: Vec<RenderInstruction> = Vec::new();
        let mut i: usize = 0;
        while i < self.objects.len()
            invariant
                i <= self.objects@.len(),
                instructions@.len() == i,
                forall|k: int| 0 <= k < i ==> (#[trigger] instructions@[k]).group == ObjectGroup::General
                    && instructions@[k].index == k,
            decreases self.objects@.len() - i,
        {
            let o = &self.objects[i];
            instructions.push(RenderInstruction { group: ObjectGroup::General, index: i, depth: o.get_depth() });
            i += 1;
        }
        let n = self.objects.len();
        let mut i: usize = 0;
        while i < self.controllables.len()
            invariant
                n == self.objects@.len(),
                i <= self.controllables@.len(),
                instructions@.len() == n + i,
                forall|k: int| 0 <= k < n ==> (#[trigger] instructions@[k]).group == ObjectGroup::General
                    && instructions@[k].index == k,
                forall|k: int| n <= k < n + i ==> (#[trigger] instructions@[k]).group == ObjectGroup::Controllable
                    && instructions@[k].index == k - n,
            decreases self.controllables@.len() - i,
        {
            let o = &self.controllables[i];
            instructions.push(RenderInstruction { group: ObjectGroup::Controllable, index: i, depth: o.get_depth() });
            i += 1;
        }
        let mut sorted: Vec<RenderInstruction> = Vec::new();
        assert(sorted@ =~= instructions@.subrange(0, 0));
        let mut k: usize = 0;
        while k < instructions.len()
            invariant
                k <= instructions@.len(),
                sorted_by_depth(sorted@),
                stable(sorted@),
                n == self.objects@.len(),
                instructions@.len() == n + self.controllables@.len(),
                forall|t: int| 0 <= t < n ==> (#[trigger] instructions@[t]).group == ObjectGroup::General
                    && instructions@[t].index == t,
                forall|t: int| n <= t < instructions@.len() ==> (#[trigger] instructions@[t]).group == ObjectGroup::Controllable
                    && instructions@[t].index == t - n,
                sorted@.to_multiset() == instructions@.subrange(0, k as int).to_multiset(),
            decreases instructions@.len() - k,
        {
            proof {
                let pre = instructions@.subrange(0, k as int);
                assert forall|a: int| 0 <= a < sorted@.len() implies listed_before(#[trigger] sorted@[a], instructions@[k as int]) by {
                    to_multiset_contains(sorted@, sorted@[a]);
                    to_multiset_contains(pre, sorted@[a]);
                    let t = choose|t: int| 0 <= t < pre.len() && pre[t] == sorted@[a];
                    assert(pre[t] == instructions@[t]);
                }
            }
            insert_by_depth(&mut sorted, instructions[k]);
            proof {
                let s = instructions@.subrange(0, k as int + 1);
                assert(s =~= instructions@.subrange(0, k as int).push(instructions@[k as int]));
                to_multiset_insert(instructions@.subrange(0, k as int), k as int, instructions@[k as int]);
                assert(instructions@.subrange(0, k as int).insert(k as int, instructions@[k as int]) =~= s);
            }
            k += 1;
        }
        proof {
            let all = instructions@;
            assert(all.subrange(0, all.len() as int) =~= all);
            assert(sorted@.len() == all.len()) by {
                vstd::seq_lib::to_multiset_len(sorted@);
                vstd::seq_lib::to_multiset_len(all);
            }
            assert forall|i: usize| i < self.objects@.len() implies #[trigger] draws(sorted@, ObjectGroup::General, i) by {
                to_multiset_contains(all, all[i as int]);
                to_multiset_contains(sorted@, all[i as int]);
            }
            assert forall|i: usize| i < self.controllables@.len() implies #[trigger] draws(sorted@, ObjectGroup::Controllable, i) by {
                to_multiset_contains(all, all[n + i]);
                to_multiset_contains(sorted@, all[n + i]);
            }
            assert forall|p: int| 0 <= p < sorted@.len() implies ((#[trigger] sorted@[p]).group == ObjectGroup::General
                ==> sorted@[p].index < self.objects@.len()) && (sorted@[p].group == ObjectGroup::Controllable
                ==> sorted@[p].index < self.controllables@.len()) by {
                to_multiset_contains(sorted@, sorted@[p]);
                to_multiset_contains(all, sorted@[p]);
            }
        }
        sorted
    }

    /// Adds a general object; it is drawn and updated from now on.
    pub fn add_object(&mut self, obj: O) -> (r: usize)
        ensures
            final(self).objects@ == old(self).objects@.push(obj),
            final(self).controllables@ == old(self).controllables@,
            r == old(self).objects@.len(),
    {
        let idx = self.objects.len();
        self.objects.push(obj);
        idx
    }

    /// Removes the general object at `index`, if there is one.
    pub fn remove_object(&mut self, index: usize)
        ensures
            final(self).objects@ == if index < old(self).objects@.len() { old(self).objects@.remove(index as int) } else { old(self).objects@ },
            final(self).controllables@ == old(self).controllables@,
    {
        if index < self.objects.len() {
            self.objects.remove(index);
        }
    }

    /// Adds an object that takes input.
    pub fn add_controllable(&mut self, obj: C) -> (r: usize)
        ensures
            final(self).controllables@ == old(self).controllables@.push(obj),
            final(self).objects@ == old(self).objects@,
            r == old(self).controllables@.len(),
    {
        let idx = self.controllables.len();
        self.controllables.push(obj);
        idx
    }

    /// Removes the object that takes input at `index`, if there is one.
    pub fn remove_controllable(&mut self, index: usize)
        ensures
            final(self).controllables@ == if index < old(self).controllables@.len() { old(self).controllables@.remove(index as int) } else { old(self).controllables@ },
            final(self).objects@ == old(self).objects@,
    {
        if index < self.controllables.len() {
            self.controllables.remove(index);
        }
    }
}

} // verus!
