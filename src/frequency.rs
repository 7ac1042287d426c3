//! Counting, for each value a tree can end in, the paths that reach it.
use crate::rational::Rational;
use crate::tree::{faithful, leaf_count, leaves_upto, sized, UnidirectionalNode};
use vstd::prelude::*;

verus! {

/// How many root-to-leaf paths end in each value. Keys are pairwise
/// different values.
pub struct FrequencyCounter {
    pub map: Vec<(Rational, u64)>,
}

/// The count that `s` holds for the value `x`.
pub open spec fn count_in(s: Seq<(Rational, u64)>, x: Rational) -> nat
    decreases s.len(),
{
    if s.len() == 0 {
        0
    } else {
        count_in(s.drop_last(), x) + if s.last().0.same(x) { s.last().1 as nat } else { 0 }
    }
}

/// The sum of all counts of `s`.
pub open spec fn total(s: Seq<(Rational, u64)>) -> nat
    decreases s.len(),
{
    if s.len() == 0 {
        0
    } else {
        total(s.drop_last()) + s.last().1 as nat
    }
}

/// Keys are well formed and stand for pairwise different values; every count
/// is positive.
pub open spec fn keys_distinct(s: Seq<(Rational, u64)>) -> bool {
    &&& forall|i: int| 0 <= i < s.len() ==> (#[trigger] s[i]).0.wf() && s[i].1 > 0
    &&& forall|i: int, j: int| 0 <= i < j < s.len() ==> !(#[trigger] s[i]).0.same(#[trigger] s[j].0)
}

/// Paths from the node's children down to a leaf holding `x`.
pub open spec fn paths_to(node: UnidirectionalNode, x: Rational) -> nat
    decreases node, node.kids().len() + 1,
{
    paths_to_upto(node, x, node.kids().len() as int)
}

/// Paths to `x` through the first `k` children of `node`; a child without
/// children counts once when it holds `x`.
pub open spec fn paths_to_upto(node: UnidirectionalNode, x: Rational, k: int) -> nat
    decreases node, k,
{
    if k <= 0 || k > node.kids().len() {
        0
    } else {
        let c = node.kids()[k - 1];
        paths_to_upto(node, x, k - 1) + if c.kids().len() == 0 {
            if c.values().len() > 0 && c.values()[0].same(x) { 1nat } else { 0nat }
        } else {
            paths_to(c, x)
        }
    }
}

/// All paths from the node's children down to a leaf.
pub open spec fn paths_total(node: UnidirectionalNode) -> nat
    decreases node, node.kids().len() + 1,
{
    paths_total_upto(node, node.kids().len() as int)
}

pub open spec fn paths_total_upto(node: UnidirectionalNode, k: int) -> nat
    decreases node, k,
{
    if k <= 0 || k > node.kids().len() {
        0
    } else {
        let c = node.kids()[k - 1];
        paths_total_upto(node, k - 1) + if c.kids().len() == 0 { 1nat } else { paths_total(c) }
    }
}

pub proof fn lemma_same_trans(a: Rational, b: Rational, c: Rational)
    requires
        a.wf(),
        b.wf(),
        c.wf(),
        a.same(b),
    ensures
        b.same(c) <==> a.same(c),
        b.same(a),
{
    let (an, ad, bn, bd, cn, cd) = (a.num_int(), a.den as int, b.num_int(), b.den as int, c.num_int(), c.den as int);
    assert(an * bd == bn * ad);
    assert((bn * cd == cn * bd) <==> (an * cd == cn * ad)) by (nonlinear_arith)
        requires an * bd == bn * ad, ad > 0, bd > 0, cd > 0;
}

proof fn lemma_count_update(s: Seq<(Rational, u64)>, i: int, c: u64, x: Rational)
    requires
        0 <= i < s.len(),
    ensures
        count_in(s.update(i, (s[i].0, c)), x) + (if s[i].0.same(x) { s[i].1 as int } else { 0 })
            == count_in(s, x) + (if s[i].0.same(x) { c as int } else { 0 }),
        total(s.update(i, (s[i].0, c))) + s[i].1 == total(s) + c,
    decreases s.len(),
{
    let u = s.update(i, (s[i].0, c));
    if i < s.len() - 1 {
        assert(u.drop_last() =~= s.drop_last().update(i, (s[i].0, c)));
        lemma_count_update(s.drop_last(), i, c, x);
    } else {
        assert(u.drop_last() =~= s.drop_last());
    }
}

proof fn lemma_count_absent(s: Seq<(Rational, u64)>, x: Rational)
    requires
        forall|i: int| 0 <= i < s.len() ==> !(#[trigger] s[i]).0.same(x),
    ensures
        count_in(s, x) == 0,
    decreases s.len(),
{
    if s.len() > 0 {
        lemma_count_absent(s.drop_last(), x);
    }
}

impl FrequencyCounter {
    pub open spec fn wf(&self) -> bool {
        keys_distinct(self.map@)
    }

    pub fn new() -> (r: FrequencyCounter)
        ensures
            r.wf(),
            r.map@.len() == 0,
    {
        FrequencyCounter { map: Vec::new() }
    }

    /// Position of the key that stands for `x`.
    fn find(&self, x: &Rational) -> (r: Option<usize>)
        requires
            self.wf(),
            x.wf(),
        ensures
            r matches Some(i) ==> i < self.map@.len() && self.map@[i as int].0.same(*x),
            r is None ==> forall|i: int| 0 <= i < self.map@.len() ==> !(#[trigger] self.map@[i]).0.same(*x),
    {
        let mut i: usize = 0;
        while i < self.map.len()
            invariant
                self.wf(),
                x.wf(),
                i <= self.map@.len(),
                forall|k: int| 0 <= k < i ==> !(#[trigger] self.map@[k]).0.same(*x),
            decreases self.map@.len() - i,
        {
            if self.map[i].0.same_value(x) {
                return Some(i);
            }
            i += 1;
        }
        None
    }

    /// Adds `n` to the count of `x`.
    pub fn add_count(&mut self, x: Rational, n: u64)
        requires
            old(self).wf(),
            x.wf(),
            n > 0,
            total(old(self).map@) + n <= u64::MAX,
        ensures
            final(self).wf(),
            total(final(self).map@) == total(old(self).map@) + n,
            forall|y: Rational| y.wf() ==> #[trigger] count_in(final(self).map@, y) == count_in(old(self).map@, y)
                + if x.same(y) { n as nat } else { 0 },
    {
        let ghost s = self.map@;
        match self.find(&x) {
            Some(i) => {
                proof {
                    lemma_count_le_total(s, i as int);
                }
                let c = self.map[i].1 + n;
                let k = self.map[i].0;
                self.map.set(i, (k, c));
                proof {
                    assert(self.map@ == s.update(i as int, (s[i as int].0, c)));
                    assert forall|y: Rational| y.wf() implies #[trigger] count_in(self.map@, y) == count_in(s, y)
                        + if x.same(y) { n as nat } else { 0 } by {
                        lemma_count_update(s, i as int, c, y);
                        lemma_same_trans(k, x, y);
                    }
                    lemma_count_update(s, i as int, c, x);
                    assert forall|a: int, b: int| 0 <= a < b < self.map@.len()
                        implies !(#[trigger] self.map@[a]).0.same(#[trigger] self.map@[b].0) by {
                        assert(s[a].0.same(s[b].0) == self.map@[a].0.same(self.map@[b].0));
                    }
                    assert forall|a: int| 0 <= a < self.map@.len() implies (#[trigger] self.map@[a]).0.wf() && self.map@[a].1 > 0 by {
                        if a != i {
                            assert(self.map@[a] == s[a]);
                        }
                    }
                }
            },
            None => {
                self.map.push((x, n));
                proof {
                    assert(self.map@.drop_last() == s);
                    assert forall|y: Rational| y.wf() implies #[trigger] count_in(self.map@, y) == count_in(s, y)
                        + if x.same(y) { n as nat } else { 0 } by {
                    }
                    assert forall|a: int, b: int| 0 <= a < b < self.map@.len()
                        implies !(#[trigger] self.map@[a]).0.same(#[trigger] self.map@[b].0) by {
                        if b == s.len() {
                            if s[a].0.same(x) {
                                lemma_same_trans(s[a].0, x, x);
                            }
                        } else {
                            assert(s[a] == self.map@[a] && s[b] == self.map@[b]);
                        }
                    }
                    assert forall|a: int| 0 <= a < self.map@.len() implies (#[trigger] self.map@[a]).0.wf() && self.map@[a].1 > 0 by {
                        if a < s.len() {
                            assert(self.map@[a] == s[a]);
                        }
                    }
                }
            },
        }
    }

    /// Merges `other` into `self`, summing the counts of equal values.
    pub fn add(self, other: FrequencyCounter) -> (r: FrequencyCounter)
        requires
            self.wf(),
            other.wf(),
            total(self.map@) + total(other.map@) <= u64::MAX,
        ensures
            r.wf(),
            total(r.map@) == total(self.map@) + total(other.map@),
            forall|y: Rational| y.wf() ==> #[trigger] count_in(r.map@, y) == count_in(self.map@, y)
                + count_in(other.map@, y),
    {
        let mut acc = self;
        let ghost a0 = acc.map@;
        let mut i: usize = 0;
        while i < other.map.len()
            invariant
                acc.wf(),
                other.wf(),
                i <= other.map@.len(),
                total(a0) + total(other.map@) <= u64::MAX,
                total(acc.map@) == total(a0) + total(other.map@.subrange(0, i as int)),
                forall|y: Rational| y.wf() ==> #[trigger] count_in(acc.map@, y) == count_in(a0, y)
                    + count_in(other.map@.subrange(0, i as int), y),
            decreases other.map@.len() - i,
        {
            let (k, c) = other.map[i];
            proof {
                assert(other.map@[i as int].1 > 0);
                let p = other.map@.subrange(0, i as int + 1);
                assert(p.drop_last() =~= other.map@.subrange(0, i as int));
                lemma_total_prefix(other.map@, i as int + 1);
            }
            acc.add_count(k, c);
            i += 1;
        }
        assert(other.map@.subrange(0, other.map@.len() as int) =~= other.map@);
        acc
    }
}

proof fn lemma_count_le_total(s: Seq<(Rational, u64)>, i: int)
    requires
        0 <= i < s.len(),
    ensures
        s[i].1 <= total(s),
    decreases s.len(),
{
    if i < s.len() - 1 {
        lemma_count_le_total(s.drop_last(), i);
    }
}

proof fn lemma_total_prefix(s: Seq<(Rational, u64)>, k: int)
    requires
        0 <= k <= s.len(),
    ensures
        total(s.subrange(0, k)) <= total(s),
    decreases s.len() - k,
{
    if k < s.len() {
        lemma_total_prefix(s, k + 1);
        assert(s.subrange(0, k + 1).drop_last() =~= s.subrange(0, k));
    } else {
        assert(s.subrange(0, k) =~= s);
    }
}

proof fn lemma_leaves_upto_mono(node: UnidirectionalNode, k: int)
    requires
        0 <= k <= node.kids().len(),
    ensures
        leaves_upto(node, k) <= leaves_upto(node, node.kids().len() as int),
    decreases node.kids().len() - k,
{
    if k < node.kids().len() {
        lemma_leaves_upto_mono(node, k + 1);
    }
}

proof fn lemma_paths_total_upto(node: UnidirectionalNode, k: int)
    requires
        0 <= k <= node.kids().len(),
    ensures
        paths_total_upto(node, k) == leaves_upto(node, k),
    decreases node, k,
{
    if k > 0 {
        lemma_paths_total_upto(node, k - 1);
        let c = node.kids()[k - 1];
        if c.kids().len() > 0 {
            lemma_paths_total_is_leaf_count(c);
        } else {
            assert(leaf_count(c) == 1);
        }
        assert(leaves_upto(node, k) == leaves_upto(node, k - 1) + leaf_count(c));
        assert(paths_total_upto(node, k) == paths_total_upto(node, k - 1)
            + if c.kids().len() == 0 { 1nat } else { paths_total(c) });
    }
}

/// Every path counted by the path-frequency counter ends in a distinct leaf
/// and every leaf is reached: for a node with children, the paths from its
/// children down number exactly its leaves. (A root without children, such as
/// a single value, is itself a leaf that no path below it reaches.)
pub proof fn lemma_paths_total_is_leaf_count(node: UnidirectionalNode)
    requires
        node.kids().len() > 0,
    ensures
        paths_total(node) == leaf_count(node),
    decreases node, node.kids().len() + 1,
{
    lemma_paths_total_upto(node, node.kids().len() as int);
}

/// The counter of root-to-leaf paths of the tree at `node`, by the value each
/// path ends in. A child without children is a leaf and counts once for its
/// single value; the counts of deeper subtrees are merged in.
pub fn count_leaf_instances_of(node: &UnidirectionalNode) -> (r: FrequencyCounter)
    requires
        sized(*node, node.values().len()),
        faithful(*node),
        leaf_count(*node) <= u64::MAX,
    ensures
        r.wf(),
        total(r.map@) == paths_total(*node),
        node.kids().len() > 0 ==> total(r.map@) == leaf_count(*node),
        forall|y: Rational| y.wf() ==> #[trigger] count_in(r.map@, y) == paths_to(*node, y),
    decreases *node,
{
    let ghost m = node.values().len();
    let mut map = FrequencyCounter::new();
    let n = node.children.len();
    proof {
        if n > 0 {
            lemma_paths_total_upto(*node, n as int);
        }
    }
    let mut i: usize = 0;
    while i < n
        invariant
            n == node.kids().len(),
            i <= n,
            sized(*node, m),
            m == node.values().len(),
            faithful(*node),
            n > 0 ==> leaf_count(*node) == leaves_upto(*node, n as int),
            leaf_count(*node) <= u64::MAX,
            map.wf(),
            total(map.map@) == paths_total_upto(*node, i as int),
            paths_total_upto(*node, i as int) == leaves_upto(*node, i as int),
            forall|y: Rational| y.wf() ==> #[trigger] count_in(map.map@, y) == paths_to_upto(*node, y, i as int),
        decreases n - i,
    {
        let c = &node.children[i];
        proof {
            assert(*c == node.kids()[i as int]);
            assert(faithful(*c));
            assert(sized(*c, (m - 1) as nat));
            lemma_leaves_upto_mono(*node, i as int + 1);
            lemma_paths_total_upto(*node, i as int + 1);
        }
        if c.children.len() == 0 {
            let x = c.data.input_vector[0];
            proof {
                assert(c.values()[0] == x);
            }
            map.add_count(x, 1);
        } else {
            proof {
                lemma_paths_total_is_leaf_count(*c);
            }
            let other = count_leaf_instances_of(c);
            map = map.add(other);
        }
        i += 1;
    }
    proof {
        if n > 0 {
            lemma_paths_total_is_leaf_count(*node);
        }
    }
    map
}

/// The count held for the key at `k` is that key's count.
pub proof fn lemma_count_at_key(s: Seq<(Rational, u64)>, k: int)
    requires
        keys_distinct(s),
        0 <= k < s.len(),
    ensures
        count_in(s, s[k].0) == s[k].1,
    decreases s.len(),
{
    let last = s.len() - 1;
    assert(keys_distinct(s.drop_last()));
    if k == last {
        assert forall|i: int| 0 <= i < s.drop_last().len() implies !(#[trigger] s.drop_last()[i]).0.same(s[k].0) by {
            assert(s.drop_last()[i] == s[i]);
        }
        lemma_count_absent(s.drop_last(), s[k].0);
    } else {
        assert(s.drop_last()[k] == s[k]);
        lemma_count_at_key(s.drop_last(), k);
        if s[last].0.same(s[k].0) {
            lemma_same_trans(s[last].0, s[k].0, s[k].0);
        }
    }
}

/// A value with a positive count has a key that stands for it.
pub proof fn lemma_count_has_key(s: Seq<(Rational, u64)>, y: Rational)
    requires
        count_in(s, y) > 0,
    ensures
        exists|i: int| 0 <= i < s.len() && (#[trigger] s[i]).0.same(y),
    decreases s.len(),
{
    if !s.last().0.same(y) {
        lemma_count_has_key(s.drop_last(), y);
        let i = choose|i: int| 0 <= i < s.drop_last().len() && (#[trigger] s.drop_last()[i]).0.same(y);
        assert(s[i] == s.drop_last()[i]);
    } else {
        assert(s[s.len() - 1].0.same(y));
    }
}

proof fn lemma_paths_to_same_upto(node: UnidirectionalNode, y1: Rational, y2: Rational, k: int)
    requires
        faithful(node),
        y1.wf(),
        y2.wf(),
        y1.same(y2),
        0 <= k <= node.kids().len(),
    ensures
        paths_to_upto(node, y1, k) == paths_to_upto(node, y2, k),
    decreases node, k,
{
    if k > 0 {
        lemma_paths_to_same_upto(node, y1, y2, k - 1);
        let c = node.kids()[k - 1];
        assert(faithful(c));
        if c.kids().len() == 0 {
            if c.values().len() > 0 {
                assert(c.values()[0].wf());
                lemma_same_trans(y1, y2, c.values()[0]);
            }
        } else {
            lemma_paths_to_same(c, y1, y2);
        }
    }
}

/// Paths count values, not their representations.
pub proof fn lemma_paths_to_same(node: UnidirectionalNode, y1: Rational, y2: Rational)
    requires
        faithful(node),
        y1.wf(),
        y2.wf(),
        y1.same(y2),
    ensures
        paths_to(node, y1) == paths_to(node, y2),
    decreases node, node.kids().len() + 1,
{
    lemma_paths_to_same_upto(node, y1, y2, node.kids().len() as int);
}

} // verus!
