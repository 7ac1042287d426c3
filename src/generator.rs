//! The whole offline pipeline: every multiset drawn from a range of whole
//! numbers, its possibility tree, and the pools that the trees fill.
use crate::pools::{files_once, populated, filed_upto, occ, rank_all_inputs, rankable, InputDifficulty, PoolMap};
use crate::rational::{OpType, Rational};
use crate::tree::{generate_tree_for_input, leaf_bound, whole_values, UnidirectionalNode, MAX_TREE_INPUT};
use itertools::Itertools;
use vstd::prelude::*;

verus! {

/// `s` is a multiset of `k` numbers from `min..max`, written in order.
pub open spec fn is_combination(s: Seq<i32>, min: i32, max: i32, k: usize) -> bool {
    &&& s.len() == k
    &&& forall|a: int| 0 <= a < s.len() ==> min <= #[trigger] s[a] < max
    &&& forall|a: int, b: int| 0 <= a <= b < s.len() ==> #[trigger] s[a] <= #[trigger] s[b]
}

/// Relies on itertools' `combinations_with_replacement` over the range
/// `min_val..max_val`: every multiset of `k` of its numbers, once each, in
/// order of the range.
#[verifier::external_body]
fn combinations_in_range(min_val: i32, max_val: i32, k: usize) -> (r: Vec<Vec<i32>>)
    ensures
        forall|c: int| 0 <= c < r@.len() ==> is_combination((#[trigger] r@[c])@, min_val, max_val, k),
        forall|s: Seq<i32>| #[trigger] is_combination(s, min_val, max_val, k) ==> exists|c: int| 0 <= c < r@.len() && (#[trigger] r@[c])@ == s,
        forall|a: int, b: int| 0 <= a < b < r@.len() ==> (#[trigger] r@[a])@ != (#[trigger] r@[b])@,
{
    (min_val..max_val).combinations_with_replacement(k).collect()
}

proof fn lemma_leaf_bound_fits(m: nat)
    requires
        m <= 10,
    ensures
        leaf_bound(m) <= u64::MAX,
        leaf_bound(m) >= 1,
    decreases 10 - m,
{
    if m < 10 {
        lemma_leaf_bound_grows(m);
        lemma_leaf_bound_fits(m + 1);
    } else {
        assert(leaf_bound(1) == 1);
        assert(leaf_bound(2) == 16);
        assert(leaf_bound(3) == 576);
        assert(leaf_bound(4) == 36864);
        assert(leaf_bound(5) == 3686400);
        assert(leaf_bound(6) == 530841600);
        assert(leaf_bound(7) == 104044953600);
        assert(leaf_bound(8) == 26635508121600);
        assert(leaf_bound(9) == 8629904631398400);
        assert(leaf_bound(10) == 4 * 10 * 10 * leaf_bound(9));
        assert(4 * 10 * 10 * 8629904631398400 == 3451961852559360000int);
    }
}

proof fn lemma_leaf_bound_grows(m: nat)
    ensures
        leaf_bound(m) <= leaf_bound(m + 1),
        leaf_bound(m) >= 1,
    decreases m,
{
    if m > 1 {
        lemma_leaf_bound_grows((m - 1) as nat);
    }
    let b = leaf_bound(m);
    assert(b <= 4 * (m + 1) * (m + 1) * b) by (nonlinear_arith)
        requires b >= 1;
}

/// The possibility tree of every multiset of `combination_count` numbers from
/// `min_val..max_val`, one root per multiset, each multiset once.
pub fn generate_total_possibility_space(min_val: i32, max_val: i32, combination_count: usize) -> (r: Vec<UnidirectionalNode>)
    requires
        combination_count <= MAX_TREE_INPUT,
    ensures
        forall|q: int| 0 <= q < r@.len() ==> rankable(#[trigger] r@[q]) && r@[q].data.op_type == OpType::NoOp
            && is_combination(whole_values(r@[q].values()), min_val, max_val, combination_count),
        forall|s: Seq<i32>| #[trigger] is_combination(s, min_val, max_val, combination_count)
            ==> exists|q: int| 0 <= q < r@.len() && whole_values((#[trigger] r@[q]).values()) == s,
        forall|a: int, b: int| 0 <= a < b < r@.len()
            ==> whole_values((#[trigger] r@[a]).values()) != whole_values((#[trigger] r@[b]).values()),
{
    let combinations = combinations_in_range(min_val, max_val, combination_count);
    let mut root_nodes: Vec<UnidirectionalNode> = Vec::new();
    let mut c: usize = 0;
    while c < combinations.len()
        invariant
            c <= combinations@.len(),
            combination_count <= MAX_TREE_INPUT,
            root_nodes@.len() == c,
            forall|c: int| 0 <= c < combinations@.len() ==> is_combination((#[trigger] combinations@[c])@, min_val, max_val, combination_count),
            forall|q: int| 0 <= q < c ==> rankable(#[trigger] root_nodes@[q]) && root_nodes@[q].data.op_type == OpType::NoOp
                && whole_values(root_nodes@[q].values()) == combinations@[q]@,
        decreases combinations@.len() - c,
    {
        let input = &combinations[c];
        assert(is_combination(combinations@[c as int]@, min_val, max_val, combination_count));
        let root = generate_tree_for_input(input);
        proof {
            lemma_leaf_bound_fits(combination_count as nat);
            assert(whole_values(root.values()) =~= input@);
        }
        root_nodes.push(root);
        c += 1;
    }
    proof {
        assert forall|s: Seq<i32>| #[trigger] is_combination(s, min_val, max_val, combination_count)
            implies exists|q: int| 0 <= q < root_nodes@.len() && whole_values((#[trigger] root_nodes@[q]).values()) == s by {
            let q = choose|c: int| 0 <= c < combinations@.len() && (#[trigger] combinations@[c])@ == s;
            assert(whole_values(root_nodes@[q].values()) == s);
        }
    }
    root_nodes
}

/// `es` holds the pools filled by the trees `roots`, which are those of every
/// multiset of `k` numbers from `min..max`, each once.
pub open spec fn pools_from(es: Seq<crate::pools::PoolEntry>, roots: Seq<UnidirectionalNode>, min: i32, max: i32, k: usize) -> bool {
    &&& forall|q: int| 0 <= q < roots.len() ==> is_combination(whole_values((#[trigger] roots[q]).values()), min, max, k)
    &&& forall|s: Seq<i32>| #[trigger] is_combination(s, min, max, k)
        ==> exists|q: int| 0 <= q < roots.len() && whole_values((#[trigger] roots[q]).values()) == s
    &&& forall|a: int, b: int| 0 <= a < b < roots.len()
        ==> whole_values((#[trigger] roots[a]).values()) != whole_values((#[trigger] roots[b]).values())
    &&& forall|t: Rational, d: InputDifficulty, x: Seq<i32>| t.wf() ==> #[trigger] occ(es, t, d, x)
        == filed_upto(roots, roots.len() as int, t, d, x)
}

/// The pools of every multiset of `combination_count` numbers from
/// `min_val..=max_val`: a multiset is filed for a target under a tier when its
/// tree reaches the target by a number of paths of that tier.
pub fn generate_pool_map(min_val: i32, max_val: i32, combination_count: usize) -> (r: PoolMap)
    requires
        combination_count <= MAX_TREE_INPUT,
        max_val < i32::MAX,
    ensures
        r.wf(),
        exists|roots: Seq<UnidirectionalNode>| #[trigger] pools_from(r.entries@, roots, min_val, (max_val + 1) as i32, combination_count),
        files_once(r.entries@),
        populated(r.entries@),
{
    let root_nodes = generate_total_possibility_space(min_val, max_val + 1, combination_count);
    let r = rank_all_inputs(&root_nodes);
    assert(pools_from(r.entries@, root_nodes@, min_val, (max_val + 1) as i32, combination_count));
    r
}

} // verus!
