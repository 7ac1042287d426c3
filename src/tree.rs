//! The possibility tree: every way a multiset of rationals can be reduced,
//! one pairwise operation at a time, to a single value.
use crate::rational::{apply_op, op_result, OpType, Rational};
use vstd::prelude::*;

verus! {

/// Largest multiset whose tree is built; its leaf count still fits in `u64`.
pub const MAX_TREE_INPUT: usize = 10;

/// A node's payload: its multiset, and the operation that produced it from
/// its parent (`OpType::NoOp` at the root).
pub struct OperationMarker {
    pub input_vector: Vec<Rational>,
    pub op_type: OpType,
}

/// A node of the possibility tree, owning its children.
pub struct UnidirectionalNode {
    pub data: OperationMarker,
    pub children: Vec<UnidirectionalNode>,
}

impl UnidirectionalNode {
    pub open spec fn values(self) -> Seq<Rational> {
        self.data.input_vector@
    }

    pub open spec fn kids(self) -> Seq<UnidirectionalNode> {
        self.children@
    }
}

/// Number of leaves (nodes without children) of the subtree at `node`.
pub open spec fn leaf_count(node: UnidirectionalNode) -> nat
    decreases node, node.children@.len() + 1,
{
    if node.children@.len() == 0 {
        1
    } else {
        leaves_upto(node, node.children@.len() as int)
    }
}

/// Leaves under the first `k` children of `node`.
pub open spec fn leaves_upto(node: UnidirectionalNode, k: int) -> nat
    decreases node, k,
{
    if k <= 0 || k > node.children@.len() {
        0
    } else {
        leaves_upto(node, k - 1) + leaf_count(node.children@[k - 1])
    }
}

/// Leaves under the first `k` trees of a forest.
pub open spec fn forest_leaves(s: Seq<UnidirectionalNode>, k: int) -> nat
    decreases k,
{
    if k <= 0 || k > s.len() {
        0
    } else {
        forest_leaves(s, k - 1) + leaf_count(s[k - 1])
    }
}

/// Every node `d` levels below the root holds `m - d` values, and nodes of at
/// most one value have no children.
pub open spec fn sized(node: UnidirectionalNode, m: nat) -> bool
    decreases node,
{
    &&& node.values().len() == m
    &&& m <= 1 ==> node.kids().len() == 0
    &&& forall|k: int|
        0 <= k < node.kids().len() ==> m >= 1 && sized(#[trigger] node.kids()[k], (m - 1) as nat)
}

/// The values of `v` but those at `i` and `j`, in order, among the first `k`.
pub open spec fn others_upto(v: Seq<Rational>, i: int, j: int, k: int) -> Seq<Rational>
    decreases k,
{
    if k <= 0 {
        Seq::empty()
    } else if k - 1 == i || k - 1 == j {
        others_upto(v, i, j, k - 1)
    } else {
        others_upto(v, i, j, k - 1).push(v[k - 1])
    }
}

/// The multiset `v` without its members at positions `i` and `j`.
pub open spec fn others(v: Seq<Rational>, i: int, j: int) -> Seq<Rational> {
    others_upto(v, i, j, v.len() as int)
}

/// `c` is what replacing `v[i]` and `v[j]` by `v[i] op v[j]` gives: the result
/// first, then the remaining values in order.
pub open spec fn is_move(c: UnidirectionalNode, v: Seq<Rational>, i: int, j: int, op: OpType) -> bool {
    &&& 0 <= i < v.len()
    &&& 0 <= j < v.len()
    &&& i != j
    &&& c.data.op_type == op
    &&& c.values().len() >= 1
    &&& op_result(op, v[i], v[j], c.values()[0])
    &&& c.values().subrange(1, c.values().len() as int) == others(v, i, j)
}

pub open spec fn arith_op(op: OpType) -> bool {
    op == OpType::Plus || op == OpType::Minus || op == OpType::Multiply || op == OpType::Divide
}

/// The move is one that must be present: the operands fit one checked step
/// and no division by zero is asked for.
pub open spec fn owed_move(v: Seq<Rational>, i: int, j: int, op: OpType) -> bool {
    &&& 0 <= i < v.len()
    &&& 0 <= j < v.len()
    &&& i != j
    &&& arith_op(op)
    &&& v[i].small()
    &&& v[j].small()
    &&& !(op == OpType::Divide && v[j].is_zero())
}

pub open spec fn has_move(s: Seq<UnidirectionalNode>, v: Seq<Rational>, i: int, j: int, op: OpType) -> bool {
    exists|k: int| 0 <= k < s.len() && #[trigger] is_move(s[k], v, i, j, op)
}

pub open spec fn all_wf(v: Seq<Rational>) -> bool {
    forall|k: int| 0 <= k < v.len() ==> (#[trigger] v[k]).wf()
}

/// The operator tried in the `t`-th place for each pair.
pub open spec fn op_of(t: int) -> OpType {
    if t == 0 {
        OpType::Plus
    } else if t == 1 {
        OpType::Minus
    } else if t == 2 {
        OpType::Multiply
    } else {
        OpType::Divide
    }
}

/// Number of moves tried at a node of `n` values: four operators for each
/// ordered pair of distinct positions.
pub open spec fn move_count(n: int) -> int {
    4 * (n * (n - 1))
}

/// The `m`-th move tried at a node of `n` values.
pub open spec fn move_at(n: int, m: int) -> (int, int, OpType) {
    let (i, j) = pair_at(n, m / 4);
    (i as int, j as int, op_of(m % 4))
}

/// The first `c` children are, in order, the results of the first `m` moves,
/// each move giving at most one child; a move gives none only when it is not
/// owed (a zero divisor, or operands past one checked step).
pub open spec fn matched(ch: Seq<UnidirectionalNode>, v: Seq<Rational>, c: int, m: int) -> bool
    decreases m,
{
    if m <= 0 {
        c == 0
    } else {
        let (i, j, op) = move_at(v.len() as int, m - 1);
        ||| (c > 0 && c <= ch.len() && is_move(ch[c - 1], v, i, j, op) && matched(ch, v, c - 1, m - 1))
        ||| (!owed_move(v, i, j, op) && matched(ch, v, c, m - 1))
    }
}

/// The children are exactly the results of the moves, in order: one child
/// for each ordered pair of positions and operator, but for a division by
/// zero and for operations that do not fit.
pub open spec fn children_exact(node: UnidirectionalNode) -> bool {
    matched(node.kids(), node.values(), node.kids().len() as int, move_count(node.values().len() as int))
}

/// Every child of every node is one move away from its parent, every owed
/// move of every node is among its children, and the children follow the
/// moves one to one.
pub open spec fn faithful(node: UnidirectionalNode) -> bool
    decreases node,
{
    &&& all_wf(node.values())
    &&& forall|k: int| 0 <= k < node.kids().len() ==> (exists|i: int, j: int|
        is_move(#[trigger] node.kids()[k], node.values(), i, j, node.kids()[k].data.op_type))
    &&& forall|i: int, j: int, op: OpType| #[trigger] owed_move(node.values(), i, j, op)
        ==> has_move(node.kids(), node.values(), i, j, op)
    &&& children_exact(node)
    &&& forall|k: int| 0 <= k < node.kids().len() ==> faithful(#[trigger] node.kids()[k])
}

proof fn lemma_matched_prefix(ch: Seq<UnidirectionalNode>, ch2: Seq<UnidirectionalNode>, v: Seq<Rational>, c: int, m: int)
    requires
        matched(ch, v, c, m),
        c <= ch2.len(),
        forall|k: int| 0 <= k < c ==> ch[k] == ch2[k],
    ensures
        matched(ch2, v, c, m),
    decreases m,
{
    if m > 0 {
        let (i, j, op) = move_at(v.len() as int, m - 1);
        if c > 0 && c <= ch.len() && is_move(ch[c - 1], v, i, j, op) && matched(ch, v, c - 1, m - 1) {
            lemma_matched_prefix(ch, ch2, v, c - 1, m - 1);
        } else {
            lemma_matched_prefix(ch, ch2, v, c, m - 1);
        }
    }
}

/// Bound on the leaves of a tree over `m` values: at most `4 m m` children
/// per node.
pub open spec fn leaf_bound(m: nat) -> int
    decreases m,
{
    if m <= 1 {
        1
    } else {
        4 * m * m * leaf_bound((m - 1) as nat)
    }
}

proof fn lemma_others_len(v: Seq<Rational>, i: int, j: int, k: int)
    requires
        i != j,
        0 <= k <= v.len(),
    ensures
        others_upto(v, i, j, k).len() == k - (if 0 <= i < k { 1int } else { 0 }) - (if 0 <= j < k { 1int } else { 0 }),
        all_wf(v) ==> all_wf(others_upto(v, i, j, k)),
    decreases k,
{
    if k > 0 {
        lemma_others_len(v, i, j, k - 1);
        let o = others_upto(v, i, j, k - 1);
        if !(k - 1 == i || k - 1 == j) {
            assert forall|t: int| 0 <= t < o.len() + 1 && all_wf(v) implies (#[trigger] o.push(v[k - 1])[t]).wf() by {
                if t < o.len() {
                    assert(o.push(v[k - 1])[t] == o[t]);
                }
            }
        }
    }
}

proof fn lemma_leaf_bound_pos(m: nat)
    ensures
        leaf_bound(m) >= 1,
    decreases m,
{
    if m > 1 {
        lemma_leaf_bound_pos((m - 1) as nat);
        let b = leaf_bound((m - 1) as nat);
        assert(4 * m * m * b >= 1) by (nonlinear_arith)
            requires m > 1, b >= 1;
    }
}

proof fn lemma_forest_push(s: Seq<UnidirectionalNode>, c: UnidirectionalNode, k: int)
    requires
        0 <= k <= s.len(),
    ensures
        forest_leaves(s.push(c), k) == forest_leaves(s, k),
    decreases k,
{
    if k > 0 {
        lemma_forest_push(s, c, k - 1);
        assert(s.push(c)[k - 1] == s[k - 1]);
    }
}

proof fn lemma_forest_of_node(node: UnidirectionalNode, k: int)
    requires
        0 <= k <= node.kids().len(),
    ensures
        leaves_upto(node, k) == forest_leaves(node.kids(), k),
    decreases k,
{
    if k > 0 {
        lemma_forest_of_node(node, k - 1);
    }
}

proof fn lemma_has_move_push(s: Seq<UnidirectionalNode>, c: UnidirectionalNode, v: Seq<Rational>)
    ensures
        forall|i: int, j: int, op: OpType| has_move(s, v, i, j, op) ==> #[trigger] has_move(s.push(c), v, i, j, op),
{
    assert forall|i: int, j: int, op: OpType| has_move(s, v, i, j, op) implies #[trigger] has_move(s.push(c), v, i, j, op) by {
        let k = choose|k: int| 0 <= k < s.len() && #[trigger] is_move(s[k], v, i, j, op);
        assert(s.push(c)[k] == s[k]);
    }
}

pub open spec fn pair_listed(r: Seq<(usize, usize)>, i: usize, j: usize) -> bool {
    exists|k: int| 0 <= k < r.len() && #[trigger] r[k] == (i, j)
}

/// The `k`-th ordered pair of distinct positions below `n`, counting first
/// by the first position, then by the second.
pub open spec fn pair_at(n: int, k: int) -> (usize, usize) {
    let i = k / (n - 1);
    let jj = k % (n - 1);
    (i as usize, (if jj < i { jj } else { jj + 1 }) as usize)
}

/// All `n (n - 1)` ordered pairs of distinct positions below `n`, in order.
pub open spec fn pair_seq(n: int) -> Seq<(usize, usize)> {
    Seq::new((n * (n - 1)) as nat, |k: int| pair_at(n, k))
}

proof fn lemma_pair_at(n: int, i: int, j: int)
    requires
        0 <= i < n,
        0 <= j < n,
        i != j,
    ensures
        pair_at(n, i * (n - 1) + (if j < i { j } else { j - 1 })) == (i as usize, j as usize),
{
    let jj = if j < i { j } else { j - 1 };
    let k = i * (n - 1) + jj;
    vstd::arithmetic::div_mod::lemma_fundamental_div_mod_converse_div(k, n - 1, i, jj);
    vstd::arithmetic::div_mod::lemma_fundamental_div_mod_converse_mod(k, n - 1, i, jj);
}

/// Every ordered pair of distinct positions below `n`, each once, first by
/// the first position, then by the second.
pub fn get_pairs(n: usize) -> (r: Vec<(usize, usize)>)
    ensures
        r@ == pair_seq(n as int),
        r@.len() == n * (n - 1),
        forall|k: int| 0 <= k < r@.len() ==> (#[trigger] r@[k]).0 < n && r@[k].1 < n && r@[k].0 != r@[k].1,
        forall|i: usize, j: usize| i < n && j < n && i != j ==> #[trigger] pair_listed(r@, i, j),
{
    let mut r: Vec<(usize, usize)> = Vec::new();
    let mut i: usize = 0;
    while i < n
        invariant
            i <= n,
            r@.len() == i * (n - 1),
            forall|k: int| 0 <= k < r@.len() ==> #[trigger] r@[k] == pair_at(n as int, k),
            forall|k: int| 0 <= k < r@.len() ==> (#[trigger] r@[k]).0 < n && r@[k].1 < n && r@[k].0 != r@[k].1,
            forall|a: usize, b: usize| a < i && b < n && a != b ==> #[trigger] pair_listed(r@, a, b),
        decreases n - i,
    {
        let mut j: usize = 0;
        while j < n
            invariant
                i < n,
                j <= n,
                r@.len() == i * (n - 1) + (if j <= i { j as int } else { j - 1 }),
                forall|k: int| 0 <= k < r@.len() ==> #[trigger] r@[k] == pair_at(n as int, k),
                forall|k: int| 0 <= k < r@.len() ==> (#[trigger] r@[k]).0 < n && r@[k].1 < n && r@[k].0 != r@[k].1,
                forall|a: usize, b: usize| a < i && b < n && a != b ==> #[trigger] pair_listed(r@, a, b),
                forall|b: usize| b < j && b != i ==> #[trigger] pair_listed(r@, i, b),
            decreases n - j,
        {
            if j != i {
                let ghost old_r = r@;
                proof {
                    lemma_pair_at(n as int, i as int, j as int);
                }
                r.push((i, j));
                assert(r@[old_r.len() as int] == (i, j));
                assert forall|a: usize, b: usize| (a < i && b < n && a != b) || (a == i && b < j && b != i)
                    implies #[trigger] pair_listed(r@, a, b) by {
                    if a == i && b == j {
                        assert(r@[old_r.len() as int] == (a, b));
                    } else {
                        assert(pair_listed(old_r, a, b));
                        let k = choose|k: int| 0 <= k < old_r.len() && #[trigger] old_r[k] == (a, b);
                        assert(r@[k] == old_r[k]);
                    }
                }
            }
            j += 1;
        }
        assert(i * (n - 1) + (n - 1) == (i + 1) * (n - 1)) by (nonlinear_arith);
        i += 1;
    }
    assert(r@ =~= pair_seq(n as int));
    r
}

/// `v` without the values at positions `i` and `j`, in order.
pub fn remove_pair(v: &Vec<Rational>, i: usize, j: usize) -> (r: Vec<Rational>)
    requires
        i < v@.len(),
        j < v@.len(),
        i != j,
    ensures
        r@ == others(v@, i as int, j as int),
{
    let mut r: Vec<Rational> = Vec::new();
    let mut k: usize = 0;
    while k < v.len()
        invariant
            k <= v@.len(),
            r@ == others_upto(v@, i as int, j as int, k as int),
        decreases v@.len() - k,
    {
        if k != i && k != j {
            r.push(v[k]);
        }
        k += 1;
    }
    r
}

/// Builds the subtree of the node holding `input_vector`, reached by `op_type`.
fn generate_decision_tree(input_vector: Vec<Rational>, op_type: OpType) -> (r: UnidirectionalNode)
    requires
        input_vector@.len() <= MAX_TREE_INPUT,
        all_wf(input_vector@),
    ensures
        r.values() == input_vector@,
        r.data.op_type == op_type,
        sized(r, input_vector@.len()),
        faithful(r),
        leaf_count(r) <= leaf_bound(input_vector@.len()),
    decreases input_vector@.len(),
{
    let n = input_vector.len();
    let ghost v = input_vector@;
    let mut children: Vec<UnidirectionalNode> = Vec::new();
    if n >= 2 {
        let pairs = get_pairs(n);
        assert(pairs@.len() <= n * n) by (nonlinear_arith)
            requires pairs@.len() == n * (n - 1), n >= 2;
        let ops: Vec<OpType> = vec![OpType::Plus, OpType::Minus, OpType::Multiply, OpType::Divide];
        assert(ops@[0] == OpType::Plus && ops@[1] == OpType::Minus && ops@[2] == OpType::Multiply && ops@[3] == OpType::Divide);
        let mut p: usize = 0;
        assert(pairs@.len() * 4 <= 4 * n * n) by (nonlinear_arith)
            requires pairs@.len() <= n * n;
        while p < pairs.len()
            invariant
                v == input_vector@,
                2 <= n == v.len() <= MAX_TREE_INPUT,
                all_wf(v),
                ops@ == seq![OpType::Plus, OpType::Minus, OpType::Multiply, OpType::Divide],
                pairs@.len() <= n * n,
                forall|k: int| 0 <= k < pairs@.len() ==> (#[trigger] pairs@[k]).0 < n && pairs@[k].1 < n && pairs@[k].0 != pairs@[k].1,
                p <= pairs@.len(),
                pairs@ == pair_seq(n as int),
                matched(children@, v, children@.len() as int, 4 * p),
                children@.len() <= 4 * p,
                forest_leaves(children@, children@.len() as int) <= children@.len() * leaf_bound((n - 1) as nat),
                forall|k: int| 0 <= k < children@.len() ==> sized(#[trigger] children@[k], (n - 1) as nat),
                forall|k: int| 0 <= k < children@.len() ==> faithful(#[trigger] children@[k]),
                forall|k: int| 0 <= k < children@.len() ==> leaf_count(#[trigger] children@[k]) <= leaf_bound((n - 1) as nat),
                forall|k: int| 0 <= k < children@.len() ==> (exists|i: int, j: int|
                    is_move(#[trigger] children@[k], v, i, j, children@[k].data.op_type)),
                forall|q: int, op: OpType| 0 <= q < p && #[trigger] owed_move(v, pairs@[q].0 as int, pairs@[q].1 as int, op)
                    ==> has_move(children@, v, pairs@[q].0 as int, pairs@[q].1 as int, op),
            decreases pairs@.len() - p,
        {
            let (i, j) = pairs[p];
            let mut t: usize = 0;
            while t < 4
                invariant
                    v == input_vector@,
                    2 <= n == v.len() <= MAX_TREE_INPUT,
                    all_wf(v),
                    ops@ == seq![OpType::Plus, OpType::Minus, OpType::Multiply, OpType::Divide],
                    i < n, j < n, i != j,
                    (i, j) == pairs@[p as int],
                    p < pairs@.len(),
                    pairs@ == pair_seq(n as int),
                    t <= 4,
                    matched(children@, v, children@.len() as int, 4 * p + t),
                    children@.len() <= 4 * p + t,
                    forest_leaves(children@, children@.len() as int) <= children@.len() * leaf_bound((n - 1) as nat),
                    forall|k: int| 0 <= k < children@.len() ==> sized(#[trigger] children@[k], (n - 1) as nat),
                    forall|k: int| 0 <= k < children@.len() ==> faithful(#[trigger] children@[k]),
                    forall|k: int| 0 <= k < children@.len() ==> leaf_count(#[trigger] children@[k]) <= leaf_bound((n - 1) as nat),
                    forall|k: int| 0 <= k < children@.len() ==> (exists|i: int, j: int|
                        is_move(#[trigger] children@[k], v, i, j, children@[k].data.op_type)),
                    forall|q: int, op: OpType| 0 <= q < p && #[trigger] owed_move(v, pairs@[q].0 as int, pairs@[q].1 as int, op)
                        ==> has_move(children@, v, pairs@[q].0 as int, pairs@[q].1 as int, op),
                    forall|u: int| 0 <= u < t && owed_move(v, i as int, j as int, #[trigger] ops@[u])
                        ==> has_move(children@, v, i as int, j as int, ops@[u]),
                decreases 4 - t,
            {
                let op = ops[t];
                proof {
                    vstd::arithmetic::div_mod::lemma_fundamental_div_mod_converse_div(4 * p + t, 4, p as int, t as int);
                    vstd::arithmetic::div_mod::lemma_fundamental_div_mod_converse_mod(4 * p + t, 4, p as int, t as int);
                    assert(move_at(n as int, 4 * p + t) == (i as int, j as int, op));
                }
                match apply_op(op, input_vector[i], input_vector[j]) {
                    Some(x) => {
                        let mut cv = remove_pair(&input_vector, i, j);
                        proof {
                            lemma_others_len(v, i as int, j as int, n as int);
                        }
                        let ghost rest = cv@;
                        cv.insert(0, x);
                        assert(cv@.subrange(1, cv@.len() as int) =~= rest);
                        assert(all_wf(cv@)) by {
                            assert forall|k: int| 0 <= k < cv@.len() implies (#[trigger] cv@[k]).wf() by {
                                if k > 0 {
                                    assert(cv@[k] == rest[k - 1]);
                                }
                            }
                        }
                        let child = generate_decision_tree(cv, op);
                        assert(is_move(child, v, i as int, j as int, op));
                        let ghost old_children = children@;
                        children.push(child);
                        proof {
                            lemma_has_move_push(old_children, child, v);
                            lemma_matched_prefix(old_children, children@, v, old_children.len() as int, 4 * p + t);
                            assert(matched(children@, v, children@.len() as int, 4 * p + t + 1));
                            lemma_forest_push(old_children, child, old_children.len() as int);
                            let b = leaf_bound((n - 1) as nat);
                            let c = old_children.len() as int;
                            assert(c * b + b == (c + 1) * b) by (nonlinear_arith);
                            assert(children@[old_children.len() as int] == child);
                            assert(has_move(children@, v, i as int, j as int, op));
                            assert forall|k: int| 0 <= k < children@.len() implies (exists|i: int, j: int|
                                is_move(#[trigger] children@[k], v, i, j, children@[k].data.op_type)) by {
                                if k < old_children.len() {
                                    assert(children@[k] == old_children[k]);
                                }
                            }
                        }
                    },
                    None => {
                        assert(!owed_move(v, i as int, j as int, op));
                        assert(matched(children@, v, children@.len() as int, 4 * p + t + 1));
                    },
                }
                t += 1;
            }
            proof {
                assert forall|op: OpType| #[trigger] owed_move(v, i as int, j as int, op)
                    implies has_move(children@, v, i as int, j as int, op) by {
                    if op == OpType::Plus { assert(ops@[0] == op); }
                    else if op == OpType::Minus { assert(ops@[1] == op); }
                    else if op == OpType::Multiply { assert(ops@[2] == op); }
                    else { assert(ops@[3] == op); }
                }
            }
            assert(4 * p + 4 == 4 * (p + 1));
            p += 1;
        }
        proof {
            assert(4 * pairs@.len() == move_count(n as int));
            assert forall|i: int, j: int, op: OpType| #[trigger] owed_move(v, i, j, op)
                implies has_move(children@, v, i, j, op) by {
                assert(pair_listed(pairs@, i as usize, j as usize));
                let k = choose|k: int| 0 <= k < pairs@.len() && #[trigger] pairs@[k] == (i as usize, j as usize);
                assert(owed_move(v, pairs@[k].0 as int, pairs@[k].1 as int, op));
            }
        }
    }
    let r = UnidirectionalNode { data: OperationMarker { input_vector, op_type }, children };
    proof {
        assert(r.kids() == children@);
        lemma_leaf_bound_pos(n as nat);
        if n < 2 {
            assert(move_count(n as int) == 0) by (nonlinear_arith)
                requires n < 2;
        }
        assert(children_exact(r));
        assert(all_wf(r.values()));
        assert(forall|k: int| 0 <= k < r.kids().len() ==> faithful(#[trigger] r.kids()[k]));
        assert(forall|k: int| 0 <= k < r.kids().len() ==> (exists|i: int, j: int|
            is_move(#[trigger] r.kids()[k], r.values(), i, j, r.kids()[k].data.op_type)));
        assert(forall|i: int, j: int, op: OpType| #[trigger] owed_move(r.values(), i, j, op)
            ==> has_move(r.kids(), r.values(), i, j, op));
        if children@.len() > 0 {
            lemma_forest_of_node(r, children@.len() as int);
            let b = leaf_bound((n - 1) as nat);
            let c = children@.len() as int;
            assert(c * b <= 4 * n * n * b) by (nonlinear_arith)
                requires c <= 4 * n * n, b >= 0;
            assert(leaf_count(r) == leaves_upto(r, c));
            assert(4 * n * n * b >= 0) by (nonlinear_arith)
                requires b >= 0;
        }
    }
    r
}

/// Converts whole numbers to rationals.
pub fn vec_i32_to_fraction(vector: &Vec<i32>) -> (r: Vec<Rational>)
    ensures
        r@.len() == vector@.len(),
        all_wf(r@),
        forall|k: int| 0 <= k < r@.len() ==> (#[trigger] r@[k]).den == 1 && r@[k].num_int() == vector@[k] as int,
{
    let mut r: Vec<Rational> = Vec::new();
    let mut k: usize = 0;
    while k < vector.len()
        invariant
            k <= vector@.len(),
            r@.len() == k,
            forall|t: int| 0 <= t < k ==> (#[trigger] r@[t]).den == 1 && r@[t].num_int() == vector@[t] as int,
        decreases vector@.len() - k,
    {
        r.push(Rational::from_int(vector[k] as i64));
        k += 1;
    }
    r
}

/// The possibility tree of a multiset of whole numbers: its root holds the
/// numbers themselves, reached by no operation.
pub fn generate_tree_for_input(input_vector: &Vec<i32>) -> (r: UnidirectionalNode)
    requires
        input_vector@.len() <= MAX_TREE_INPUT,
    ensures
        r.values().len() == input_vector@.len(),
        forall|k: int| 0 <= k < r.values().len() ==> (#[trigger] r.values()[k]).den == 1
            && r.values()[k].num_int() == input_vector@[k] as int,
        r.data.op_type == OpType::NoOp,
        sized(r, input_vector@.len()),
        faithful(r),
        leaf_count(r) <= leaf_bound(input_vector@.len()),
{
    generate_decision_tree(vec_i32_to_fraction(input_vector), OpType::NoOp)
}

/// Every value held anywhere in the subtree is small.
pub open spec fn tree_small(node: UnidirectionalNode) -> bool
    decreases node,
{
    &&& forall|k: int| 0 <= k < node.values().len() ==> (#[trigger] node.values()[k]).small()
    &&& forall|k: int| 0 <= k < node.kids().len() ==> tree_small(#[trigger] node.kids()[k])
}

/// A node `d` levels below the root of a tree over `n` values holds `n - d`
/// values, and it is a leaf only if `d == n - 1`.
pub open spec fn levels_ok(node: UnidirectionalNode, n: int, d: int) -> bool
    decreases node,
{
    &&& node.values().len() == n - d
    &&& node.kids().len() == 0 ==> d == n - 1
    &&& forall|k: int| 0 <= k < node.kids().len() ==> levels_ok(#[trigger] node.kids()[k], n, d + 1)
}

/// In a tree built over `n >= 1` values, every node at depth `d` holds
/// `n - d` values, and leaves stand exactly at depth `n - 1`; stated for trees
/// whose every value fits one checked step, so that no move was lost to
/// overflow.
pub proof fn lemma_leaves_at_last_level(node: UnidirectionalNode, n: int, d: int)
    requires
        0 <= d < n,
        sized(node, (n - d) as nat),
        faithful(node),
        tree_small(node),
    ensures
        levels_ok(node, n, d),
    decreases node,
{
    let v = node.values();
    if n - d >= 2 {
        assert(v[0].small() && v[1].small());
        assert(owed_move(v, 0, 1, OpType::Plus));
        assert(has_move(node.kids(), v, 0, 1, OpType::Plus));
        assert(node.kids().len() > 0);
    }
    assert forall|k: int| 0 <= k < node.kids().len() implies levels_ok(#[trigger] node.kids()[k], n, d + 1) by {
        assert(sized(node.kids()[k], ((n - d) as nat - 1) as nat));
        assert(((n - d) as nat - 1) as nat == (n - (d + 1)) as nat);
        lemma_leaves_at_last_level(node.kids()[k], n, d + 1);
    }
}

/// The whole number, within `i32`, that `v` stands for.
pub open spec fn whole_i32(v: Rational) -> bool {
    &&& v.is_integer()
    &&& if v.neg { v.num / v.den <= 0x8000_0000 } else { v.num / v.den <= 0x7fff_ffff }
}

/// Values that are whole numbers with denominator one, read as `i32`.
pub open spec fn whole_values(v: Seq<Rational>) -> Seq<i32> {
    Seq::new(v.len(), |k: int| v[k].num_int() as i32)
}

/// Every value is a whole number of `i32` written over one.
pub open spec fn int_values(v: Seq<Rational>) -> bool {
    forall|k: int| 0 <= k < v.len() ==> (#[trigger] v[k]).den == 1 && i32::MIN <= v[k].num_int() <= i32::MAX
}

impl OperationMarker {
    /// The multiset as whole numbers; an error if a value is not a whole
    /// number of `i32`.
    pub fn input_vector_to_i32(&self) -> (r: Result<Vec<i32>, String>)
        requires
            all_wf(self.input_vector@),
        ensures
            r is Ok <==> forall|k: int| 0 <= k < self.input_vector@.len() ==> whole_i32(#[trigger] self.input_vector@[k]),
            r matches Ok(out) ==> out@.len() == self.input_vector@.len() && forall|k: int| 0 <= k < out@.len()
                ==> (#[trigger] out@[k]) as int * self.input_vector@[k].den == self.input_vector@[k].num_int(),
            int_values(self.input_vector@) ==> r == Ok::<Vec<i32>, String>(r->Ok_0) && r->Ok_0@ == whole_values(self.input_vector@),
    {
        let ghost v = self.input_vector@;
        let mut out: Vec<i32> = Vec::new();
        let mut k: usize = 0;
        while k < self.input_vector.len()
            invariant
                v == self.input_vector@,
                all_wf(v),
                k <= v.len(),
                out@.len() == k,
                forall|t: int| 0 <= t < k ==> whole_i32(#[trigger] v[t]),
                forall|t: int| 0 <= t < k ==> (#[trigger] out@[t]) as int * v[t].den == v[t].num_int(),
            decreases v.len() - k,
        {
            let x = self.input_vector[k];
            assert(x.wf());
            if x.num % x.den != 0 {
                return Err("Input vector holds a value that is not a whole number.".to_string());
            }
            let q = x.num / x.den;
            proof {
                let (n, d) = (x.num as int, x.den as int);
                assert(n == (n / d) * d + n % d) by (nonlinear_arith) requires d > 0;
            }
            if x.neg {
                if q > 0x8000_0000 {
                    return Err("Input vector holds a value outside the range of i32.".to_string());
                }
                let w: i32 = (-(q as i64)) as i32;
                proof {
                    let (qq, d) = (q as int, x.den as int);
                    assert((-qq) * d == -(qq * d)) by (nonlinear_arith);
                }
                out.push(w);
            } else {
                if q > 0x7fff_ffff {
                    return Err("Input vector holds a value outside the range of i32.".to_string());
                }
                out.push(q as i32);
            }
            k += 1;
        }
        proof {
            if int_values(v) {
                assert(out@ =~= whole_values(v));
            }
        }
        Ok(out)
    }
}

} // verus!
