//! Difficulty tiers, the pools of inputs filed under each reachable target,
//! and the assembly of those pools from possibility trees.
use crate::frequency::{count_in, count_leaf_instances_of, keys_distinct, lemma_same_trans, total, FrequencyCounter};
use crate::rational::Rational;
use crate::frequency::{lemma_count_at_key, lemma_count_has_key, lemma_paths_to_same, paths_to};
use crate::tree::{all_wf, faithful, int_values, leaf_count, sized, whole_values, UnidirectionalNode};
use vstd::prelude::*;

verus! {

/// How hard it is to reach a target from an input.
#[derive(Clone, Copy, Debug, PartialEq, Eq, Structural)]
pub enum InputDifficulty {
    Easy,
    Moderate,
    Hard,
}

/// Fewest paths that still make an input easy.
pub const EASY_FROM: u64 = 6;

/// Fewest paths that make an input moderate rather than hard.
pub const MODERATE_FROM: u64 = 3;

/// The tier of an input that reaches a target by `count` paths: one or two
/// paths are hard, three to five moderate, more easy.
pub open spec fn difficulty_of(count: nat) -> InputDifficulty {
    if 1 <= count < MODERATE_FROM {
        InputDifficulty::Hard
    } else if MODERATE_FROM <= count < EASY_FROM {
        InputDifficulty::Moderate
    } else {
        InputDifficulty::Easy
    }
}

/// Classifies a path count; see `difficulty_of`.
pub fn difficulty_for_count(occurrences: u64) -> (r: InputDifficulty)
    ensures
        r == difficulty_of(occurrences as nat),
{
    if occurrences > 0 && occurrences < MODERATE_FROM {
        InputDifficulty::Hard
    } else if occurrences >= MODERATE_FROM && occurrences < EASY_FROM {
        InputDifficulty::Moderate
    } else {
        InputDifficulty::Easy
    }
}

/// For one target, the inputs of each tier.
pub struct DifficultyPools {
    pub easy: Vec<Vec<i32>>,
    pub moderate: Vec<Vec<i32>>,
    pub hard: Vec<Vec<i32>>,
}

/// One input's reachable target, with the tier it has for that target.
pub struct InputRanking {
    pub target: Rational,
    pub difficulty: InputDifficulty,
    pub input: Vec<i32>,
}

/// How often `x` occurs in a list of inputs.
pub open spec fn list_count(l: Seq<Vec<i32>>, x: Seq<i32>) -> nat
    decreases l.len(),
{
    if l.len() == 0 {
        0
    } else {
        list_count(l.drop_last(), x) + if l.last()@ == x { 1nat } else { 0nat }
    }
}

/// The tiers that the sampler falls back to, nearest first.
pub open spec fn preference(d: InputDifficulty) -> Seq<InputDifficulty> {
    match d {
        InputDifficulty::Easy => seq![InputDifficulty::Easy, InputDifficulty::Moderate, InputDifficulty::Hard],
        InputDifficulty::Moderate => seq![InputDifficulty::Moderate, InputDifficulty::Easy, InputDifficulty::Hard],
        InputDifficulty::Hard => seq![InputDifficulty::Hard, InputDifficulty::Moderate, InputDifficulty::Easy],
    }
}

impl DifficultyPools {
    pub open spec fn tier(self, d: InputDifficulty) -> Seq<Vec<i32>> {
        match d {
            InputDifficulty::Easy => self.easy@,
            InputDifficulty::Moderate => self.moderate@,
            InputDifficulty::Hard => self.hard@,
        }
    }

    /// Inputs in all three tiers.
    pub open spec fn size(self) -> nat {
        self.easy@.len() + self.moderate@.len() + self.hard@.len()
    }

    /// The populated tier nearest to `d`, if any.
    pub open spec fn closest(self, d: InputDifficulty) -> Option<InputDifficulty> {
        let p = preference(d);
        if self.tier(p[0]).len() > 0 {
            Some(p[0])
        } else if self.tier(p[1]).len() > 0 {
            Some(p[1])
        } else if self.tier(p[2]).len() > 0 {
            Some(p[2])
        } else {
            None
        }
    }

    pub fn new() -> (r: DifficultyPools)
        ensures
            r.easy@.len() == 0,
            r.moderate@.len() == 0,
            r.hard@.len() == 0,
    {
        DifficultyPools { easy: Vec::new(), moderate: Vec::new(), hard: Vec::new() }
    }

    /// The inputs of one tier.
    pub fn get_pool(&self, difficulty: InputDifficulty) -> (r: &Vec<Vec<i32>>)
        ensures
            r@ == self.tier(difficulty),
    {
        match difficulty {
            InputDifficulty::Easy => &self.easy,
            InputDifficulty::Moderate => &self.moderate,
            InputDifficulty::Hard => &self.hard,
        }
    }

    /// The tier nearest to `difficulty` that holds an input: the tier itself,
    /// else moderate before the far end, else the far end (from moderate,
    /// easy before hard). An error when all three are empty.
    pub fn get_closest_matching_populated_pool(&self, difficulty: InputDifficulty) -> (r: Result<InputDifficulty, String>)
        ensures
            r is Ok <==> self.closest(difficulty) is Some,
            r matches Ok(d) ==> self.closest(difficulty) == Some(d),
            self.closest(difficulty) is None <==> self.size() == 0,
    {
        let order: [InputDifficulty; 3] = match difficulty {
            InputDifficulty::Easy => [InputDifficulty::Easy, InputDifficulty::Moderate, InputDifficulty::Hard],
            InputDifficulty::Moderate => [InputDifficulty::Moderate, InputDifficulty::Easy, InputDifficulty::Hard],
            InputDifficulty::Hard => [InputDifficulty::Hard, InputDifficulty::Moderate, InputDifficulty::Easy],
        };
        assert(order@ == preference(difficulty));
        let mut k: usize = 0;
        while k < 3
            invariant
                order@ == preference(difficulty),
                k <= 3,
                forall|t: int| 0 <= t < k ==> self.tier(#[trigger] order@[t]).len() == 0,
            decreases 3 - k,
        {
            if self.get_pool(order[k]).len() > 0 {
                return Ok(order[k]);
            }
            k += 1;
        }
        Err("All pools empty.".to_string())
    }

    /// Files `input` under tier `difficulty`.
    pub fn push_input(&mut self, difficulty: InputDifficulty, input: Vec<i32>)
        ensures
            forall|d: InputDifficulty| #[trigger] final(self).tier(d)
                == if d == difficulty { old(self).tier(d).push(input) } else { old(self).tier(d) },
    {
        match difficulty {
            InputDifficulty::Easy => self.easy.push(input),
            InputDifficulty::Moderate => self.moderate.push(input),
            InputDifficulty::Hard => self.hard.push(input),
        }
    }

    /// Takes out the input at `index` of tier `difficulty`.
    pub fn remove_input(&mut self, difficulty: InputDifficulty, index: usize) -> (r: Vec<i32>)
        requires
            index < old(self).tier(difficulty).len(),
        ensures
            r == old(self).tier(difficulty)[index as int],
            forall|d: InputDifficulty| #[trigger] final(self).tier(d)
                == if d == difficulty { old(self).tier(d).remove(index as int) } else { old(self).tier(d) },
    {
        match difficulty {
            InputDifficulty::Easy => self.easy.remove(index),
            InputDifficulty::Moderate => self.moderate.remove(index),
            InputDifficulty::Hard => self.hard.remove(index),
        }
    }
}

/// A copy of a list of whole numbers.
pub fn copy_input(v: &Vec<i32>) -> (r: Vec<i32>)
    ensures
        r@ == v@,
{
    let mut r: Vec<i32> = Vec::new();
    let mut k: usize = 0;
    while k < v.len()
        invariant
            k <= v@.len(),
            r@ == v@.subrange(0, k as int),
        decreases v@.len() - k,
    {
        r.push(v[k]);
        k += 1;
        assert(r@ =~= v@.subrange(0, k as int));
    }
    assert(v@.subrange(0, v@.len() as int) =~= v@);
    r
}

/// Files the ranked input under its tier.
pub fn insert_input_into_pool(item: &InputRanking, pool: &mut DifficultyPools)
    ensures
        forall|d: InputDifficulty| d != item.difficulty ==> #[trigger] final(pool).tier(d) == old(pool).tier(d),
        final(pool).tier(item.difficulty).drop_last() == old(pool).tier(item.difficulty),
        final(pool).tier(item.difficulty).last()@ == item.input@,
        forall|d: InputDifficulty| #[trigger] final(pool).tier(d).len() == old(pool).tier(d).len()
            + if d == item.difficulty { 1int } else { 0 },
        forall|d: InputDifficulty, x: Seq<i32>| #[trigger] list_count(final(pool).tier(d), x)
            == list_count(old(pool).tier(d), x) + if d == item.difficulty && item.input@ == x { 1nat } else { 0nat },
{
    let ghost before = *pool;
    pool.push_input(item.difficulty, copy_input(&item.input));
    proof {
        assert forall|d: InputDifficulty, x: Seq<i32>| #[trigger] list_count(pool.tier(d), x)
            == list_count(before.tier(d), x) + if d == item.difficulty && item.input@ == x { 1nat } else { 0nat } by {
            if d == item.difficulty {
                assert(pool.tier(d).drop_last() == before.tier(d));
            }
        }
    }
}

/// A tree ready for ranking: built by the tree builder over whole numbers,
/// with a leaf count that fits a `u64`.
pub open spec fn rankable(node: UnidirectionalNode) -> bool {
    &&& sized(node, node.values().len())
    &&& faithful(node)
    &&& leaf_count(node) <= u64::MAX
    &&& int_values(node.values())
}

/// The input `x` is filed for target `t` under tier `d` when `node` is the
/// tree of `x` and reaches `t` by a number of paths of that tier.
pub open spec fn files(node: UnidirectionalNode, t: Rational, d: InputDifficulty, x: Seq<i32>) -> bool {
    &&& whole_values(node.values()) == x
    &&& paths_to(node, t) > 0
    &&& difficulty_of(paths_to(node, t)) == d
}

pub open spec fn ranking_matches(k: InputRanking, t: Rational, d: InputDifficulty, x: Seq<i32>) -> bool {
    k.target.same(t) && k.difficulty == d && k.input@ == x
}

/// Rankings among the first `k` that file `x` for `t` under `d`.
pub open spec fn matches_upto(rs: Seq<InputRanking>, k: int, t: Rational, d: InputDifficulty, x: Seq<i32>) -> nat
    decreases k,
{
    if k <= 0 {
        0
    } else {
        matches_upto(rs, k - 1, t, d, x) + if ranking_matches(rs[k - 1], t, d, x) { 1nat } else { 0nat }
    }
}

/// One ranking per value the tree reaches: the input, the value, and the tier
/// that the number of paths to it gives.
pub fn rank_input(input: &UnidirectionalNode) -> (r: Vec<InputRanking>)
    requires
        rankable(*input),
    ensures
        forall|k: int| 0 <= k < r@.len() ==> (#[trigger] r@[k]).target.wf()
            && r@[k].input@ == whole_values(input.values())
            && paths_to(*input, r@[k].target) > 0
            && r@[k].difficulty == difficulty_of(paths_to(*input, r@[k].target)),
        forall|a: int, b: int| 0 <= a < b < r@.len() ==> !(#[trigger] r@[a]).target.same(#[trigger] r@[b].target),
        forall|y: Rational| y.wf() && #[trigger] paths_to(*input, y) > 0 ==> exists|k: int| 0 <= k < r@.len() && (#[trigger] r@[k]).target.same(y),
{
    let leaf_value_map = count_leaf_instances_of(input);
    let ints = input.data.input_vector_to_i32();
    let ints = match ints {
        Ok(v) => v,
        Err(_) => Vec::new(),
    };
    let ghost s = leaf_value_map.map@;
    let mut input_ranking: Vec<InputRanking> = Vec::new();
    let mut k: usize = 0;
    while k < leaf_value_map.map.len()
        invariant
            s == leaf_value_map.map@,
            keys_distinct(s),
            forall|y: Rational| y.wf() ==> #[trigger] count_in(s, y) == paths_to(*input, y),
            ints@ == whole_values(input.values()),
            k <= s.len(),
            input_ranking@.len() == k,
            forall|t: int| 0 <= t < k ==> (#[trigger] input_ranking@[t]).target == s[t].0
                && input_ranking@[t].input@ == whole_values(input.values())
                && input_ranking@[t].difficulty == difficulty_of(s[t].1 as nat),
        decreases s.len() - k,
    {
        let (target, occurrences) = leaf_value_map.map[k];
        let difficulty = difficulty_for_count(occurrences);
        input_ranking.push(InputRanking { target, difficulty, input: copy_input(&ints) });
        k += 1;
    }
    proof {
        assert forall|t: int| 0 <= t < input_ranking@.len() implies (#[trigger] input_ranking@[t]).target.wf()
            && input_ranking@[t].input@ == whole_values(input.values())
            && paths_to(*input, input_ranking@[t].target) > 0
            && input_ranking@[t].difficulty == difficulty_of(paths_to(*input, input_ranking@[t].target)) by {
            lemma_count_at_key(s, t);
        }
        assert forall|y: Rational| y.wf() && #[trigger] paths_to(*input, y) > 0
            implies exists|t: int| 0 <= t < input_ranking@.len() && (#[trigger] input_ranking@[t]).target.same(y) by {
            lemma_count_has_key(s, y);
            let t = choose|t: int| 0 <= t < s.len() && (#[trigger] s[t]).0.same(y);
            assert(input_ranking@[t].target.same(y));
        }
    }
    input_ranking
}

/// Exactly the ranking that stands for `t`, if any, files `x` there.
proof fn lemma_rankings_file(node: UnidirectionalNode, rs: Seq<InputRanking>, t: Rational, d: InputDifficulty, x: Seq<i32>)
    requires
        faithful(node),
        t.wf(),
        forall|k: int| 0 <= k < rs.len() ==> (#[trigger] rs[k]).target.wf()
            && rs[k].input@ == whole_values(node.values())
            && paths_to(node, rs[k].target) > 0
            && rs[k].difficulty == difficulty_of(paths_to(node, rs[k].target)),
        forall|a: int, b: int| 0 <= a < b < rs.len() ==> !(#[trigger] rs[a]).target.same(#[trigger] rs[b].target),
        forall|y: Rational| y.wf() && #[trigger] paths_to(node, y) > 0 ==> exists|k: int| 0 <= k < rs.len() && (#[trigger] rs[k]).target.same(y),
    ensures
        matches_upto(rs, rs.len() as int, t, d, x) == if files(node, t, d, x) { 1nat } else { 0nat },
{
    if paths_to(node, t) > 0 {
        let j = choose|k: int| 0 <= k < rs.len() && (#[trigger] rs[k]).target.same(t);
        lemma_paths_to_same(node, rs[j].target, t);
        assert forall|k: int| 0 <= k < rs.len() && k != j implies !(#[trigger] rs[k]).target.same(t) by {
            if rs[k].target.same(t) {
                lemma_same_trans(rs[j].target, t, rs[k].target);
                lemma_same_trans(rs[k].target, t, rs[j].target);
                lemma_same_trans(rs[k].target, rs[j].target, rs[k].target);
                if k < j {
                    assert(!rs[k].target.same(rs[j].target));
                } else {
                    assert(!rs[j].target.same(rs[k].target));
                }
            }
        }
        lemma_single_match(rs, rs.len() as int, j, t, d, x);
    } else {
        assert forall|k: int| 0 <= k < rs.len() implies !(#[trigger] rs[k]).target.same(t) by {
            if rs[k].target.same(t) {
                lemma_paths_to_same(node, rs[k].target, t);
            }
        }
        lemma_no_match(rs, rs.len() as int, t, d, x);
    }
}

proof fn lemma_single_match(rs: Seq<InputRanking>, k: int, j: int, t: Rational, d: InputDifficulty, x: Seq<i32>)
    requires
        0 <= j < rs.len(),
        0 <= k <= rs.len(),
        forall|i: int| 0 <= i < rs.len() && i != j ==> !(#[trigger] rs[i]).target.same(t),
    ensures
        matches_upto(rs, k, t, d, x) == if j < k && ranking_matches(rs[j], t, d, x) { 1nat } else { 0nat },
    decreases k,
{
    if k > 0 {
        lemma_single_match(rs, k - 1, j, t, d, x);
    }
}

proof fn lemma_no_match(rs: Seq<InputRanking>, k: int, t: Rational, d: InputDifficulty, x: Seq<i32>)
    requires
        0 <= k <= rs.len(),
        forall|i: int| 0 <= i < rs.len() ==> !(#[trigger] rs[i]).target.same(t),
    ensures
        matches_upto(rs, k, t, d, x) == 0,
    decreases k,
{
    if k > 0 {
        lemma_no_match(rs, k - 1, t, d, x);
    }
}

/// The pools of one target.
pub struct PoolEntry {
    pub target: Rational,
    pub pools: DifficultyPools,
}

/// Targets with their pools; targets stand for pairwise different values.
pub struct PoolMap {
    pub entries: Vec<PoolEntry>,
}

/// How often `x` is filed under target `t` and tier `d` in the entry.
pub open spec fn entry_occ(e: PoolEntry, t: Rational, d: InputDifficulty, x: Seq<i32>) -> nat {
    if e.target.same(t) {
        list_count(e.pools.tier(d), x)
    } else {
        0
    }
}

/// How often `x` is filed under target `t` and tier `d`.
pub open spec fn occ(es: Seq<PoolEntry>, t: Rational, d: InputDifficulty, x: Seq<i32>) -> nat
    decreases es.len(),
{
    if es.len() == 0 {
        0
    } else {
        occ(es.drop_last(), t, d, x) + entry_occ(es.last(), t, d, x)
    }
}

/// Every entry holds an input in some tier.
pub open spec fn populated(es: Seq<PoolEntry>) -> bool {
    forall|k: int| 0 <= k < es.len() ==> (#[trigger] es[k]).pools.size() > 0
}

/// Each input is filed at most once per target, over all three tiers.
pub open spec fn files_once(es: Seq<PoolEntry>) -> bool {
    forall|t: Rational, x: Seq<i32>| t.wf() ==> #[trigger] occ(es, t, InputDifficulty::Easy, x)
        + occ(es, t, InputDifficulty::Moderate, x) + occ(es, t, InputDifficulty::Hard, x) <= 1
}

pub open spec fn targets_distinct(es: Seq<PoolEntry>) -> bool {
    &&& forall|i: int| 0 <= i < es.len() ==> (#[trigger] es[i]).target.wf()
    &&& forall|i: int, j: int| 0 <= i < j < es.len() ==> !(#[trigger] es[i]).target.same(#[trigger] es[j].target)
}

/// Roots among the first `i` that file `x` for `t` under `d`.
pub open spec fn filed_upto(roots: Seq<UnidirectionalNode>, i: int, t: Rational, d: InputDifficulty, x: Seq<i32>) -> nat
    decreases i,
{
    if i <= 0 {
        0
    } else {
        filed_upto(roots, i - 1, t, d, x) + if files(roots[i - 1], t, d, x) { 1nat } else { 0nat }
    }
}

pub proof fn lemma_occ_update(es: Seq<PoolEntry>, i: int, e: PoolEntry, t: Rational, d: InputDifficulty, x: Seq<i32>)
    requires
        0 <= i < es.len(),
    ensures
        occ(es.update(i, e), t, d, x) + entry_occ(es[i], t, d, x) == occ(es, t, d, x) + entry_occ(e, t, d, x),
    decreases es.len(),
{
    let u = es.update(i, e);
    if i < es.len() - 1 {
        assert(u.drop_last() =~= es.drop_last().update(i, e));
        lemma_occ_update(es.drop_last(), i, e, t, d, x);
    } else {
        assert(u.drop_last() =~= es.drop_last());
    }
}

pub proof fn lemma_occ_remove(es: Seq<PoolEntry>, i: int, t: Rational, d: InputDifficulty, x: Seq<i32>)
    requires
        0 <= i < es.len(),
    ensures
        occ(es.remove(i), t, d, x) + entry_occ(es[i], t, d, x) == occ(es, t, d, x),
    decreases es.len(),
{
    let u = es.remove(i);
    if i < es.len() - 1 {
        assert(u.drop_last() =~= es.drop_last().remove(i));
        assert(u.last() == es.last());
        lemma_occ_remove(es.drop_last(), i, t, d, x);
    } else {
        assert(u =~= es.drop_last());
    }
}

/// Removing the input at `i` takes one occurrence of it out of the list.
pub proof fn lemma_list_count_remove(l: Seq<Vec<i32>>, i: int, x: Seq<i32>)
    requires
        0 <= i < l.len(),
    ensures
        list_count(l.remove(i), x) + (if l[i]@ == x { 1nat } else { 0nat }) == list_count(l, x),
    decreases l.len(),
{
    let u = l.remove(i);
    if i < l.len() - 1 {
        assert(u.drop_last() =~= l.drop_last().remove(i));
        assert(u.last() == l.last());
        lemma_list_count_remove(l.drop_last(), i, x);
    } else {
        assert(u =~= l.drop_last());
    }
}

pub proof fn lemma_occ_absent(es: Seq<PoolEntry>, t: Rational, d: InputDifficulty, x: Seq<i32>)
    requires
        forall|i: int| 0 <= i < es.len() ==> !(#[trigger] es[i]).target.same(t),
    ensures
        occ(es, t, d, x) == 0,
    decreases es.len(),
{
    if es.len() > 0 {
        lemma_occ_absent(es.drop_last(), t, d, x);
    }
}

/// A copy of a list of inputs.
pub fn copy_pool(l: &Vec<Vec<i32>>) -> (r: Vec<Vec<i32>>)
    ensures
        r@.len() == l@.len(),
        forall|k: int| 0 <= k < r@.len() ==> (#[trigger] r@[k])@ == l@[k]@,
{
    let mut r: Vec<Vec<i32>> = Vec::new();
    let mut k: usize = 0;
    while k < l.len()
        invariant
            k <= l@.len(),
            r@.len() == k,
            forall|t: int| 0 <= t < k ==> (#[trigger] r@[t])@ == l@[t]@,
        decreases l@.len() - k,
    {
        r.push(copy_input(&l[k]));
        k += 1;
    }
    r
}

impl PoolMap {
    pub open spec fn wf(&self) -> bool {
        targets_distinct(self.entries@)
    }

    /// A copy: the same targets, in order, each with copies of its pools.
    pub fn duplicate(&self) -> (r: PoolMap)
        ensures
            r.entries@.len() == self.entries@.len(),
            forall|i: int| 0 <= i < r.entries@.len() ==> (#[trigger] r.entries@[i]).target == self.entries@[i].target,
            forall|i: int, d: InputDifficulty| 0 <= i < r.entries@.len()
                ==> (#[trigger] r.entries@[i].pools.tier(d)).len() == self.entries@[i].pools.tier(d).len(),
            self.wf() ==> r.wf(),
    {
        let mut entries: Vec<PoolEntry> = Vec::new();
        let mut i: usize = 0;
        while i < self.entries.len()
            invariant
                i <= self.entries@.len(),
                entries@.len() == i,
                forall|k: int| 0 <= k < i ==> (#[trigger] entries@[k]).target == self.entries@[k].target,
                forall|k: int, d: InputDifficulty| 0 <= k < i
                    ==> (#[trigger] entries@[k].pools.tier(d)).len() == self.entries@[k].pools.tier(d).len(),
            decreases self.entries@.len() - i,
        {
            let e = &self.entries[i];
            let pools = DifficultyPools { easy: copy_pool(&e.pools.easy), moderate: copy_pool(&e.pools.moderate), hard: copy_pool(&e.pools.hard) };
            entries.push(PoolEntry { target: e.target, pools });
            i += 1;
        }
        PoolMap { entries }
    }

    pub fn new() -> (r: PoolMap)
        ensures
            r.wf(),
            r.entries@.len() == 0,
    {
        PoolMap { entries: Vec::new() }
    }

    /// Position of the entry whose target stands for `t`.
    pub fn find(&self, t: &Rational) -> (r: Option<usize>)
        requires
            self.wf(),
            t.wf(),
        ensures
            r matches Some(i) ==> i < self.entries@.len() && self.entries@[i as int].target.same(*t),
            r is None ==> forall|i: int| 0 <= i < self.entries@.len() ==> !(#[trigger] self.entries@[i]).target.same(*t),
    {
        let mut i: usize = 0;
        while i < self.entries.len()
            invariant
                self.wf(),
                t.wf(),
                i <= self.entries@.len(),
                forall|k: int| 0 <= k < i ==> !(#[trigger] self.entries@[k]).target.same(*t),
            decreases self.entries@.len() - i,
        {
            if self.entries[i].target.same_value(t) {
                return Some(i);
            }
            i += 1;
        }
        None
    }

    /// Files a ranked input under its target, adding the target on first sight.
    pub fn file_ranking(&mut self, item: &InputRanking)
        requires
            old(self).wf(),
            item.target.wf(),
        ensures
            final(self).wf(),
            populated(old(self).entries@) ==> populated(final(self).entries@),
            forall|t: Rational, d: InputDifficulty, x: Seq<i32>| t.wf() ==> #[trigger] occ(final(self).entries@, t, d, x)
                == occ(old(self).entries@, t, d, x) + if ranking_matches(*item, t, d, x) { 1nat } else { 0nat },
    {
        let ghost es = self.entries@;
        match self.find(&item.target) {
            Some(i) => {
                let mut e = self.entries.remove(i);
                let ghost old_e = e;
                insert_input_into_pool(item, &mut e.pools);
                let ghost new_e = e;
                self.entries.insert(i, e);
                proof {
                    assert(self.entries@ =~= es.update(i as int, new_e));
                    assert forall|t: Rational, d: InputDifficulty, x: Seq<i32>| t.wf() implies #[trigger] occ(self.entries@, t, d, x)
                        == occ(es, t, d, x) + if ranking_matches(*item, t, d, x) { 1nat } else { 0nat } by {
                        lemma_occ_update(es, i as int, new_e, t, d, x);
                        lemma_same_trans(old_e.target, item.target, t);
                        assert(list_count(new_e.pools.tier(d), x) == list_count(old_e.pools.tier(d), x)
                            + if d == item.difficulty && item.input@ == x { 1nat } else { 0nat });
                    }
                    assert forall|a: int, b: int| 0 <= a < b < self.entries@.len()
                        implies !(#[trigger] self.entries@[a]).target.same(#[trigger] self.entries@[b].target) by {
                        assert(es[a].target == self.entries@[a].target && es[b].target == self.entries@[b].target);
                    }
                    assert forall|a: int| 0 <= a < self.entries@.len() implies (#[trigger] self.entries@[a]).target.wf() by {
                        assert(es[a].target == self.entries@[a].target);
                    }
                    assert(new_e.pools.tier(item.difficulty).len() > 0);
                    assert(new_e.pools.size() > 0);
                    if populated(es) {
                        assert forall|a: int| 0 <= a < self.entries@.len() implies (#[trigger] self.entries@[a]).pools.size() > 0 by {
                            if a != i { assert(self.entries@[a] == es[a]); }
                        }
                    }
                }
            },
            None => {
                let mut pools = DifficultyPools::new();
                insert_input_into_pool(item, &mut pools);
                let e = PoolEntry { target: item.target, pools };
                self.entries.push(e);
                proof {
                    assert(self.entries@.drop_last() == es);
                    assert forall|t: Rational, d: InputDifficulty, x: Seq<i32>| t.wf() implies #[trigger] occ(self.entries@, t, d, x)
                        == occ(es, t, d, x) + if ranking_matches(*item, t, d, x) { 1nat } else { 0nat } by {
                        assert(list_count(e.pools.tier(d), x) == list_count(Seq::<Vec<i32>>::empty(), x)
                            + if d == item.difficulty && item.input@ == x { 1nat } else { 0nat });
                    }
                    assert forall|a: int, b: int| 0 <= a < b < self.entries@.len()
                        implies !(#[trigger] self.entries@[a]).target.same(#[trigger] self.entries@[b].target) by {
                        if b == es.len() {
                            if es[a].target.same(item.target) {
                                lemma_same_trans(es[a].target, item.target, item.target);
                            }
                        } else {
                            assert(es[a] == self.entries@[a] && es[b] == self.entries@[b]);
                        }
                    }
                    assert forall|a: int| 0 <= a < self.entries@.len() implies (#[trigger] self.entries@[a]).target.wf() by {
                        if a < es.len() {
                            assert(es[a] == self.entries@[a]);
                        }
                    }
                    assert(e.pools.tier(item.difficulty).len() > 0);
                    assert(e.pools.size() > 0);
                    if populated(es) {
                        assert forall|a: int| 0 <= a < self.entries@.len() implies (#[trigger] self.entries@[a]).pools.size() > 0 by {
                            if a < es.len() { assert(self.entries@[a] == es[a]); }
                        }
                    }
                }
            },
        }
    }
}

proof fn lemma_filing_step(roots: Seq<UnidirectionalNode>, q: int, rs: Seq<InputRanking>, before: Seq<PoolEntry>, after: Seq<PoolEntry>)
    requires
        0 <= q < roots.len(),
        faithful(roots[q]),
        forall|k: int| 0 <= k < rs.len() ==> (#[trigger] rs[k]).target.wf()
            && rs[k].input@ == whole_values(roots[q].values())
            && paths_to(roots[q], rs[k].target) > 0
            && rs[k].difficulty == difficulty_of(paths_to(roots[q], rs[k].target)),
        forall|a: int, b: int| 0 <= a < b < rs.len() ==> !(#[trigger] rs[a]).target.same(#[trigger] rs[b].target),
        forall|y: Rational| y.wf() && #[trigger] paths_to(roots[q], y) > 0 ==> exists|k: int| 0 <= k < rs.len() && (#[trigger] rs[k]).target.same(y),
        forall|t: Rational, d: InputDifficulty, x: Seq<i32>| t.wf() ==> #[trigger] occ(before, t, d, x)
            == filed_upto(roots, q, t, d, x),
        forall|t: Rational, d: InputDifficulty, x: Seq<i32>| t.wf() ==> #[trigger] occ(after, t, d, x)
            == occ(before, t, d, x) + matches_upto(rs, rs.len() as int, t, d, x),
    ensures
        forall|t: Rational, d: InputDifficulty, x: Seq<i32>| t.wf() ==> #[trigger] occ(after, t, d, x)
            == filed_upto(roots, q + 1, t, d, x),
{
    assert forall|t: Rational, d: InputDifficulty, x: Seq<i32>| t.wf() implies #[trigger] occ(after, t, d, x)
        == filed_upto(roots, q + 1, t, d, x) by {
        lemma_rankings_file(roots[q], rs, t, d, x);
        assert(occ(before, t, d, x) == filed_upto(roots, q, t, d, x));
    }
}

/// Files every ranking of one input.
fn file_rankings(map: &mut PoolMap, ranking: &Vec<InputRanking>)
    requires
        old(map).wf(),
        forall|k: int| 0 <= k < ranking@.len() ==> (#[trigger] ranking@[k]).target.wf(),
    ensures
        final(map).wf(),
        populated(old(map).entries@) ==> populated(final(map).entries@),
        forall|t: Rational, d: InputDifficulty, x: Seq<i32>| t.wf() ==> #[trigger] occ(final(map).entries@, t, d, x)
            == occ(old(map).entries@, t, d, x) + matches_upto(ranking@, ranking@.len() as int, t, d, x),
{
    let ghost start = map.entries@;
    let mut k: usize = 0;
    while k < ranking.len()
        invariant
            map.wf(),
            populated(start) ==> populated(map.entries@),
            k <= ranking@.len(),
            forall|k: int| 0 <= k < ranking@.len() ==> (#[trigger] ranking@[k]).target.wf(),
            forall|t: Rational, d: InputDifficulty, x: Seq<i32>| t.wf() ==> #[trigger] occ(map.entries@, t, d, x)
                == occ(start, t, d, x) + matches_upto(ranking@, k as int, t, d, x),
        decreases ranking@.len() - k,
    {
        map.file_ranking(&ranking[k]);
        k += 1;
    }
}

/// Ranks every root and files each ranking: afterwards an input is filed for
/// a target under a tier once for each root of that input that reaches the
/// target by a number of paths of that tier.
pub fn rank_all_inputs(root_nodes: &Vec<UnidirectionalNode>) -> (r: PoolMap)
    requires
        forall|q: int| 0 <= q < root_nodes@.len() ==> rankable(#[trigger] root_nodes@[q]),
    ensures
        r.wf(),
        populated(r.entries@),
        forall|t: Rational, d: InputDifficulty, x: Seq<i32>| t.wf() ==> #[trigger] occ(r.entries@, t, d, x)
            == filed_upto(root_nodes@, root_nodes@.len() as int, t, d, x),
        (forall|a: int, b: int| 0 <= a < b < root_nodes@.len()
            ==> whole_values((#[trigger] root_nodes@[a]).values()) != whole_values((#[trigger] root_nodes@[b]).values()))
            ==> files_once(r.entries@),
{
    let mut ranked_inputs = PoolMap::new();
    let mut q: usize = 0;
    while q < root_nodes.len()
        invariant
            q <= root_nodes@.len(),
            forall|q: int| 0 <= q < root_nodes@.len() ==> rankable(#[trigger] root_nodes@[q]),
            ranked_inputs.wf(),
            populated(ranked_inputs.entries@),
            forall|t: Rational, d: InputDifficulty, x: Seq<i32>| t.wf() ==> #[trigger] occ(ranked_inputs.entries@, t, d, x)
                == filed_upto(root_nodes@, q as int, t, d, x),
        decreases root_nodes@.len() - q,
    {
        let root = &root_nodes[q];
        assert(rankable(root_nodes@[q as int]));
        let ranking = rank_input(root);
        let ghost before = ranked_inputs.entries@;
        file_rankings(&mut ranked_inputs, &ranking);
        proof {
            lemma_filing_step(root_nodes@, q as int, ranking@, before, ranked_inputs.entries@);
        }
        q += 1;
    }
    proof {
        if forall|a: int, b: int| 0 <= a < b < root_nodes@.len()
            ==> whole_values((#[trigger] root_nodes@[a]).values()) != whole_values((#[trigger] root_nodes@[b]).values()) {
            assert forall|t: Rational, x: Seq<i32>| t.wf() implies #[trigger] occ(ranked_inputs.entries@, t, InputDifficulty::Easy, x)
                + occ(ranked_inputs.entries@, t, InputDifficulty::Moderate, x) + occ(ranked_inputs.entries@, t, InputDifficulty::Hard, x) <= 1 by {
                lemma_filed_once(root_nodes@, root_nodes@.len() as int, t, x);
            }
        }
    }
    ranked_inputs
}

/// Over roots of pairwise different inputs, an input is filed at most once
/// for a target, over all tiers; never when no root has that input.
proof fn lemma_filed_once(roots: Seq<UnidirectionalNode>, i: int, t: Rational, x: Seq<i32>)
    requires
        0 <= i <= roots.len(),
        forall|a: int, b: int| 0 <= a < b < roots.len()
            ==> whole_values((#[trigger] roots[a]).values()) != whole_values((#[trigger] roots[b]).values()),
    ensures
        filed_upto(roots, i, t, InputDifficulty::Easy, x) + filed_upto(roots, i, t, InputDifficulty::Moderate, x)
            + filed_upto(roots, i, t, InputDifficulty::Hard, x) <= 1,
        (forall|q: int| 0 <= q < i ==> whole_values((#[trigger] roots[q]).values()) != x) ==>
            filed_upto(roots, i, t, InputDifficulty::Easy, x) + filed_upto(roots, i, t, InputDifficulty::Moderate, x)
                + filed_upto(roots, i, t, InputDifficulty::Hard, x) == 0,
    decreases i,
{
    if i > 0 {
        lemma_filed_once(roots, i - 1, t, x);
        let root = roots[i - 1];
        if whole_values(root.values()) == x {
            assert forall|q: int| 0 <= q < i - 1 implies whole_values((#[trigger] roots[q]).values()) != x by {
                assert(whole_values(roots[q].values()) != whole_values(roots[i - 1].values()));
            }
        }
    }
}

} // verus!
