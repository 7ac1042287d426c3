//! Drawing boards from the pools: each board is an input, a target it
//! reaches and the tier it was drawn from, and no filed input is used twice.
use crate::frequency::lemma_same_trans;
use crate::pools::{
    entry_occ, files_once, lemma_list_count_remove, preference, lemma_occ_remove, lemma_occ_update, list_count, occ, DifficultyPools,
    InputDifficulty, PoolEntry, PoolMap,
};
use crate::rational::{value_is_integer, value_is_positive_integer, Rational};
use vstd::prelude::*;

verus! {

/// Relies on `rand::random`: a value drawn from the thread's generator.
/// Nothing is known of it.
pub assume_specification<T>[ rand::random::<T> ]() -> (r: T)
    where
        rand::distributions::Standard: rand::distributions::Distribution<T>,
;

/// Which targets a caller accepts when the target is left open.
#[derive(Clone, Copy, Debug, PartialEq, Eq, Structural)]
pub enum TargetValidator {
    /// Whole numbers.
    Integer,
    /// Whole numbers that are not negative.
    PositiveInteger,
}

pub open spec fn accepts(v: Option<TargetValidator>, t: Rational) -> bool {
    match v {
        None => true,
        Some(TargetValidator::Integer) => t.is_integer(),
        Some(TargetValidator::PositiveInteger) => t.is_integer() && t.num_int() >= 0,
    }
}

pub fn validator_accepts(v: Option<TargetValidator>, t: Rational) -> (r: bool)
    requires
        t.wf(),
    ensures
        r == accepts(v, t),
{
    match v {
        None => true,
        Some(TargetValidator::Integer) => value_is_integer(t),
        Some(TargetValidator::PositiveInteger) => value_is_positive_integer(t),
    }
}

/// A request for boards: how many, a fixed target or none, which targets
/// are acceptable when none is fixed, and the tiers asked for.
pub struct SetConfig {
    pub size: usize,
    pub target: Option<Rational>,
    pub validator: Option<TargetValidator>,
    pub difficulties: Vec<InputDifficulty>,
}

impl SetConfig {
    pub fn new(
        size: usize,
        target_value: Option<Rational>,
        validator_func: Option<TargetValidator>,
        difficulties: Vec<InputDifficulty>,
    ) -> (r: SetConfig)
        ensures
            r.size == size,
            r.target == target_value,
            r.validator == validator_func,
            r.difficulties@ == difficulties@,
    {
        SetConfig { size, target: target_value, validator: validator_func, difficulties }
    }

    /// A fixed target is a number, and boards are asked for only with some
    /// tier to draw them from.
    pub open spec fn wf(&self) -> bool {
        &&& self.target matches Some(t) ==> t.wf()
        &&& self.size > 0 ==> self.difficulties@.len() > 0
    }

    /// Boards for this request may have target `t`.
    pub open spec fn eligible(&self, t: Rational) -> bool {
        match self.target {
            Some(f) => t.same(f),
            None => accepts(self.validator, t),
        }
    }
}

/// One puzzle: the input, the target to reach, and the tier it came from.
#[derive(Clone, Debug)]
pub struct Board {
    pub input: Vec<i32>,
    pub target: Rational,
    pub difficulty: InputDifficulty,
}

/// Some tier that the request asks for holds an input.
pub open spec fn requested(p: DifficultyPools, ds: Seq<InputDifficulty>) -> bool {
    exists|k: int| 0 <= k < ds.len() && p.tier(#[trigger] ds[k]).len() > 0
}

/// The sum of `f` over the entries.
pub open spec fn sum_entries(es: Seq<PoolEntry>, f: spec_fn(PoolEntry) -> nat) -> nat
    decreases es.len(),
{
    if es.len() == 0 {
        0
    } else {
        sum_entries(es.drop_last(), f) + f(es.last())
    }
}

/// Inputs under targets the request accepts.
pub open spec fn avail(es: Seq<PoolEntry>, cfg: SetConfig) -> nat {
    sum_entries(es, avail_part(cfg))
}

pub open spec fn avail_part(cfg: SetConfig) -> spec_fn(PoolEntry) -> nat {
    |e: PoolEntry| if cfg.eligible(e.target) { e.pools.size() } else { 0 }
}

pub open spec fn kept_part(cfg: SetConfig) -> spec_fn(PoolEntry) -> nat {
    |e: PoolEntry| if cfg.eligible(e.target) && requested(e.pools, cfg.difficulties@) { e.pools.size() } else { 0 }
}

/// Inputs under accepted targets whose pools hold some requested tier.
pub open spec fn kept_avail(es: Seq<PoolEntry>, cfg: SetConfig) -> nat {
    sum_entries(es, kept_part(cfg))
}

/// What a request can draw from `pool_map`: inputs under accepted targets
/// whose pools hold an input of a requested tier.
pub open spec fn supply(pool_map: PoolMap, cfg: SetConfig) -> nat {
    kept_avail(pool_map.entries@, cfg)
}

/// Boards that hold `x` for target `t` from tier `d`.
pub open spec fn drawn(bs: Seq<Board>, t: Rational, d: InputDifficulty, x: Seq<i32>) -> nat
    decreases bs.len(),
{
    if bs.len() == 0 {
        0
    } else {
        drawn(bs.drop_last(), t, d, x) + if bs.last().target.same(t) && bs.last().difficulty == d && bs.last().input@ == x { 1nat } else { 0nat }
    }
}

proof fn lemma_sum_update(es: Seq<PoolEntry>, i: int, e: PoolEntry, f: spec_fn(PoolEntry) -> nat)
    requires
        0 <= i < es.len(),
    ensures
        sum_entries(es.update(i, e), f) + f(es[i]) == sum_entries(es, f) + f(e),
    decreases es.len(),
{
    let u = es.update(i, e);
    if i < es.len() - 1 {
        assert(u.drop_last() =~= es.drop_last().update(i, e));
        lemma_sum_update(es.drop_last(), i, e, f);
    } else {
        assert(u.drop_last() =~= es.drop_last());
    }
}

proof fn lemma_sum_remove(es: Seq<PoolEntry>, i: int, f: spec_fn(PoolEntry) -> nat)
    requires
        0 <= i < es.len(),
    ensures
        sum_entries(es.remove(i), f) + f(es[i]) == sum_entries(es, f),
    decreases es.len(),
{
    let u = es.remove(i);
    if i < es.len() - 1 {
        assert(u.drop_last() =~= es.drop_last().remove(i));
        assert(u.last() == es.last());
        lemma_sum_remove(es.drop_last(), i, f);
    } else {
        assert(u =~= es.drop_last());
    }
}

proof fn lemma_sum_zero(es: Seq<PoolEntry>, f: spec_fn(PoolEntry) -> nat)
    requires
        forall|i: int| 0 <= i < es.len() ==> f(#[trigger] es[i]) == 0,
    ensures
        sum_entries(es, f) == 0,
    decreases es.len(),
{
    if es.len() > 0 {
        assert forall|i: int| 0 <= i < es.drop_last().len() implies f(#[trigger] es.drop_last()[i]) == 0 by {
            assert(es.drop_last()[i] == es[i]);
        }
        lemma_sum_zero(es.drop_last(), f);
        assert(f(es[es.len() - 1]) == 0);
    }
}

proof fn lemma_sum_same(es: Seq<PoolEntry>, f: spec_fn(PoolEntry) -> nat, g: spec_fn(PoolEntry) -> nat)
    requires
        forall|i: int| 0 <= i < es.len() ==> f(#[trigger] es[i]) == g(es[i]),
    ensures
        sum_entries(es, f) == sum_entries(es, g),
    decreases es.len(),
{
    if es.len() > 0 {
        assert forall|i: int| 0 <= i < es.drop_last().len() implies f(#[trigger] es.drop_last()[i]) == g(es.drop_last()[i]) by {
            assert(es.drop_last()[i] == es[i]);
        }
        lemma_sum_same(es.drop_last(), f, g);
        assert(f(es[es.len() - 1]) == g(es[es.len() - 1]));
    }
}

proof fn lemma_distinct_remove(es: Seq<PoolEntry>, i: int)
    requires
        crate::pools::targets_distinct(es),
        0 <= i < es.len(),
    ensures
        crate::pools::targets_distinct(es.remove(i)),
{
    let u = es.remove(i);
    assert forall|a: int| 0 <= a < u.len() implies (#[trigger] u[a]).target.wf() by {
        if a < i { assert(u[a] == es[a]); } else { assert(u[a] == es[a + 1]); }
    }
    assert forall|a: int, b: int| 0 <= a < b < u.len() implies !(#[trigger] u[a]).target.same(#[trigger] u[b].target) by {
        let a2 = if a < i { a } else { a + 1 };
        let b2 = if b < i { b } else { b + 1 };
        assert(u[a] == es[a2] && u[b] == es[b2]);
    }
}

/// Whether some tier of `ds` holds an input.
fn has_requested(p: &DifficultyPools, ds: &Vec<InputDifficulty>) -> (r: bool)
    ensures
        r == requested(*p, ds@),
{
    let mut k: usize = 0;
    while k < ds.len()
        invariant
            k <= ds@.len(),
            forall|t: int| 0 <= t < k ==> p.tier(#[trigger] ds@[t]).len() == 0,
        decreases ds@.len() - k,
    {
        if p.get_pool(ds[k]).len() > 0 {
            return true;
        }
        k += 1;
    }
    false
}

/// The entries of `es` that hold an input in a tier of `ds`, unchanged and in
/// order.
pub open spec fn kept_entries(es: Seq<PoolEntry>, ds: Seq<InputDifficulty>) -> Seq<PoolEntry>
    decreases es.len(),
{
    if es.len() == 0 {
        Seq::empty()
    } else if requested(es[0].pools, ds) {
        seq![es[0]] + kept_entries(es.drop_first(), ds)
    } else {
        kept_entries(es.drop_first(), ds)
    }
}

/// Drops the targets none of whose requested tiers holds an input.
pub fn remove_inputs_without_matching_difficulties(pool_map: PoolMap, valid_difficulties: &Vec<InputDifficulty>) -> (r: PoolMap)
    requires
        pool_map.wf(),
    ensures
        r.wf(),
        r.entries@ == kept_entries(pool_map.entries@, valid_difficulties@),
        forall|k: int| 0 <= k < r.entries@.len() ==> requested((#[trigger] r.entries@[k]).pools, valid_difficulties@),
        forall|t: Rational, d: InputDifficulty, x: Seq<i32>| #[trigger] occ(r.entries@, t, d, x) <= occ(pool_map.entries@, t, d, x),
        forall|cfg: SetConfig| cfg.difficulties@ == valid_difficulties@ ==> #[trigger] avail(r.entries@, cfg) == kept_avail(pool_map.entries@, cfg),
{
    let ghost orig = pool_map.entries@;
    let ghost ds = valid_difficulties@;
    let mut pm = pool_map;
    let mut i: usize = pm.entries.len();
    while i > 0
        invariant
            pm.wf(),
            i <= pm.entries@.len(),
            ds == valid_difficulties@,
            i <= orig.len(),
            pm.entries@ == orig.subrange(0, i as int) + kept_entries(orig.subrange(i as int, orig.len() as int), ds),
            forall|k: int| i <= k < pm.entries@.len() ==> requested((#[trigger] pm.entries@[k]).pools, ds),
            forall|t: Rational, d: InputDifficulty, x: Seq<i32>| #[trigger] occ(pm.entries@, t, d, x) <= occ(orig, t, d, x),
            forall|cfg: SetConfig| cfg.difficulties@ == ds ==> #[trigger] kept_avail(pm.entries@, cfg) == kept_avail(orig, cfg),
        decreases i,
    {
        i -= 1;
        let ghost tail = orig.subrange(i as int, orig.len() as int);
        proof {
            assert(tail.drop_first() =~= orig.subrange(i as int + 1, orig.len() as int));
            assert(pm.entries@[i as int] == orig[i as int]);
            assert(tail[0] == orig[i as int]);
        }
        if !has_requested(&pm.entries[i].pools, valid_difficulties) {
            let ghost cur = pm.entries@;
            proof {
                lemma_distinct_remove(cur, i as int);
            }
            pm.entries.remove(i);
            proof {
                assert forall|t: Rational, d: InputDifficulty, x: Seq<i32>| #[trigger] occ(pm.entries@, t, d, x) <= occ(orig, t, d, x) by {
                    lemma_occ_remove(cur, i as int, t, d, x);
                }
                assert forall|cfg: SetConfig| cfg.difficulties@ == ds implies #[trigger] kept_avail(pm.entries@, cfg) == kept_avail(orig, cfg) by {
                    lemma_sum_remove(cur, i as int, kept_part(cfg));
                    assert(!requested(cur[i as int].pools, cfg.difficulties@));
                    assert(kept_part(cfg)(cur[i as int]) == 0);
                    assert(kept_avail(cur, cfg) == kept_avail(orig, cfg));
                }
                assert forall|k: int| i <= k < pm.entries@.len() implies requested((#[trigger] pm.entries@[k]).pools, ds) by {
                    assert(pm.entries@[k] == cur[k + 1]);
                }
                assert(pm.entries@ =~= orig.subrange(0, i as int) + kept_entries(tail, ds));
            }
        } else {
            assert(pm.entries@ =~= orig.subrange(0, i as int) + kept_entries(tail, ds));
        }
    }
    assert(orig.subrange(0, 0) + kept_entries(orig.subrange(0, orig.len() as int), ds) =~= kept_entries(orig, ds)) by {
        assert(orig.subrange(0, orig.len() as int) =~= orig);
    }
    proof {
        assert forall|cfg: SetConfig| cfg.difficulties@ == ds implies #[trigger] avail(pm.entries@, cfg) == kept_avail(orig, cfg) by {
            assert forall|k: int| 0 <= k < pm.entries@.len() implies avail_part(cfg)(#[trigger] pm.entries@[k]) == kept_part(cfg)(pm.entries@[k]) by {
                assert(requested(pm.entries@[k].pools, ds));
            }
            lemma_sum_same(pm.entries@, avail_part(cfg), kept_part(cfg));
            assert(kept_avail(pm.entries@, cfg) == kept_avail(orig, cfg));
        }
    }
    pm
}

/// A random index below `n`.
fn random_below(n: usize) -> (r: usize)
    requires
        n > 0,
    ensures
        r < n,
{
    rand::random::<usize>() % n
}

/// A random target that `validator` accepts, by its position in the map; an
/// error when the map holds none.
pub fn get_random_viable_target(pool_map: &PoolMap, validator: Option<TargetValidator>) -> (r: Result<usize, String>)
    requires
        pool_map.wf(),
    ensures
        r matches Ok(i) ==> i < pool_map.entries@.len() && accepts(validator, pool_map.entries@[i as int].target),
        r is Err ==> forall|i: int| 0 <= i < pool_map.entries@.len() ==> !accepts(validator, #[trigger] pool_map.entries@[i].target),
{
    let n = pool_map.entries.len();
    let mut keys: Vec<usize> = Vec::new();
    let mut k: usize = 0;
    while k < n
        invariant
            k <= n == pool_map.entries@.len(),
            keys@.len() == k,
            forall|t: int| 0 <= t < k ==> #[trigger] keys@[t] == t,
        decreases n - k,
    {
        keys.push(k);
        k += 1;
    }
    assert forall|i: int| 0 <= i < n implies (exists|t: int| 0 <= t < keys@.len() && #[trigger] keys@[t] == i)
        || !accepts(validator, #[trigger] pool_map.entries@[i].target) by {
        assert(keys@[i] == i);
    }
    while keys.len() > 0
        invariant
            n == pool_map.entries@.len(),
            pool_map.wf(),
            forall|t: int| 0 <= t < keys@.len() ==> #[trigger] keys@[t] < n,
            forall|i: int| 0 <= i < n ==> (exists|t: int| 0 <= t < keys@.len() && #[trigger] keys@[t] == i)
                || !accepts(validator, #[trigger] pool_map.entries@[i].target),
        decreases keys@.len(),
    {
        let idx = random_below(keys.len());
        let key = keys[idx];
        if validator_accepts(validator, pool_map.entries[key].target) {
            return Ok(key);
        }
        let ghost old_keys = keys@;
        keys.remove(idx);
        proof {
            assert forall|i: int| 0 <= i < n implies (exists|t: int| 0 <= t < keys@.len() && #[trigger] keys@[t] == i)
                || !accepts(validator, #[trigger] pool_map.entries@[i].target) by {
                if accepts(validator, pool_map.entries@[i].target) {
                    let t = choose|t: int| 0 <= t < old_keys.len() && #[trigger] old_keys[t] == i;
                    if t < idx {
                        assert(keys@[t] == i);
                    } else {
                        assert(t != idx);
                        assert(keys@[t - 1] == i);
                    }
                }
            }
            assert forall|t: int| 0 <= t < keys@.len() implies #[trigger] keys@[t] < n by {
                if t < idx { assert(keys@[t] == old_keys[t]); } else { assert(keys@[t] == old_keys[t + 1]); }
            }
        }
    }
    Err("Ran out of viable targets.".to_string())
}

/// For the target at `target`, the populated tier nearest to `difficulty`
/// and a random position in it; an error when all its tiers are empty.
pub fn get_input_of_difficulty_for_target(pool_map: &PoolMap, target: usize, difficulty: InputDifficulty) -> (r: Result<(usize, InputDifficulty), String>)
    requires
        target < pool_map.entries@.len(),
    ensures
        r is Ok <==> pool_map.entries@[target as int].pools.size() > 0,
        r matches Ok((idx, d)) ==> pool_map.entries@[target as int].pools.closest(difficulty) == Some(d)
            && idx < pool_map.entries@[target as int].pools.tier(d).len(),
{
    let difficulty_pools = &pool_map.entries[target].pools;
    match difficulty_pools.get_closest_matching_populated_pool(difficulty) {
        Ok(d) => {
            let pool = difficulty_pools.get_pool(d);
            let idx = random_below(pool.len());
            Ok((idx, d))
        },
        Err(e) => Err(e),
    }
}

/// Inputs in tier `e` under target `t`.
pub open spec fn tier_total(es: Seq<PoolEntry>, t: Rational, e: InputDifficulty) -> nat
    decreases es.len(),
{
    if es.len() == 0 {
        0
    } else {
        tier_total(es.drop_last(), t, e) + if es.last().target.same(t) { es.last().pools.tier(e).len() } else { 0 }
    }
}

/// Boards drawn from tier `e` of target `t`.
pub open spec fn drawn_tier(bs: Seq<Board>, t: Rational, e: InputDifficulty) -> nat
    decreases bs.len(),
{
    if bs.len() == 0 {
        0
    } else {
        drawn_tier(bs.drop_last(), t, e) + if bs.last().target.same(t) && bs.last().difficulty == e { 1nat } else { 0nat }
    }
}

/// Every input of tier `e` under target `t` in `start` went to a board of
/// `before`.
pub open spec fn used_up(start: Seq<PoolEntry>, before: Seq<Board>, t: Rational, e: InputDifficulty) -> bool {
    drawn_tier(before, t, e) >= tier_total(start, t, e)
}

/// Asked for tier `r`, a board for target `t` drawn after the boards
/// `before` comes from `d`: `r` itself unless used up, else the nearest tier
/// of `preference(r)` not used up.
pub open spec fn nearest_tier(start: Seq<PoolEntry>, before: Seq<Board>, t: Rational, r: InputDifficulty, d: InputDifficulty) -> bool {
    let p = preference(r);
    if !used_up(start, before, t, p[0]) {
        d == p[0]
    } else if !used_up(start, before, t, p[1]) {
        d == p[1]
    } else {
        d == p[2]
    }
}

proof fn lemma_tier_total_at(es: Seq<PoolEntry>, i: int, e: InputDifficulty)
    requires
        crate::pools::targets_distinct(es),
        0 <= i < es.len(),
    ensures
        tier_total(es, es[i].target, e) == es[i].pools.tier(e).len(),
    decreases es.len(),
{
    let last = es.len() - 1;
    let d = es.drop_last();
    assert(crate::pools::targets_distinct(d)) by {
        assert forall|a: int| 0 <= a < d.len() implies (#[trigger] d[a]).target.wf() by { assert(d[a] == es[a]); }
        assert forall|a: int, b: int| 0 <= a < b < d.len() implies !(#[trigger] d[a]).target.same(#[trigger] d[b].target) by {
            assert(d[a] == es[a] && d[b] == es[b]);
        }
    }
    if i == last {
        lemma_tier_total_absent(d, es[i].target, e);
    } else {
        assert(d[i] == es[i]);
        lemma_tier_total_at(d, i, e);
        if es[last].target.same(es[i].target) {
            lemma_same_trans(es[last].target, es[i].target, es[i].target);
        }
    }
}

proof fn lemma_tier_total_absent(es: Seq<PoolEntry>, t: Rational, e: InputDifficulty)
    requires
        forall|i: int| 0 <= i < es.len() ==> !(#[trigger] es[i]).target.same(t),
    ensures
        tier_total(es, t, e) == 0,
    decreases es.len(),
{
    if es.len() > 0 {
        assert forall|i: int| 0 <= i < es.drop_last().len() implies !(#[trigger] es.drop_last()[i]).target.same(t) by {
            assert(es.drop_last()[i] == es[i]);
        }
        lemma_tier_total_absent(es.drop_last(), t, e);
    }
}

/// Two pool maps with the same targets and the same tier sizes offer the
/// same supply.
pub proof fn lemma_supply_same_shape(a: PoolMap, b: PoolMap, cfg: SetConfig)
    requires
        a.entries@.len() == b.entries@.len(),
        forall|i: int| 0 <= i < a.entries@.len() ==> (#[trigger] a.entries@[i]).target == b.entries@[i].target,
        forall|i: int, d: InputDifficulty| 0 <= i < a.entries@.len()
            ==> (#[trigger] a.entries@[i].pools.tier(d)).len() == b.entries@[i].pools.tier(d).len(),
    ensures
        supply(a, cfg) == supply(b, cfg),
{
    lemma_sum_shape(a.entries@, b.entries@, cfg);
}

proof fn lemma_sum_shape(x: Seq<PoolEntry>, y: Seq<PoolEntry>, cfg: SetConfig)
    requires
        x.len() == y.len(),
        forall|i: int| 0 <= i < x.len() ==> (#[trigger] x[i]).target == y[i].target,
        forall|i: int, d: InputDifficulty| 0 <= i < x.len() ==> (#[trigger] x[i].pools.tier(d)).len() == y[i].pools.tier(d).len(),
    ensures
        kept_avail(x, cfg) == kept_avail(y, cfg),
    decreases x.len(),
{
    if x.len() > 0 {
        let last = x.len() - 1;
        assert(x[last].pools.tier(InputDifficulty::Easy).len() == y[last].pools.tier(InputDifficulty::Easy).len());
        assert(x[last].pools.tier(InputDifficulty::Moderate).len() == y[last].pools.tier(InputDifficulty::Moderate).len());
        assert(x[last].pools.tier(InputDifficulty::Hard).len() == y[last].pools.tier(InputDifficulty::Hard).len());
        assert(requested(x[last].pools, cfg.difficulties@) == requested(y[last].pools, cfg.difficulties@)) by {
            if requested(x[last].pools, cfg.difficulties@) {
                let k = choose|k: int| 0 <= k < cfg.difficulties@.len() && x[last].pools.tier(#[trigger] cfg.difficulties@[k]).len() > 0;
                assert(x[last].pools.tier(cfg.difficulties@[k]).len() == y[last].pools.tier(cfg.difficulties@[k]).len());
            }
            if requested(y[last].pools, cfg.difficulties@) {
                let k = choose|k: int| 0 <= k < cfg.difficulties@.len() && y[last].pools.tier(#[trigger] cfg.difficulties@[k]).len() > 0;
                assert(x[last].pools.tier(cfg.difficulties@[k]).len() == y[last].pools.tier(cfg.difficulties@[k]).len());
            }
        }
        assert forall|i: int| 0 <= i < x.drop_last().len() implies (#[trigger] x.drop_last()[i]).target == y.drop_last()[i].target by {
            assert(x.drop_last()[i] == x[i] && y.drop_last()[i] == y[i]);
        }
        assert forall|i: int, d: InputDifficulty| 0 <= i < x.drop_last().len()
            implies (#[trigger] x.drop_last()[i].pools.tier(d)).len() == y.drop_last()[i].pools.tier(d).len() by {
            assert(x.drop_last()[i] == x[i] && y.drop_last()[i] == y[i]);
        }
        lemma_sum_shape(x.drop_last(), y.drop_last(), cfg);
    }
}

/// No entry that the request accepts holds an input.
proof fn lemma_nothing_left(es: Seq<PoolEntry>, cfg: SetConfig)
    requires
        forall|i: int| 0 <= i < es.len() ==> !cfg.eligible((#[trigger] es[i]).target) || es[i].pools.size() == 0,
    ensures
        avail(es, cfg) == 0,
{
    assert forall|i: int| 0 <= i < es.len() implies avail_part(cfg)(#[trigger] es[i]) == 0 by {}
    lemma_sum_zero(es, avail_part(cfg));
}

/// With a fixed target, only the entry that stands for it is eligible.
proof fn lemma_only_entry(es: Seq<PoolEntry>, i: int, cfg: SetConfig)
    requires
        crate::pools::targets_distinct(es),
        cfg.wf(),
        cfg.target is Some,
        0 <= i < es.len(),
        es[i].target.same(cfg.target->Some_0),
    ensures
        forall|j: int| 0 <= j < es.len() && j != i ==> !cfg.eligible(#[trigger] es[j].target),
{
    let f = cfg.target->Some_0;
    assert forall|j: int| 0 <= j < es.len() && j != i implies !cfg.eligible(#[trigger] es[j].target) by {
        if es[j].target.same(f) {
            lemma_same_trans(es[i].target, f, es[j].target);
            lemma_same_trans(es[j].target, f, es[i].target);
            lemma_same_trans(f, es[i].target, es[j].target);
            lemma_same_trans(es[i].target, es[j].target, es[i].target);
            if i < j {
                assert(!es[i].target.same(es[j].target));
            } else {
                assert(!es[j].target.same(es[i].target));
            }
        }
    }
}

/// Draws `config.size` boards. Each draw picks a requested tier at random,
/// takes the fixed target or a random accepted one, and takes a random input
/// from the populated tier nearest the picked one, which the board records;
/// the input leaves the pools, so no filed input is drawn twice. A target
/// left empty is dropped when the target is open. Succeeds exactly when the
/// supply covers the request.
pub fn get_set_of_inputs(pool_map: PoolMap, config: &SetConfig) -> (r: Result<Vec<Board>, String>)
    requires
        pool_map.wf(),
        config.wf(),
    ensures
        r is Ok <==> supply(pool_map, *config) >= config.size,
        r matches Ok(boards) ==> boards@.len() == config.size,
        r matches Ok(boards) ==> forall|k: int| 0 <= k < boards@.len() ==> config.eligible((#[trigger] boards@[k]).target)
            && boards@[k].target.wf(),
        r matches Ok(boards) ==> forall|t: Rational, d: InputDifficulty, x: Seq<i32>| t.wf() ==>
            #[trigger] drawn(boards@, t, d, x) <= occ(pool_map.entries@, t, d, x),
        r matches Ok(boards) ==> files_once(pool_map.entries@) ==> forall|a: int, b: int| 0 <= a < b < boards@.len()
            ==> !((#[trigger] boards@[a]).target.same((#[trigger] boards@[b]).target) && boards@[a].input@ == boards@[b].input@),
        r matches Ok(boards) ==> forall|k: int| 0 <= k < boards@.len() ==> exists|q: int| 0 <= q < config.difficulties@.len()
            && nearest_tier(kept_entries(pool_map.entries@, config.difficulties@), boards@.subrange(0, k),
                (#[trigger] boards@[k]).target, config.difficulties@[q], boards@[k].difficulty),
{
    let ghost orig = pool_map.entries@;
    let ghost cfg = *config;
    if config.size == 0 {
        return Ok(Vec::new());
    }
    let mut pm = remove_inputs_without_matching_difficulties(pool_map, &config.difficulties);
    let ghost start = pm.entries@;
    assert(avail(pm.entries@, cfg) == kept_avail(orig, cfg));
    proof {
        assert forall|i: int, e: InputDifficulty| 0 <= i < pm.entries@.len() implies
            (#[trigger] pm.entries@[i].pools.tier(e)).len() + drawn_tier(Seq::<Board>::empty(), pm.entries@[i].target, e)
                == tier_total(start, pm.entries@[i].target, e) by {
            lemma_tier_total_at(start, i, e);
        }
    }
    let mut result_vector: Vec<Board> = Vec::new();
    while result_vector.len() < config.size
        invariant
            cfg == *config,
            orig == pool_map.entries@,
            cfg.wf(),
            config.difficulties@.len() > 0,
            pm.wf(),
            result_vector@.len() <= config.size,
            result_vector@.len() + avail(pm.entries@, cfg) == kept_avail(orig, cfg),
            forall|k: int| 0 <= k < result_vector@.len() ==> cfg.eligible((#[trigger] result_vector@[k]).target)
                && result_vector@[k].target.wf(),
            forall|t: Rational, d: InputDifficulty, x: Seq<i32>| t.wf() ==>
                #[trigger] drawn(result_vector@, t, d, x) + occ(pm.entries@, t, d, x) <= occ(orig, t, d, x),
            start == kept_entries(orig, cfg.difficulties@),
            crate::pools::targets_distinct(start),
            forall|i: int, e: InputDifficulty| 0 <= i < pm.entries@.len() ==>
                (#[trigger] pm.entries@[i].pools.tier(e)).len() + drawn_tier(result_vector@, pm.entries@[i].target, e)
                    == tier_total(start, pm.entries@[i].target, e),
            forall|k: int| 0 <= k < result_vector@.len() ==> exists|q: int| 0 <= q < cfg.difficulties@.len()
                && nearest_tier(start, result_vector@.subrange(0, k),
                    (#[trigger] result_vector@[k]).target, cfg.difficulties@[q], result_vector@[k].difficulty),
        decreases avail(pm.entries@, cfg), pm.entries@.len(),
    {
        let q = random_below(config.difficulties.len());
        let difficulty = config.difficulties[q];
        let target_index: usize = match config.target {
            Some(t) => match pm.find(&t) {
                Some(i) => i,
                None => {
                    proof {
                        lemma_nothing_left(pm.entries@, cfg);
                    }
                    return Err("The fixed target has no inputs.".to_string());
                },
            },
            None => match get_random_viable_target(&pm, config.validator) {
                Ok(i) => i,
                Err(e) => {
                    proof {
                        lemma_nothing_left(pm.entries@, cfg);
                    }
                    return Err(e);
                },
            },
        };
        let ghost cur = pm.entries@;
        assert(cfg.eligible(cur[target_index as int].target));
        match get_input_of_difficulty_for_target(&pm, target_index, difficulty) {
            Ok((idx, tier)) => {
                let mut e = pm.entries.remove(target_index);
                let ghost old_e = e;
                let input = e.pools.remove_input(tier, idx);
                let target = e.target;
                let ghost new_e = e;
                pm.entries.insert(target_index, e);
                let board = Board { input, target, difficulty: tier };
                let ghost old_result = result_vector@;
                result_vector.push(board);
                proof {
                    assert(pm.entries@ =~= cur.update(target_index as int, new_e));
                    lemma_sum_update(cur, target_index as int, new_e, avail_part(cfg));
                    assert(new_e.pools.tier(InputDifficulty::Easy) == if tier == InputDifficulty::Easy { old_e.pools.tier(InputDifficulty::Easy).remove(idx as int) } else { old_e.pools.tier(InputDifficulty::Easy) });
                    assert(new_e.pools.tier(InputDifficulty::Moderate) == if tier == InputDifficulty::Moderate { old_e.pools.tier(InputDifficulty::Moderate).remove(idx as int) } else { old_e.pools.tier(InputDifficulty::Moderate) });
                    assert(new_e.pools.tier(InputDifficulty::Hard) == if tier == InputDifficulty::Hard { old_e.pools.tier(InputDifficulty::Hard).remove(idx as int) } else { old_e.pools.tier(InputDifficulty::Hard) });
                    assert(new_e.pools.size() + 1 == old_e.pools.size());
                    assert forall|a: int, b: int| 0 <= a < b < pm.entries@.len()
                        implies !(#[trigger] pm.entries@[a]).target.same(#[trigger] pm.entries@[b].target) by {
                        assert(cur[a].target == pm.entries@[a].target && cur[b].target == pm.entries@[b].target);
                    }
                    assert forall|a: int| 0 <= a < pm.entries@.len() implies (#[trigger] pm.entries@[a]).target.wf() by {
                        assert(cur[a].target == pm.entries@[a].target);
                    }
                    assert(result_vector@.drop_last() == old_result);
                    assert forall|k: int| 0 <= k < result_vector@.len() implies cfg.eligible((#[trigger] result_vector@[k]).target)
                        && result_vector@[k].target.wf() by {
                        if k < old_result.len() {
                            assert(result_vector@[k] == old_result[k]);
                        }
                    }
                    assert forall|t: Rational, d: InputDifficulty, x: Seq<i32>| t.wf() implies
                        #[trigger] drawn(result_vector@, t, d, x) + occ(pm.entries@, t, d, x) <= occ(orig, t, d, x) by {
                        assert(drawn(old_result, t, d, x) + occ(cur, t, d, x) <= occ(orig, t, d, x));
                        lemma_occ_update(cur, target_index as int, new_e, t, d, x);
                        lemma_list_count_remove(old_e.pools.tier(tier), idx as int, x);
                        assert(new_e.pools.tier(d) == if d == tier { old_e.pools.tier(d).remove(idx as int) } else { old_e.pools.tier(d) });
                    }
                    assert forall|e: InputDifficulty| (#[trigger] pm.entries@[target_index as int].pools.tier(e)).len()
                        + (if e == board.difficulty { 1int } else { 0 }) == cur[target_index as int].pools.tier(e).len() by {
                        assert(new_e.pools.tier(e) == if e == tier { old_e.pools.tier(e).remove(idx as int) } else { old_e.pools.tier(e) });
                    }
                    assert(pm.entries@.len() == cur.len());
                    assert forall|j: int| 0 <= j < cur.len() && j != target_index implies #[trigger] pm.entries@[j] == cur[j] by {}
                    lemma_draw_step(start, cur, pm.entries@, old_result, board, target_index as int, cfg.difficulties@, q as int);
                    assert(result_vector@ == old_result.push(board));
                }
            },
            Err(e) => {
                if config.target.is_some() {
                    proof {
                        lemma_only_entry(cur, target_index as int, cfg);
                        lemma_nothing_left(cur, cfg);
                    }
                    return Err(e);
                }
                proof {
                    lemma_distinct_remove(cur, target_index as int);
                    lemma_sum_remove(cur, target_index as int, avail_part(cfg));
                }
                pm.entries.remove(target_index);
                proof {
                    assert forall|j: int, e: InputDifficulty| 0 <= j < pm.entries@.len() implies
                        (#[trigger] pm.entries@[j].pools.tier(e)).len() + drawn_tier(result_vector@, pm.entries@[j].target, e)
                            == tier_total(start, pm.entries@[j].target, e) by {
                        let j2 = if j < target_index { j } else { j + 1 };
                        assert(pm.entries@[j] == cur[j2]);
                        assert(cur[j2].pools.tier(e).len() + drawn_tier(result_vector@, cur[j2].target, e)
                            == tier_total(start, cur[j2].target, e));
                    }
                    assert forall|t: Rational, d: InputDifficulty, x: Seq<i32>| t.wf() implies
                        #[trigger] drawn(result_vector@, t, d, x) + occ(pm.entries@, t, d, x) <= occ(orig, t, d, x) by {
                        assert(drawn(result_vector@, t, d, x) + occ(cur, t, d, x) <= occ(orig, t, d, x));
                        lemma_occ_remove(cur, target_index as int, t, d, x);
                    }
                }
                if pm.entries.len() == 0 {
                    proof {
                        lemma_nothing_left(pm.entries@, cfg);
                    }
                    return Err(e);
                }
            },
        }
    }
    proof {
        if files_once(orig) {
            lemma_no_repeat(orig, result_vector@);
        }
    }
    Ok(result_vector)
}

/// One draw keeps the tier accounting and records a board from the nearest
/// populated tier.
proof fn lemma_draw_step(
    start: Seq<PoolEntry>,
    cur: Seq<PoolEntry>,
    next: Seq<PoolEntry>,
    before: Seq<Board>,
    b: Board,
    i: int,
    ds: Seq<InputDifficulty>,
    q: int,
)
    requires
        crate::pools::targets_distinct(cur),
        0 <= i < cur.len(),
        0 <= q < ds.len(),
        next.len() == cur.len(),
        forall|j: int| 0 <= j < cur.len() && j != i ==> #[trigger] next[j] == cur[j],
        next[i].target == cur[i].target,
        b.target == cur[i].target,
        cur[i].pools.closest(ds[q]) == Some(b.difficulty),
        forall|e: InputDifficulty| (#[trigger] next[i].pools.tier(e)).len() + (if e == b.difficulty { 1int } else { 0 })
            == cur[i].pools.tier(e).len(),
        forall|j: int, e: InputDifficulty| 0 <= j < cur.len() ==>
            (#[trigger] cur[j].pools.tier(e)).len() + drawn_tier(before, cur[j].target, e) == tier_total(start, cur[j].target, e),
        forall|k: int| 0 <= k < before.len() ==> exists|q: int| 0 <= q < ds.len()
            && nearest_tier(start, before.subrange(0, k), (#[trigger] before[k]).target, ds[q], before[k].difficulty),
    ensures
        forall|j: int, e: InputDifficulty| 0 <= j < next.len() ==>
            (#[trigger] next[j].pools.tier(e)).len() + drawn_tier(before.push(b), next[j].target, e) == tier_total(start, next[j].target, e),
        forall|k: int| 0 <= k < before.len() + 1 ==> exists|q: int| 0 <= q < ds.len()
            && nearest_tier(start, before.push(b).subrange(0, k), (#[trigger] before.push(b)[k]).target, ds[q], before.push(b)[k].difficulty),
{
    let nb = before.push(b);
    assert(nb.drop_last() == before);
    assert forall|j: int, e: InputDifficulty| 0 <= j < next.len() implies
        (#[trigger] next[j].pools.tier(e)).len() + drawn_tier(nb, next[j].target, e) == tier_total(start, next[j].target, e) by {
        assert(cur[j].pools.tier(e).len() + drawn_tier(before, cur[j].target, e) == tier_total(start, cur[j].target, e));
        if j != i {
            if b.target.same(cur[j].target) {
                lemma_same_trans(cur[i].target, cur[j].target, cur[i].target);
                if i < j {
                    assert(!cur[i].target.same(cur[j].target));
                } else {
                    assert(!cur[j].target.same(cur[i].target));
                }
            }
        }
    }
    assert forall|k: int| 0 <= k < before.len() + 1 implies exists|q: int| 0 <= q < ds.len()
        && nearest_tier(start, nb.subrange(0, k), (#[trigger] nb[k]).target, ds[q], nb[k].difficulty) by {
        if k < before.len() {
            assert(nb.subrange(0, k) =~= before.subrange(0, k));
            assert(nb[k] == before[k]);
            let q2 = choose|q2: int| 0 <= q2 < ds.len()
                && nearest_tier(start, before.subrange(0, k), before[k].target, ds[q2], before[k].difficulty);
            assert(nearest_tier(start, nb.subrange(0, k), nb[k].target, ds[q2], nb[k].difficulty));
        } else {
            assert(nb.subrange(0, k) =~= before);
            let t = cur[i].target;
            assert forall|e: InputDifficulty| #[trigger] used_up(start, before, t, e) <==> cur[i].pools.tier(e).len() == 0 by {
                assert(cur[i].pools.tier(e).len() + drawn_tier(before, cur[i].target, e) == tier_total(start, cur[i].target, e));
            }
            let p = preference(ds[q]);
            assert(used_up(start, before, t, p[0]) <==> cur[i].pools.tier(p[0]).len() == 0);
            assert(used_up(start, before, t, p[1]) <==> cur[i].pools.tier(p[1]).len() == 0);
            assert(nearest_tier(start, nb.subrange(0, k), nb[k].target, ds[q], nb[k].difficulty));
        }
    }
}

proof fn lemma_drawn_one(bs: Seq<Board>, k: int, t: Rational, d: InputDifficulty, x: Seq<i32>)
    requires
        0 <= k < bs.len(),
        bs[k].target.same(t) && bs[k].difficulty == d && bs[k].input@ == x,
    ensures
        drawn(bs, t, d, x) >= 1,
    decreases bs.len(),
{
    if k < bs.len() - 1 {
        assert(bs.drop_last()[k] == bs[k]);
        lemma_drawn_one(bs.drop_last(), k, t, d, x);
    }
}

proof fn lemma_drawn_two(bs: Seq<Board>, a: int, b: int, t: Rational, d: InputDifficulty, x: Seq<i32>)
    requires
        0 <= a < b < bs.len(),
        bs[a].target.same(t) && bs[a].difficulty == d && bs[a].input@ == x,
        bs[b].target.same(t) && bs[b].difficulty == d && bs[b].input@ == x,
    ensures
        drawn(bs, t, d, x) >= 2,
    decreases bs.len(),
{
    assert(bs.drop_last()[a] == bs[a]);
    if b < bs.len() - 1 {
        assert(bs.drop_last()[b] == bs[b]);
        lemma_drawn_two(bs.drop_last(), a, b, t, d, x);
    } else {
        lemma_drawn_one(bs.drop_last(), a, t, d, x);
    }
}

proof fn lemma_no_repeat(es: Seq<PoolEntry>, bs: Seq<Board>)
    requires
        files_once(es),
        forall|k: int| 0 <= k < bs.len() ==> (#[trigger] bs[k]).target.wf(),
        forall|t: Rational, d: InputDifficulty, x: Seq<i32>| t.wf() ==> #[trigger] drawn(bs, t, d, x) <= occ(es, t, d, x),
    ensures
        forall|a: int, b: int| 0 <= a < b < bs.len()
            ==> !((#[trigger] bs[a]).target.same((#[trigger] bs[b]).target) && bs[a].input@ == bs[b].input@),
{
    assert forall|a: int, b: int| 0 <= a < b < bs.len()
        implies !((#[trigger] bs[a]).target.same((#[trigger] bs[b]).target) && bs[a].input@ == bs[b].input@) by {
        if bs[a].target.same(bs[b].target) && bs[a].input@ == bs[b].input@ {
            let t = bs[a].target;
            let x = bs[a].input@;
            let (da, db) = (bs[a].difficulty, bs[b].difficulty);
            assert(drawn(bs, t, da, x) <= occ(es, t, da, x));
            assert(drawn(bs, t, db, x) <= occ(es, t, db, x));
            assert(occ(es, t, InputDifficulty::Easy, x) + occ(es, t, InputDifficulty::Moderate, x)
                + occ(es, t, InputDifficulty::Hard, x) <= 1);
            if da == db {
                lemma_drawn_two(bs, a, b, t, da, x);
            } else {
                lemma_drawn_one(bs, a, t, da, x);
                lemma_drawn_one(bs, b, t, db, x);
            }
        }
    }
}

} // verus!
