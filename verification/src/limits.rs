//! Limits: for every category of nodes the frontier of the (cost, time) pairs
//! that were seen at nodes of that category. A label whose pair is covered by
//! the frontier of every category is not worth expanding.

use crate::bag::lemma_filter_origin;
use crate::maps::keys_of;
use std::collections::HashMap;
use std::hash::Hash;
use vstd::prelude::*;
use vstd::std_specs::hash::obeys_key_model;

verus! {

/// One (cost, time) pair of a frontier.
#[derive(Debug, Clone, Copy)]
pub struct Limit {
    pub cost: u64,
    pub time: u64,
}

/// Some pair of `f` is no larger than (`cost`, `time`) in either number.
pub open spec fn covers(f: Seq<Limit>, cost: u64, time: u64) -> bool {
    exists|i: int| 0 <= i < f.len() && (#[trigger] f[i]).cost <= cost && f[i].time <= time
}

/// The pairs that (`cost`, `time`) does not cover: they are smaller in one
/// of the two numbers.
pub open spec fn outside(cost: u64, time: u64) -> spec_fn(Limit) -> bool {
    |l: Limit| l.cost < cost || l.time < time
}

/// The frontier after (`cost`, `time`) was offered to it: unchanged where it
/// covers the pair; else without the pairs that the new one covers, and with
/// the new one at its end.
pub open spec fn frontier_with(f: Seq<Limit>, cost: u64, time: u64) -> Seq<Limit> {
    if covers(f, cost, time) {
        f
    } else {
        f.filter(outside(cost, time)).push(Limit { cost, time })
    }
}

/// No pair of `f` is covered by another pair of `f`.
pub open spec fn is_frontier(f: Seq<Limit>) -> bool {
    forall|i: int, j: int|
        0 <= i < f.len() && 0 <= j < f.len() && i != j ==> !((#[trigger] f[i]).cost <= (
        #[trigger] f[j]).cost && f[i].time <= f[j].time)
}

/// The least time among the pairs of `f` whose cost is at most `cost`, and
/// `u64::MAX` where there is none.
pub open spec fn best_time(f: Seq<Limit>, cost: u64) -> u64
    decreases f.len(),
{
    if f.len() == 0 {
        u64::MAX
    } else {
        let rest = best_time(f.drop_last(), cost);
        if f.last().cost <= cost && f.last().time < rest {
            f.last().time
        } else {
            rest
        }
    }
}

/// `best_time` is a lower bound of the times in reach, and one of them where
/// it is not `u64::MAX`.
pub proof fn lemma_best_time(f: Seq<Limit>, cost: u64)
    ensures
        forall|i: int| 0 <= i < f.len() && (#[trigger] f[i]).cost <= cost ==> best_time(f, cost) <= f[i].time,
        best_time(f, cost) == u64::MAX || exists|i: int|
            0 <= i < f.len() && (#[trigger] f[i]).cost <= cost && f[i].time == best_time(f, cost),
    decreases f.len(),
{
    if f.len() > 0 {
        let front = f.drop_last();
        lemma_best_time(front, cost);
        assert forall|i: int| 0 <= i < f.len() && (#[trigger] f[i]).cost <= cost implies best_time(
            f,
            cost,
        ) <= f[i].time by {
            if i < front.len() {
                assert(front[i] == f[i]);
            }
        }
        if best_time(f, cost) != u64::MAX {
            if f.last().cost <= cost && f.last().time < best_time(front, cost) {
                assert(f[f.len() - 1].time == best_time(f, cost));
            } else {
                let i = choose|i: int|
                    0 <= i < front.len() && (#[trigger] front[i]).cost <= cost && front[i].time
                        == best_time(front, cost);
                assert(f[i] == front[i]);
            }
        }
    }
}

/// A time below `u64::MAX` reaches the best time exactly where the frontier
/// covers the pair.
pub proof fn lemma_best_time_covers(f: Seq<Limit>, cost: u64, time: u64)
    ensures
        covers(f, cost, time) ==> best_time(f, cost) <= time,
        best_time(f, cost) <= time && time < u64::MAX ==> covers(f, cost, time),
{
    lemma_best_time(f, cost);
}

/// The pair (`cost`, `time`) is exceeded: in every category the best time
/// within `cost` is at most `time`.
pub open spec fn exceeded<T>(m: Map<T, Seq<Limit>>, cost: u64, time: u64) -> bool {
    forall|c: T| m.contains_key(c) ==> best_time(#[trigger] m[c], cost) <= time
}

/// `bound` is the largest of the categories' best times within `cost`.
pub open spec fn is_bound<T>(m: Map<T, Seq<Limit>>, cost: u64, bound: u64) -> bool {
    &&& forall|c: T| m.contains_key(c) ==> best_time(#[trigger] m[c], cost) <= bound
    &&& exists|c: T| m.contains_key(c) && best_time(#[trigger] m[c], cost) == bound
}

/// Comparing a time with the largest best time decides whether the pair is
/// exceeded: a bound that was kept gives the answer that computing it anew
/// gives.
pub proof fn lemma_bound_decides<T>(m: Map<T, Seq<Limit>>, cost: u64, bound: u64, time: u64)
    requires
        is_bound(m, cost, bound),
    ensures
        (bound <= time) == exceeded(m, cost, time),
{
    if exceeded(m, cost, time) {
        let c = choose|c: T| m.contains_key(c) && best_time(#[trigger] m[c], cost) == bound;
    }
}

/// A cost has one bound at most: a time that is kept for a cost is the time
/// that would be found anew.
pub proof fn lemma_bound_unique<T>(m: Map<T, Seq<Limit>>, cost: u64, a: u64, b: u64)
    requires
        is_bound(m, cost, a),
        is_bound(m, cost, b),
    ensures
        a == b,
{
    let c = choose|c: T| m.contains_key(c) && best_time(#[trigger] m[c], cost) == a;
    let d = choose|d: T| m.contains_key(d) && best_time(#[trigger] m[d], cost) == b;
}

/// What a frontier covers after a pair was offered to it: what it covered
/// before, and what the pair covers.
pub proof fn lemma_frontier_with_covers(f: Seq<Limit>, cost: u64, time: u64, x: u64, y: u64)
    ensures
        covers(frontier_with(f, cost, time), x, y) == (covers(f, x, y) || (cost <= x && time <= y)),
{
    let after = frontier_with(f, cost, time);
    if covers(f, cost, time) {
        if cost <= x && time <= y {
            let i = choose|i: int| 0 <= i < f.len() && (#[trigger] f[i]).cost <= cost && f[i].time <= time;
            assert(f[i].cost <= x && f[i].time <= y);
        }
    } else {
        let pred = outside(cost, time);
        let kept = f.filter(pred);
        lemma_filter_origin(f, pred);
        assert(after[after.len() - 1] == (Limit { cost, time }));
        if covers(after, x, y) {
            let i = choose|i: int|
                0 <= i < after.len() && (#[trigger] after[i]).cost <= x && after[i].time <= y;
            if i < kept.len() {
                let a = choose|a: int| 0 <= a < f.len() && f[a] == kept[i];
                assert(f[a].cost <= x && f[a].time <= y);
            }
        }
        if covers(f, x, y) {
            let a = choose|a: int| 0 <= a < f.len() && (#[trigger] f[a]).cost <= x && f[a].time <= y;
            if pred(f[a]) {
                assert(kept.contains(f[a]));
                let i = choose|i: int| 0 <= i < kept.len() && kept[i] == f[a];
                assert(after[i] == f[a]);
                assert(after[i].cost <= x && after[i].time <= y);
            } else {
                assert(after[after.len() - 1].cost <= x && after[after.len() - 1].time <= y);
            }
        }
        if cost <= x && time <= y {
            assert(after[after.len() - 1].cost <= x && after[after.len() - 1].time <= y);
        }
    }
}

/// Offering a pair to a frontier leaves a frontier.
pub proof fn lemma_frontier_with_is_frontier(f: Seq<Limit>, cost: u64, time: u64)
    requires
        is_frontier(f),
    ensures
        is_frontier(frontier_with(f, cost, time)),
{
    if !covers(f, cost, time) {
        let pred = outside(cost, time);
        let kept = f.filter(pred);
        let new = Limit { cost, time };
        let after = kept.push(new);
        lemma_filter_origin(f, pred);
        assert forall|i: int, j: int|
            0 <= i < after.len() && 0 <= j < after.len() && i != j implies !((
        #[trigger] after[i]).cost <= (#[trigger] after[j]).cost && after[i].time
            <= after[j].time) by {
            if i < kept.len() && j < kept.len() {
                if i < j {
                    let (a, b) = choose|a: int, b: int|
                        0 <= a < b < f.len() && f[a] == kept[i] && f[b] == kept[j];
                    assert(!(f[a].cost <= f[b].cost && f[a].time <= f[b].time));
                } else {
                    let (a, b) = choose|a: int, b: int|
                        0 <= a < b < f.len() && f[a] == kept[j] && f[b] == kept[i];
                    assert(!(f[b].cost <= f[a].cost && f[b].time <= f[a].time));
                }
            } else if i < kept.len() {
                let a = choose|a: int| 0 <= a < f.len() && f[a] == kept[i];
                assert(!(f[a].cost <= cost && f[a].time <= time));
            } else {
                assert(pred(kept[j]));
            }
        }
    }
}

/// The frontiers of all categories, and the bounds that were computed from
/// them and kept for the next question.
#[derive(Debug)]
pub struct Limits<T: Eq + Hash + Copy> {
    pub limits: HashMap<T, Vec<Limit>>,
    pub limit_cache: HashMap<u64, u64>,
}

impl<T: Eq + Hash + Copy> Limits<T> {
    /// The frontier of each category.
    pub open spec fn frontiers(&self) -> Map<T, Seq<Limit>> {
        self.limits@.map_values(|v: Vec<Limit>| v@)
    }

    /// What the limits must be: every category holds a frontier with a pair
    /// in it, and every bound that is kept is the bound of its cost.
    pub open spec fn wf(&self) -> bool {
        &&& obeys_key_model::<T>()
        &&& forall|c: T|
            self.frontiers().contains_key(c) ==> is_frontier(#[trigger] self.frontiers()[c])
                && self.frontiers()[c].len() > 0
        &&& forall|k: u64|
            self.limit_cache@.contains_key(k) ==> is_bound(
                self.frontiers(),
                k,
                #[trigger] self.limit_cache@[k],
            )
    }

    /// Limits without a category.
    pub fn new() -> (r: Limits<T>)
        ensures
            r.frontiers() == Map::<T, Seq<Limit>>::empty(),
            r.limit_cache@ == Map::<u64, u64>::empty(),
            obeys_key_model::<T>() ==> r.wf(),
    {
        let r = Limits { limits: HashMap::new(), limit_cache: HashMap::new() };
        assert(r.frontiers() =~= Map::<T, Seq<Limit>>::empty());
        r
    }

    /// Registers `category` with the one pair that covers nothing but
    /// itself, (`u64::MAX`, `u64::MAX`). What the category held before is lost.
    pub fn add_category(&mut self, category: T)
        requires
            old(self).wf(),
        ensures
            final(self).wf(),
            final(self).frontiers() == old(self).frontiers().insert(
                category,
                seq![Limit { cost: u64::MAX, time: u64::MAX }],
            ),
            final(self).limit_cache@ == Map::<u64, u64>::empty(),
    {
        broadcast use vstd::std_specs::hash::group_hash_axioms;

        let mut frontier: Vec<Limit> = Vec::new();
        frontier.push(Limit { cost: u64::MAX, time: u64::MAX });
        assert(frontier@ =~= seq![Limit { cost: u64::MAX, time: u64::MAX }]);
        self.limits.insert(category, frontier);
        self.limit_cache.clear();
        assert(self.frontiers() =~= old(self).frontiers().insert(
            category,
            seq![Limit { cost: u64::MAX, time: u64::MAX }],
        ));
    }

    /// Whether there is a category, and every category holds a pair.
    pub fn is_initialized(&self) -> (r: bool)
        requires
            obeys_key_model::<T>(),
        ensures
            r == (self.frontiers().dom().len() > 0 && forall|c: T|
                self.frontiers().contains_key(c) ==> (#[trigger] self.frontiers()[c]).len() > 0),
    {
        broadcast use vstd::std_specs::hash::group_hash_axioms;

        if self.limits.len() == 0 {
            assert(self.frontiers().dom() =~= self.limits@.dom());
            return false;
        }
        assert(self.frontiers().dom() =~= self.limits@.dom());
        let keys = keys_of(&self.limits);
        let mut i: usize = 0;
        while i < keys.len()
            invariant
                i <= keys.len(),
                obeys_key_model::<T>(),
                keys@.to_set() == self.limits@.dom(),
                self.frontiers().dom().len() > 0,
                forall|j: int|
                    0 <= j < i ==> (#[trigger] self.frontiers()[keys@[j]]).len() > 0,
            decreases keys.len() - i,
        {
            assert(keys@.to_set().contains(keys@[i as int]));
            match self.limits.get(&keys[i]) {
                Some(frontier) => {
                    if frontier.len() == 0 {
                        assert(self.frontiers().contains_key(keys@[i as int]));
                        assert(self.frontiers()[keys@[i as int]].len() == 0);
                        return false;
                    }
                },
                None => {},
            }
            i += 1;
        }
        assert forall|c: T| self.frontiers().contains_key(c) implies (
        #[trigger] self.frontiers()[c]).len() > 0 by {
            assert(keys@.to_set().contains(c));
            let j = choose|j: int| 0 <= j < keys@.len() && keys@[j] == c;
            assert(self.frontiers()[keys@[j]].len() > 0);
        }
        true
    }

    /// Offers the pair (`cost`, `time`) to the frontier of `category`. A pair
    /// that the frontier covers changes nothing, and the result is `false`.
    /// Else the pairs that the new one covers leave, the new one joins, the
    /// bounds that were kept are dropped, and the result is `true`.
    pub fn update_limit(&mut self, category: T, cost: u64, time: u64) -> (changed: bool)
        requires
            old(self).wf(),
            old(self).frontiers().contains_key(category),
        ensures
            final(self).wf(),
            changed == !covers(old(self).frontiers()[category], cost, time),
            final(self).frontiers() == old(self).frontiers().insert(
                category,
                frontier_with(old(self).frontiers()[category], cost, time),
            ),
            final(self).limit_cache@ == if changed {
                Map::<u64, u64>::empty()
            } else {
                old(self).limit_cache@
            },
    {
        broadcast use vstd::std_specs::hash::group_hash_axioms;

        let ghost before = self.frontiers()[category];
        let covered = match self.limits.get(&category) {
            Some(frontier) => is_covered(frontier, cost, time),
            None => false,
        };
        if covered {
            assert(self.frontiers() =~= old(self).frontiers().insert(category, before));
            return false;
        }
        let mut frontier = match self.limits.remove(&category) {
            Some(f) => f,
            None => Vec::new(),
        };
        assert(frontier@ == before);
        drop_covered(&mut frontier, cost, time);
        frontier.push(Limit { cost, time });
        self.limits.insert(category, frontier);
        self.limit_cache.clear();
        proof {
            assert(self.frontiers() =~= old(self).frontiers().insert(
                category,
                frontier_with(before, cost, time),
            ));
            lemma_frontier_with_is_frontier(before, cost, time);
        }
        true
    }

    /// Whether the pair (`cost`, `time`) is exceeded: in every category the
    /// least time of a pair within `cost` is at most `time`. The bound of
    /// `cost` is kept for the next question.
    pub fn is_limit_exceeded(&mut self, cost: u64, time: u64) -> (r: bool)
        requires
            old(self).wf(),
            old(self).frontiers().dom().len() > 0,
        ensures
            final(self).wf(),
            r == exceeded(old(self).frontiers(), cost, time),
            final(self).limits == old(self).limits,
            final(self).limit_cache@.dom() == old(self).limit_cache@.dom().insert(cost),
    {
        broadcast use vstd::std_specs::hash::group_hash_axioms;

        let kept: Option<u64> = match self.limit_cache.get(&cost) {
            Some(limit) => Some(*limit),
            None => None,
        };
        match kept {
            Some(limit) => {
                proof {
                    lemma_bound_decides(self.frontiers(), cost, limit, time);
                    assert(self.limit_cache@.dom() =~= old(self).limit_cache@.dom().insert(cost));
                }
                limit <= time
            },
            None => {
                let limit = self.determine_limit(cost);
                self.limit_cache.insert(cost, limit);
                proof {
                    lemma_bound_decides(self.frontiers(), cost, limit, time);
                    assert(self.limit_cache@.dom() =~= old(self).limit_cache@.dom().insert(cost));
                }
                limit <= time
            },
        }
    }

    /// The largest of the categories' best times within `cost`, computed from
    /// the frontiers.
    pub fn determine_limit(&self, cost: u64) -> (bound: u64)
        requires
            obeys_key_model::<T>(),
            self.frontiers().dom().len() > 0,
        ensures
            is_bound(self.frontiers(), cost, bound),
    {
        broadcast use vstd::std_specs::hash::group_hash_axioms;

        assert(self.frontiers().dom() =~= self.limits@.dom());
        let keys = keys_of(&self.limits);
        let mut bound: u64 = 0;
        let mut i: usize = 0;
        while i < keys.len()
            invariant
                i <= keys.len(),
                obeys_key_model::<T>(),
                keys@.len() > 0,
                keys@.to_set() == self.limits@.dom(),
                forall|j: int|
                    0 <= j < i ==> best_time(#[trigger] self.frontiers()[keys@[j]], cost) <= bound,
                i == 0 ==> bound == 0,
                i > 0 ==> exists|j: int|
                    0 <= j < i && best_time(#[trigger] self.frontiers()[keys@[j]], cost) == bound,
            decreases keys.len() - i,
        {
            assert(keys@.to_set().contains(keys@[i as int]));
            let best = match self.limits.get(&keys[i]) {
                Some(frontier) => least_time(frontier, cost),
                None => 0,
            };
            assert(best == best_time(self.frontiers()[keys@[i as int]], cost));
            if i == 0 || best > bound {
                bound = best;
            }
            i += 1;
        }
        proof {
            let m = self.frontiers();
            assert forall|c: T| m.contains_key(c) implies best_time(#[trigger] m[c], cost)
                <= bound by {
                assert(keys@.to_set().contains(c));
                let j = choose|j: int| 0 <= j < keys@.len() && keys@[j] == c;
                assert(best_time(self.frontiers()[keys@[j]], cost) <= bound);
            }
            let j = choose|j: int|
                0 <= j < i && best_time(#[trigger] self.frontiers()[keys@[j]], cost) == bound;
            assert(keys@.to_set().contains(keys@[j]));
            assert(m.contains_key(keys@[j]));
        }
        bound
    }
}

/// Whether some pair of `frontier` is no larger than (`cost`, `time`) in
/// either number.
pub fn is_covered(frontier: &Vec<Limit>, cost: u64, time: u64) -> (r: bool)
    ensures
        r == covers(frontier@, cost, time),
{
    let mut i: usize = 0;
    while i < frontier.len()
        invariant
            i <= frontier.len(),
            forall|j: int|
                0 <= j < i ==> !((#[trigger] frontier@[j]).cost <= cost && frontier@[j].time <= time),
        decreases frontier.len() - i,
    {
        if frontier[i].cost <= cost && frontier[i].time <= time {
            return true;
        }
        i += 1;
    }
    false
}

/// Takes out the pairs that are no smaller than (`cost`, `time`) in either
/// number. The others stay, in their order.
pub fn drop_covered(frontier: &mut Vec<Limit>, cost: u64, time: u64)
    ensures
        final(frontier)@ == old(frontier)@.filter(outside(cost, time)),
{
    let ghost all = frontier@;
    let ghost pred = outside(cost, time);
    let mut kept: Vec<Limit> = Vec::new();
    let mut i: usize = 0;
    assert(all.take(0) =~= Seq::<Limit>::empty());
    while i < frontier.len()
        invariant
            i <= frontier.len(),
            frontier@ == all,
            pred == outside(cost, time),
            kept@ == all.take(i as int).filter(pred),
        decreases frontier.len() - i,
    {
        let l = frontier[i];
        proof {
            assert(all.take(i + 1) =~= all.take(i as int).push(l));
            all.take(i as int).lemma_filter_push(l, pred);
        }
        if l.cost < cost || l.time < time {
            kept.push(l);
        }
        i += 1;
    }
    assert(all.take(all.len() as int) =~= all);
    *frontier = kept;
}

/// The least time among the pairs whose cost is at most `cost`, and
/// `u64::MAX` where there is none.
pub fn least_time(frontier: &Vec<Limit>, cost: u64) -> (r: u64)
    ensures
        r == best_time(frontier@, cost),
{
    let mut best: u64 = u64::MAX;
    let mut i: usize = 0;
    assert(frontier@.take(0) =~= Seq::<Limit>::empty());
    while i < frontier.len()
        invariant
            i <= frontier.len(),
            best == best_time(frontier@.take(i as int), cost),
        decreases frontier.len() - i,
    {
        proof {
            let next = frontier@.take(i + 1);
            assert(next.drop_last() =~= frontier@.take(i as int));
            assert(next.last() == frontier@[i as int]);
        }
        if frontier[i].cost <= cost && frontier[i].time < best {
            best = frontier[i].time;
        }
        i += 1;
    }
    assert(frontier@.take(frontier@.len() as int) =~= frontier@);
    best
}

} // verus!
