//! Labels and bags.
//!
//! A label is a cost vector that was accumulated along one path, together with
//! the node it ends at. A bag is the set of labels kept at one node: no label
//! of a bag is weakly dominated by another label of the same bag.

use vstd::prelude::*;
use vstd::std_specs::convert::FromSpecImpl;

verus! {

pub type Weight = u64;

pub type NodeId = usize;

pub type UntranslatedNodeId = String;

/// A list of weights, as one field of an edge record holds it.
#[derive(Debug)]
pub struct Weights(pub Vec<Weight>);

impl From<Vec<u64>> for Weights {
    fn from(v: Vec<u64>) -> (r: Self) {
        Weights(v)
    }
}

impl FromSpecImpl<Vec<u64>> for Weights {
    open spec fn obeys_from_spec() -> bool {
        true
    }

    open spec fn from_spec(v: Vec<u64>) -> Self {
        Weights(v)
    }
}

impl Clone for Weights {
    fn clone(&self) -> (r: Self)
        ensures
            r.0@ == self.0@,
    {
        Weights(copy_weights(&self.0))
    }
}

/// The weight of one edge: the visible components, which dominance compares,
/// and the hidden ones, which are only accumulated.
#[derive(Debug)]
pub struct WeightsTuple {
    pub weights: Vec<Weight>,
    pub hidden_weights: Vec<Weight>,
}

impl Clone for WeightsTuple {
    fn clone(&self) -> (r: Self)
        ensures
            r.weights@ == self.weights@,
            r.hidden_weights@ == self.hidden_weights@,
    {
        WeightsTuple {
            weights: copy_weights(&self.weights),
            hidden_weights: copy_weights(&self.hidden_weights),
        }
    }
}

/// A fresh vector with the same weights.
pub fn copy_weights(v: &Vec<Weight>) -> (r: Vec<Weight>)
    ensures
        r@ == v@,
{
    let mut r: Vec<Weight> = Vec::with_capacity(v.len());
    let mut i: usize = 0;
    while i < v.len()
        invariant
            i <= v.len(),
            r@ == v@.take(i as int),
        decreases v.len() - i,
    {
        r.push(v[i]);
        assert(v@.take(i + 1) == v@.take(i as int).push(v@[i as int]));
        i += 1;
    }
    assert(v@.take(v.len() as int) == v@);
    r
}

/// `a` weakly dominates `b`: no component of `a` is larger than the component
/// of `b` at the same place. Components without a counterpart are not compared.
pub open spec fn dominates(a: Seq<u64>, b: Seq<u64>) -> bool {
    forall|i: int| 0 <= i < a.len() && i < b.len() ==> a[i] <= b[i]
}

/// The componentwise sums of `a` and `w`, as far as both reach.
pub open spec fn sum_along(a: Seq<u64>, w: Seq<u64>) -> Seq<int> {
    Seq::new(
        if a.len() <= w.len() {
            a.len()
        } else {
            w.len()
        },
        |i: int| a[i] + w[i],
    )
}

/// Every component of `s` is a `u64`.
pub open spec fn fits(s: Seq<int>) -> bool {
    forall|i: int| 0 <= i < s.len() ==> #[trigger] s[i] <= u64::MAX
}

/// `v` holds the numbers of `s`.
pub open spec fn holds(v: Seq<u64>, s: Seq<int>) -> bool {
    &&& v.len() == s.len()
    &&& forall|i: int| 0 <= i < s.len() ==> #[trigger] v[i] == s[i]
}

/// The sums of `a` and `w`, or `None` where one of them is not a `u64`.
pub fn checked_sum_along(a: &Vec<u64>, w: &Vec<u64>) -> (r: Option<Vec<u64>>)
    ensures
        r is Some <==> fits(sum_along(a@, w@)),
        r is Some ==> holds(r->0@, sum_along(a@, w@)),
{
    let n: usize = if a.len() <= w.len() {
        a.len()
    } else {
        w.len()
    };
    let mut r: Vec<u64> = Vec::with_capacity(n);
    let mut i: usize = 0;
    while i < n
        invariant
            i <= n,
            n == sum_along(a@, w@).len(),
            n <= a.len(),
            n <= w.len(),
            r.len() == i,
            forall|j: int| 0 <= j < i ==> #[trigger] r@[j] == a@[j] + w@[j],
        decreases n - i,
    {
        match a[i].checked_add(w[i]) {
            Some(s) => {
                r.push(s);
            },
            None => {
                assert(sum_along(a@, w@)[i as int] > u64::MAX);
                return None;
            },
        }
        i += 1;
    }
    assert forall|j: int| 0 <= j < n implies #[trigger] sum_along(a@, w@)[j] <= u64::MAX by {
        assert(r@[j] == a@[j] + w@[j]);
    }
    Some(r)
}

/// What a label holds.
pub ghost struct LabelData<T> {
    pub values: Seq<u64>,
    pub hidden_values: Seq<u64>,
    pub path: Seq<T>,
    pub node_id: T,
}

/// The costs accumulated on the way to `node_id`, and that way itself where
/// paths are recorded. `path` ends with the node before `node_id`.
#[derive(Debug)]
pub struct Label<T> {
    pub values: Vec<u64>,
    pub hidden_values: Vec<u64>,
    pub path: Vec<T>,
    pub node_id: T,
}

impl<T> View for Label<T> {
    type V = LabelData<T>;

    open spec fn view(&self) -> LabelData<T> {
        LabelData {
            values: self.values@,
            hidden_values: self.hidden_values@,
            path: self.path@,
            node_id: self.node_id,
        }
    }
}

impl Clone for Label<NodeId> {
    fn clone(&self) -> (r: Self)
        ensures
            r@ == self@,
    {
        let mut path: Vec<NodeId> = Vec::with_capacity(self.path.len());
        let mut i: usize = 0;
        while i < self.path.len()
            invariant
                i <= self.path.len(),
                path@ == self.path@.take(i as int),
            decreases self.path.len() - i,
        {
            path.push(self.path[i]);
            assert(self.path@.take(i + 1) == self.path@.take(i as int).push(self.path@[i as int]));
            i += 1;
        }
        assert(self.path@.take(self.path.len() as int) == self.path@);
        Label {
            values: copy_weights(&self.values),
            hidden_values: copy_weights(&self.hidden_values),
            path,
            node_id: self.node_id,
        }
    }
}

/// The label that extending `from` along an edge to `target` gives: the
/// weights are added, and the node that is left joins the path.
pub open spec fn extension(
    from: LabelData<NodeId>,
    weights: Seq<u64>,
    hidden_weights: Seq<u64>,
    target: NodeId,
    disable_path: bool,
    to: LabelData<NodeId>,
) -> bool {
    &&& holds(to.values, sum_along(from.values, weights))
    &&& holds(to.hidden_values, sum_along(from.hidden_values, hidden_weights))
    &&& to.node_id == target
    &&& to.path == if disable_path {
        Seq::<NodeId>::empty()
    } else {
        from.path.push(from.node_id)
    }
}

/// The label that extending `from` along an edge to `target` gives, where
/// the sums are not too large.
pub open spec fn extended(
    from: LabelData<NodeId>,
    weights: Seq<u64>,
    hidden_weights: Seq<u64>,
    target: NodeId,
    disable_path: bool,
) -> LabelData<NodeId> {
    LabelData {
        values: Seq::new(
            sum_along(from.values, weights).len(),
            |i: int| sum_along(from.values, weights)[i] as u64,
        ),
        hidden_values: Seq::new(
            sum_along(from.hidden_values, hidden_weights).len(),
            |i: int| sum_along(from.hidden_values, hidden_weights)[i] as u64,
        ),
        path: if disable_path {
            Seq::<NodeId>::empty()
        } else {
            from.path.push(from.node_id)
        },
        node_id: target,
    }
}

/// Where the sums are not too large, one label extends `from` along an edge:
/// the extended label.
pub proof fn lemma_extension_is_extended(
    from: LabelData<NodeId>,
    weights: Seq<u64>,
    hidden_weights: Seq<u64>,
    target: NodeId,
    disable_path: bool,
    to: LabelData<NodeId>,
)
    requires
        fits(sum_along(from.values, weights)),
        fits(sum_along(from.hidden_values, hidden_weights)),
    ensures
        extension(from, weights, hidden_weights, target, disable_path, to) <==> to == extended(
            from,
            weights,
            hidden_weights,
            target,
            disable_path,
        ),
{
    let x = extended(from, weights, hidden_weights, target, disable_path);
    if extension(from, weights, hidden_weights, target, disable_path, to) {
        assert(to.values =~= x.values);
        assert(to.hidden_values =~= x.hidden_values);
    }
    if to == x {
        assert forall|i: int| 0 <= i < sum_along(from.values, weights).len() implies #[trigger] to.values[i]
            == sum_along(from.values, weights)[i] by {
            assert(sum_along(from.values, weights)[i] <= u64::MAX);
        }
        assert forall|i: int|
            0 <= i < sum_along(from.hidden_values, hidden_weights).len() implies #[trigger] to.hidden_values[i]
            == sum_along(from.hidden_values, hidden_weights)[i] by {
            assert(sum_along(from.hidden_values, hidden_weights)[i] <= u64::MAX);
        }
    }
}

impl Label<NodeId> {
    /// The label at `target` that continues this one along an edge with the
    /// weight `weight`, or `None` where a sum is too large for a `u64`.
    pub fn try_new_along(&self, weight: &WeightsTuple, target: NodeId, disable_path: bool) -> (r:
        Option<Label<NodeId>>)
        ensures
            r is Some <==> fits(sum_along(self.values@, weight.weights@)) && fits(
                sum_along(self.hidden_values@, weight.hidden_weights@),
            ),
            r is Some ==> extension(
                self@,
                weight.weights@,
                weight.hidden_weights@,
                target,
                disable_path,
                r->0@,
            ),
            r is Some ==> r->0@ == extended(
                self@,
                weight.weights@,
                weight.hidden_weights@,
                target,
                disable_path,
            ),
    {
        let values = match checked_sum_along(&self.values, &weight.weights) {
            Some(v) => v,
            None => {
                return None;
            },
        };
        let hidden_values = match checked_sum_along(&self.hidden_values, &weight.hidden_weights) {
            Some(v) => v,
            None => {
                return None;
            },
        };
        let mut path: Vec<NodeId> = Vec::new();
        if !disable_path {
            let mut i: usize = 0;
            while i < self.path.len()
                invariant
                    i <= self.path.len(),
                    path@ == self.path@.take(i as int),
                decreases self.path.len() - i,
            {
                path.push(self.path[i]);
                assert(self.path@.take(i + 1) == self.path@.take(i as int).push(
                    self.path@[i as int],
                ));
                i += 1;
            }
            assert(self.path@.take(self.path.len() as int) == self.path@);
            path.push(self.node_id);
        }
        let r = Label { values, path, node_id: target, hidden_values };
        proof {
            lemma_extension_is_extended(
                self@,
                weight.weights@,
                weight.hidden_weights@,
                target,
                disable_path,
                r@,
            );
        }
        Some(r)
    }

    /// The label at `target` that continues this one along an edge with the
    /// weight `weight`.
    pub fn new_along(&self, weight: &WeightsTuple, target: NodeId, disable_path: bool) -> (r: Label<
        NodeId,
    >)
        requires
            fits(sum_along(self.values@, weight.weights@)),
            fits(sum_along(self.hidden_values@, weight.hidden_weights@)),
        ensures
            extension(
                self@,
                weight.weights@,
                weight.hidden_weights@,
                target,
                disable_path,
                r@,
            ),
            r@ == extended(self@, weight.weights@, weight.hidden_weights@, target, disable_path),
    {
        match self.try_new_along(weight, target, disable_path) {
            Some(l) => l,
            None => {
                proof {
                    assert(false);
                }
                Label {
                    values: Vec::new(),
                    hidden_values: Vec::new(),
                    path: Vec::new(),
                    node_id: target,
                }
            },
        }
    }

    /// Whether this label weakly dominates `other`: it does where it is equal
    /// to `other` in every component, too.
    pub fn weakly_dominates(&self, other: &Label<NodeId>) -> (r: bool)
        ensures
            r == dominates(self.values@, other.values@),
    {
        let n: usize = if self.values.len() <= other.values.len() {
            self.values.len()
        } else {
            other.values.len()
        };
        let mut i: usize = 0;
        while i < n
            invariant
                i <= n,
                n <= self.values.len(),
                n <= other.values.len(),
                n == self.values.len() || n == other.values.len(),
                forall|j: int| 0 <= j < i ==> self.values@[j] <= other.values@[j],
            decreases n - i,
        {
            if self.values[i] > other.values[i] {
                return false;
            }
            i += 1;
        }
        true
    }
}

/// Some label of `bag` weakly dominates `v`.
pub open spec fn bag_dominates<T>(bag: Seq<LabelData<T>>, v: Seq<u64>) -> bool {
    exists|i: int| 0 <= i < bag.len() && dominates(#[trigger] bag[i].values, v)
}

/// No label of `bag` is weakly dominated by another label of `bag`.
pub open spec fn is_antichain<T>(bag: Seq<LabelData<T>>) -> bool {
    forall|i: int, j: int|
        0 <= i < bag.len() && 0 <= j < bag.len() && i != j ==> !dominates(
            #[trigger] bag[i].values,
            #[trigger] bag[j].values,
        )
}

/// The labels that `v` does not weakly dominate.
pub open spec fn survives<T>(v: Seq<u64>) -> spec_fn(LabelData<T>) -> bool {
    |l: LabelData<T>| !dominates(v, l.values)
}

/// The bag after `label` was offered to it: unchanged where it dominates
/// `label`; else without the labels that `label` dominates, and with `label`
/// at its end.
pub open spec fn bag_with<T>(bag: Seq<LabelData<T>>, label: LabelData<T>) -> Seq<LabelData<T>> {
    if bag_dominates(bag, label.values) {
        bag
    } else {
        bag.filter(survives(label.values)).push(label)
    }
}

/// The labels kept at one node, in the order in which they came.
#[derive(Debug)]
pub struct Bag<T> {
    pub labels: Vec<Label<T>>,
}

impl<T> View for Bag<T> {
    type V = Seq<LabelData<T>>;

    open spec fn view(&self) -> Seq<LabelData<T>> {
        Seq::new(self.labels@.len(), |i: int| self.labels@[i]@)
    }
}

impl Clone for Bag<NodeId> {
    fn clone(&self) -> (r: Self)
        ensures
            r@ == self@,
    {
        let mut labels: Vec<Label<NodeId>> = Vec::with_capacity(self.labels.len());
        let mut i: usize = 0;
        while i < self.labels.len()
            invariant
                i <= self.labels.len(),
                labels.len() == i,
                forall|j: int| 0 <= j < i ==> labels@[j]@ == self.labels@[j]@,
            decreases self.labels.len() - i,
        {
            labels.push(self.labels[i].clone());
            i += 1;
        }
        let r = Bag { labels };
        assert(r@ =~= self@);
        r
    }
}

impl Bag<NodeId> {
    /// What a bag must be: an antichain under weak dominance.
    pub open spec fn wf(&self) -> bool {
        is_antichain(self@)
    }

    /// The bag that holds `start_label` alone.
    pub fn new_start_bag(start_label: Label<NodeId>) -> (r: Bag<NodeId>)
        ensures
            r@ == seq![start_label@],
            r.wf(),
    {
        let mut labels: Vec<Label<NodeId>> = Vec::new();
        labels.push(start_label);
        let r = Bag { labels };
        assert(r@ =~= seq![start_label@]);
        r
    }

    /// The bag without labels.
    pub fn new_empty() -> (r: Bag<NodeId>)
        ensures
            r@ == Seq::<LabelData<NodeId>>::empty(),
            r.wf(),
    {
        let r = Bag { labels: Vec::new() };
        assert(r@ =~= Seq::<LabelData<NodeId>>::empty());
        r
    }

    /// Offers `label` to the bag. A label that the bag dominates is refused,
    /// and the bag stays as it is. Else the labels that `label` dominates
    /// leave, `label` joins, and the result is `true`.
    pub fn add_if_necessary(&mut self, label: Label<NodeId>) -> (added: bool)
        ensures
            added == !bag_dominates(old(self)@, label@.values),
            final(self)@ == bag_with(old(self)@, label@),
            old(self).wf() ==> final(self).wf(),
    {
        if self.content_dominates(&label) {
            return false;
        }
        self.remove_dominated_by(&label);
        let ghost kept = self@;
        let ghost l = label@;
        self.labels.push(label);
        assert(self@ =~= kept.push(l));
        proof {
            if old(self).wf() {
                lemma_bag_with_keeps_antichain(old(self)@, l);
            }
        }
        true
    }

    /// Whether some label of the bag weakly dominates `label`.
    pub fn content_dominates(&self, label: &Label<NodeId>) -> (r: bool)
        ensures
            r == bag_dominates(self@, label@.values),
    {
        let mut i: usize = 0;
        while i < self.labels.len()
            invariant
                i <= self.labels.len(),
                forall|j: int| 0 <= j < i ==> !dominates(#[trigger] self@[j].values, label@.values),
            decreases self.labels.len() - i,
        {
            if self.labels[i].weakly_dominates(label) {
                assert(dominates(self@[i as int].values, label@.values));
                return true;
            }
            i += 1;
        }
        false
    }

    /// Takes out every label that `label` weakly dominates. The others stay,
    /// in their order.
    pub fn remove_dominated_by(&mut self, label: &Label<NodeId>)
        ensures
            final(self)@ == old(self)@.filter(survives(label@.values)),
    {
        let mut kept: Vec<Label<NodeId>> = Vec::new();
        let mut rest: Vec<Label<NodeId>> = Vec::new();
        core::mem::swap(&mut self.labels, &mut rest);
        let ghost all = old(self)@;
        let ghost pred = survives::<NodeId>(label@.values);
        let n: usize = rest.len();
        let mut done: Vec<Label<NodeId>> = Vec::new();
        // `rest` is emptied from its end, so the survivors come out reversed.
        while rest.len() > 0
            invariant
                rest.len() <= n,
                n == all.len(),
                pred == survives::<NodeId>(label@.values),
                forall|j: int| 0 <= j < rest.len() ==> rest@[j]@ == all[j],
                Seq::new(done@.len(), |j: int| done@[j]@) == all.skip(rest.len() as int).filter(
                    pred,
                ).reverse(),
            decreases rest.len(),
        {
            let ghost before = all.skip(rest.len() as int);
            let ghost done_view = Seq::new(done@.len(), |j: int| done@[j]@);
            let l = rest.pop().unwrap();
            let ghost now = all.skip(rest.len() as int);
            proof {
                assert(now =~= seq![l@] + before);
                before.lemma_filter_prepend(l@, pred);
                lemma_reverse_prepend(before.filter(pred), l@);
            }
            if !label.weakly_dominates(&l) {
                done.push(l);
                assert(Seq::new(done@.len(), |j: int| done@[j]@) =~= done_view.push(l@));
            } else {
                assert(Seq::new(done@.len(), |j: int| done@[j]@) =~= done_view);
            }
        }
        assert(all.skip(0) == all);
        let ghost reversed = all.filter(pred).reverse();
        while done.len() > 0
            invariant
                done.len() <= reversed.len(),
                forall|j: int| 0 <= j < done.len() ==> done@[j]@ == reversed[j],
                Seq::new(kept@.len(), |j: int| kept@[j]@) == reversed.skip(
                    done.len() as int,
                ).reverse(),
            decreases done.len(),
        {
            let ghost before = reversed.skip(done.len() as int);
            let ghost kept_view = Seq::new(kept@.len(), |j: int| kept@[j]@);
            let l = done.pop().unwrap();
            proof {
                assert(reversed.skip(done.len() as int) =~= seq![l@] + before);
                lemma_reverse_prepend(before, l@);
            }
            kept.push(l);
            assert(Seq::new(kept@.len(), |j: int| kept@[j]@) =~= kept_view.push(l@));
        }
        proof {
            assert(reversed.skip(0) == reversed);
            lemma_reverse_twice(all.filter(pred));
        }
        self.labels = kept;
        assert(self@ =~= all.filter(pred));
    }
}

/// Reversing a sequence with `x` in front gives the reversed sequence with
/// `x` at its end.
pub proof fn lemma_reverse_prepend<A>(s: Seq<A>, x: A)
    ensures
        (seq![x] + s).reverse() == s.reverse().push(x),
{
    assert((seq![x] + s).reverse() =~= s.reverse().push(x));
}

/// Reversing twice gives the sequence back.
pub proof fn lemma_reverse_twice<A>(s: Seq<A>)
    ensures
        s.reverse().reverse() == s,
{
    assert(s.reverse().reverse() =~= s);
}

/// A label is either refused, or it drives out what it dominates: in both
/// cases an antichain stays one.
pub proof fn lemma_bag_with_keeps_antichain<T>(bag: Seq<LabelData<T>>, label: LabelData<T>)
    requires
        is_antichain(bag),
    ensures
        is_antichain(bag_with(bag, label)),
{
    if !bag_dominates(bag, label.values) {
        let pred = survives::<T>(label.values);
        let kept = bag.filter(pred);
        let after = kept.push(label);
        lemma_filter_origin(bag, pred);
        assert forall|i: int, j: int|
            0 <= i < after.len() && 0 <= j < after.len() && i != j implies !dominates(
            #[trigger] after[i].values,
            #[trigger] after[j].values,
        ) by {
            if i < kept.len() && j < kept.len() {
                if i < j {
                    let (a, b) = choose|a: int, b: int|
                        0 <= a < b < bag.len() && bag[a] == kept[i] && bag[b] == kept[j];
                    assert(!dominates(bag[a].values, bag[b].values));
                } else {
                    let (a, b) = choose|a: int, b: int|
                        0 <= a < b < bag.len() && bag[a] == kept[j] && bag[b] == kept[i];
                    assert(!dominates(bag[b].values, bag[a].values));
                }
            } else if i < kept.len() {
                let a = choose|a: int| 0 <= a < bag.len() && bag[a] == kept[i];
                assert(!dominates(bag[a].values, label.values));
            } else {
                assert(pred(kept[j]));
            }
        }
    }
}

/// What a filtered sequence holds: only what the predicate accepts, each from
/// a place of the sequence, and in the order of these places.
pub proof fn lemma_filter_origin<A>(s: Seq<A>, pred: spec_fn(A) -> bool)
    ensures
        s.filter(pred).len() <= s.len(),
        forall|i: int|
            0 <= i < s.filter(pred).len() ==> pred(#[trigger] s.filter(pred)[i]) && exists|a: int|
                0 <= a < s.len() && s[a] == s.filter(pred)[i],
        forall|i: int, j: int|
            0 <= i < j < s.filter(pred).len() ==> exists|a: int, b: int|
                0 <= a < b < s.len() && s[a] == #[trigger] s.filter(pred)[i] && s[b]
                    == #[trigger] s.filter(pred)[j],
        forall|a: int| 0 <= a < s.len() && pred(s[a]) ==> s.filter(pred).contains(#[trigger] s[a]),
    decreases s.len(),
{
    reveal(Seq::filter);
    if s.len() > 0 {
        let front = s.drop_last();
        let sub = front.filter(pred);
        let f = s.filter(pred);
        lemma_filter_origin(front, pred);
        assert forall|i: int| 0 <= i < f.len() implies pred(#[trigger] f[i]) && exists|a: int|
            0 <= a < s.len() && s[a] == f[i] by {
            if i < sub.len() {
                assert(f[i] == sub[i]);
                let a = choose|a: int| 0 <= a < front.len() && front[a] == sub[i];
                assert(s[a] == f[i]);
            } else {
                assert(s[s.len() - 1] == f[i]);
            }
        }
        assert forall|i: int, j: int| 0 <= i < j < f.len() implies exists|a: int, b: int|
            0 <= a < b < s.len() && s[a] == #[trigger] f[i] && s[b] == #[trigger] f[j] by {
            assert(f[i] == sub[i]);
            if j < sub.len() {
                assert(f[j] == sub[j]);
                let (a, b) = choose|a: int, b: int|
                    0 <= a < b < front.len() && front[a] == sub[i] && front[b] == sub[j];
                assert(s[a] == f[i] && s[b] == f[j]);
            } else {
                let a = choose|a: int| 0 <= a < front.len() && front[a] == sub[i];
                let b = s.len() - 1;
                assert(s[a] == f[i] && s[b] == f[j]);
            }
        }
        assert forall|a: int| 0 <= a < s.len() && pred(s[a]) implies f.contains(
            #[trigger] s[a],
        ) by {
            if a < front.len() {
                assert(sub.contains(front[a]));
                let i = choose|i: int| 0 <= i < sub.len() && sub[i] == front[a];
                assert(f[i] == s[a]);
            } else {
                assert(f[f.len() - 1] == s[a]);
            }
        }
    }
}

/// Offering a label a second time changes nothing, and neither does offering
/// another label with the same costs: the label that came first stays.
pub proof fn lemma_add_twice<T>(bag: Seq<LabelData<T>>, label: LabelData<T>, again: LabelData<T>)
    requires
        again.values == label.values,
    ensures
        bag_with(bag_with(bag, label), again) == bag_with(bag, label),
{
    let once = bag_with(bag, label);
    if !bag_dominates(bag, label.values) {
        assert(once[once.len() - 1] == label);
        assert(dominates(once[once.len() - 1].values, again.values));
    }
    assert(bag_dominates(once, again.values));
}

} // verus!
