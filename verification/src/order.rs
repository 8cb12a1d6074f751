//! The lexicographic order of cost vectors, by which the queue hands labels out.

use crate::bag::{dominates, holds, sum_along};
use vstd::prelude::*;

verus! {

/// How one cost vector stands to another.
#[derive(Debug, Clone, Copy, PartialEq, Eq, Structural)]
pub enum Rank {
    Before,
    Same,
    After,
}

/// `a` and `b` hold the same numbers at the first `i` places.
pub open spec fn agree_upto(a: Seq<u64>, b: Seq<u64>, i: int) -> bool {
    &&& 0 <= i <= a.len()
    &&& i <= b.len()
    &&& forall|j: int| 0 <= j < i ==> a[j] == b[j]
}

/// `a` comes before `b` because of place `i`: up to there they agree, and
/// there `a` is smaller, or `a` ends and `b` goes on.
pub open spec fn lex_lt_at(a: Seq<u64>, b: Seq<u64>, i: int) -> bool {
    &&& agree_upto(a, b, i)
    &&& i < b.len()
    &&& i < a.len() ==> a[i] < b[i]
}

/// `a` comes before `b` in lexicographic order.
pub open spec fn lex_lt(a: Seq<u64>, b: Seq<u64>) -> bool {
    exists|i: int| lex_lt_at(a, b, i)
}

/// `a` comes before `b` in lexicographic order, or is equal to it.
pub open spec fn lex_le(a: Seq<u64>, b: Seq<u64>) -> bool {
    a == b || lex_lt(a, b)
}

/// Where `a` stands to `b` in lexicographic order.
pub open spec fn rank(a: Seq<u64>, b: Seq<u64>) -> Rank {
    if a == b {
        Rank::Same
    } else if lex_lt(a, b) {
        Rank::Before
    } else {
        Rank::After
    }
}

/// Of two different vectors one comes before the other, and never both.
pub proof fn lemma_lex_total(a: Seq<u64>, b: Seq<u64>)
    ensures
        a == b || lex_lt(a, b) || lex_lt(b, a),
        !(lex_lt(a, b) && lex_lt(b, a)),
        !lex_lt(a, a),
{
    lemma_lex_total_from(a, b, 0);
    if lex_lt(a, b) && lex_lt(b, a) {
        let i = choose|i: int| lex_lt_at(a, b, i);
        let j = choose|j: int| lex_lt_at(b, a, j);
        assert(false);
    }
    if lex_lt(a, a) {
        let i = choose|i: int| lex_lt_at(a, a, i);
        assert(false);
    }
}

proof fn lemma_lex_total_from(a: Seq<u64>, b: Seq<u64>, i: int)
    requires
        agree_upto(a, b, i),
    ensures
        a == b || lex_lt(a, b) || lex_lt(b, a),
    decreases a.len() - i,
{
    if i == a.len() {
        if i == b.len() {
            assert(a =~= b);
        } else {
            assert(lex_lt_at(a, b, i));
        }
    } else if i == b.len() {
        assert(lex_lt_at(b, a, i));
    } else if a[i] < b[i] {
        assert(lex_lt_at(a, b, i));
    } else if b[i] < a[i] {
        assert(lex_lt_at(b, a, i));
    } else {
        lemma_lex_total_from(a, b, i + 1);
    }
}

/// The lexicographic order is transitive.
pub proof fn lemma_lex_le_trans(a: Seq<u64>, b: Seq<u64>, c: Seq<u64>)
    requires
        lex_le(a, b),
        lex_le(b, c),
    ensures
        lex_le(a, c),
{
    if a != b && b != c {
        let i = choose|i: int| lex_lt_at(a, b, i);
        let j = choose|j: int| lex_lt_at(b, c, j);
        if i <= j {
            assert(lex_lt_at(a, c, i));
        } else {
            assert(lex_lt_at(a, c, j));
        }
    }
}

/// A vector that is nowhere larger than another of its length does not come
/// after it.
pub proof fn lemma_dominates_lex_le(a: Seq<u64>, b: Seq<u64>)
    requires
        a.len() == b.len(),
        dominates(a, b),
    ensures
        lex_le(a, b),
{
    lemma_dominates_lex_le_from(a, b, 0);
}

proof fn lemma_dominates_lex_le_from(a: Seq<u64>, b: Seq<u64>, i: int)
    requires
        a.len() == b.len(),
        dominates(a, b),
        agree_upto(a, b, i),
    ensures
        lex_le(a, b),
    decreases a.len() - i,
{
    if i == a.len() {
        assert(a =~= b);
    } else if a[i] < b[i] {
        assert(lex_lt_at(a, b, i));
    } else {
        lemma_dominates_lex_le_from(a, b, i + 1);
    }
}

/// Adding weights to a vector gives one that does not come before it.
pub proof fn lemma_sum_lex_le(a: Seq<u64>, w: Seq<u64>, s: Seq<u64>)
    requires
        a.len() == w.len(),
        holds(s, sum_along(a, w)),
    ensures
        dominates(a, s),
        lex_le(a, s),
{
    assert forall|i: int| 0 <= i < a.len() && i < s.len() implies a[i] <= s[i] by {
        assert(s[i] == sum_along(a, w)[i]);
    }
    lemma_dominates_lex_le(a, s);
}

/// Compares two cost vectors lexicographically.
pub fn compare_values(a: &Vec<u64>, b: &Vec<u64>) -> (r: Rank)
    ensures
        r == rank(a@, b@),
{
    let mut i: usize = 0;
    proof {
        lemma_lex_total(a@, b@);
    }
    while i < a.len() && i < b.len()
        invariant
            agree_upto(a@, b@, i as int),
        decreases a.len() - i,
    {
        if a[i] < b[i] {
            assert(lex_lt_at(a@, b@, i as int));
            return Rank::Before;
        }
        if a[i] > b[i] {
            assert(lex_lt_at(b@, a@, i as int));
            return Rank::After;
        }
        i += 1;
    }
    if i < b.len() {
        assert(lex_lt_at(a@, b@, i as int));
        Rank::Before
    } else if i < a.len() {
        assert(lex_lt_at(b@, a@, i as int));
        Rank::After
    } else {
        assert(a@ =~= b@);
        Rank::Same
    }
}

} // verus!
