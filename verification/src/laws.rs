//! Laws of the three fixed-point computations.
//!
//! Each computation promises a *solution*: the least map closed under its
//! rules above the map it started from. From that promise alone follow
//! the laws here: the results only grow, a converged result is a fixed
//! point, and the results do not depend on the order in which a
//! nonterminal's rules were given.

use vstd::prelude::*;
use crate::analysis::{
    first_closed, first_rule_closed, first_solution, follow_closed, follow_rule_closed,
    follow_solution, null_closed, null_leq, null_solution, rule_null, sets_leq,
};
use crate::grammar::Token;

verus! {

// ------------------------------------------------------------------
// Monotonicity: a computation never unsets a flag or drops a terminal.
// ------------------------------------------------------------------

/// The nullable computation only turns flags on: whatever held before it
/// ran still holds after.
pub proof fn lemma_nullable_monotone(
    rt: Map<char, Seq<Seq<Token>>>,
    start: Map<char, bool>,
    out: Map<char, bool>,
)
    requires
        null_solution(rt, start, out),
    ensures
        null_leq(start, out),
{
}

/// The first-set computation only adds terminals: every set keeps what it had.
pub proof fn lemma_first_monotone(
    rt: Map<char, Seq<Seq<Token>>>,
    nm: Map<char, bool>,
    start: Map<char, Set<char>>,
    out: Map<char, Set<char>>,
)
    requires
        first_solution(rt, nm, start, out),
    ensures
        sets_leq(start, out),
{
}

/// The follow-set computation only adds terminals: every set keeps what it had.
pub proof fn lemma_follow_monotone(
    rt: Map<char, Seq<Seq<Token>>>,
    nm: Map<char, bool>,
    fm: Map<char, Set<char>>,
    start: Map<char, Set<char>>,
    out: Map<char, Set<char>>,
)
    requires
        follow_solution(rt, nm, fm, start, out),
    ensures
        sets_leq(start, out),
{
}

// ------------------------------------------------------------------
// Fixed-point stability: re-running past convergence changes nothing.
// ------------------------------------------------------------------

/// Running the nullable computation from a map that is already closed
/// gives that map back unchanged.
pub proof fn lemma_nullable_stable(
    rt: Map<char, Seq<Seq<Token>>>,
    m: Map<char, bool>,
    out: Map<char, bool>,
)
    requires
        null_closed(rt, m),
        null_solution(rt, m, out),
    ensures
        out == m,
{
    assert(null_leq(m, m));
    assert(null_leq(out, m));
    assert forall|k: char| out.dom().contains(k) implies out[k] == m[k] by {
        if m[k] {
            assert(out[k]);
        }
        if out[k] {
            assert(m[k]);
        }
    }
    assert(out =~= m);
}

/// Running the first-set computation from a map that is already closed
/// gives that map back unchanged.
pub proof fn lemma_first_stable(
    rt: Map<char, Seq<Seq<Token>>>,
    nm: Map<char, bool>,
    m: Map<char, Set<char>>,
    out: Map<char, Set<char>>,
)
    requires
        first_closed(rt, nm, m),
        first_solution(rt, nm, m, out),
    ensures
        out == m,
{
    assert(sets_leq(m, m));
    assert(sets_leq(out, m));
    assert forall|k: char| out.dom().contains(k) implies out[k] == m[k] by {
        assert(m[k].subset_of(out[k]));
        assert(out[k].subset_of(m[k]));
        assert(out[k] =~= m[k]);
    }
    assert(out =~= m);
}

/// Running the follow-set computation from a map that is already closed
/// gives that map back unchanged.
pub proof fn lemma_follow_stable(
    rt: Map<char, Seq<Seq<Token>>>,
    nm: Map<char, bool>,
    fm: Map<char, Set<char>>,
    m: Map<char, Set<char>>,
    out: Map<char, Set<char>>,
)
    requires
        follow_closed(rt, nm, fm, m),
        follow_solution(rt, nm, fm, m, out),
    ensures
        out == m,
{
    assert(sets_leq(m, m));
    assert(sets_leq(out, m));
    assert forall|k: char| out.dom().contains(k) implies out[k] == m[k] by {
        assert(m[k].subset_of(out[k]));
        assert(out[k].subset_of(m[k]));
        assert(out[k] =~= m[k]);
    }
    assert(out =~= m);
}

// ------------------------------------------------------------------
// Order independence: only which rules a nonterminal has matters,
// not the order they were given in.
// ------------------------------------------------------------------

/// Two rule tables that give every nonterminal the same rules, in
/// whatever order.
pub open spec fn same_rules(
    rt1: Map<char, Seq<Seq<Token>>>,
    rt2: Map<char, Seq<Seq<Token>>>,
) -> bool {
    &&& rt1.dom() == rt2.dom()
    &&& forall|k: char, r: Seq<Token>|
        #![trigger rt1[k].contains(r)]
        #![trigger rt2[k].contains(r)]
        rt1.dom().contains(k) ==> (rt1[k].contains(r) <==> rt2[k].contains(r))
}

proof fn lemma_null_closed_same(
    rt1: Map<char, Seq<Seq<Token>>>,
    rt2: Map<char, Seq<Seq<Token>>>,
    nm: Map<char, bool>,
)
    requires
        same_rules(rt1, rt2),
        null_closed(rt1, nm),
    ensures
        null_closed(rt2, nm),
{
    assert forall|k: char, i: int|
        rt2.dom().contains(k) && 0 <= i < rt2[k].len() && rule_null(#[trigger] rt2[k][i], nm)
            implies nm[k] by {
        let r = rt2[k][i];
        assert(rt2[k].contains(r));
        assert(rt1[k].contains(r));
        let j = choose|j: int| 0 <= j < rt1[k].len() && rt1[k][j] == r;
        assert(rule_null(rt1[k][j], nm));
    }
}

proof fn lemma_first_closed_same(
    rt1: Map<char, Seq<Seq<Token>>>,
    rt2: Map<char, Seq<Seq<Token>>>,
    nm: Map<char, bool>,
    fm: Map<char, Set<char>>,
)
    requires
        same_rules(rt1, rt2),
        first_closed(rt1, nm, fm),
    ensures
        first_closed(rt2, nm, fm),
{
    assert forall|k: char, i: int|
        rt2.dom().contains(k) && 0 <= i < rt2[k].len() implies first_rule_closed(
        k,
        #[trigger] rt2[k][i],
        nm,
        fm,
    ) by {
        let r = rt2[k][i];
        assert(rt2[k].contains(r));
        assert(rt1[k].contains(r));
        let j = choose|j: int| 0 <= j < rt1[k].len() && rt1[k][j] == r;
        assert(first_rule_closed(k, rt1[k][j], nm, fm));
    }
}

proof fn lemma_follow_closed_same(
    rt1: Map<char, Seq<Seq<Token>>>,
    rt2: Map<char, Seq<Seq<Token>>>,
    nm: Map<char, bool>,
    fm: Map<char, Set<char>>,
    wm: Map<char, Set<char>>,
)
    requires
        same_rules(rt1, rt2),
        follow_closed(rt1, nm, fm, wm),
    ensures
        follow_closed(rt2, nm, fm, wm),
{
    assert forall|nt: char, lhs: char, i: int|
        #![trigger rt2.dom().contains(nt), rt2[lhs][i]]
        rt2.dom().contains(nt) && rt2.dom().contains(lhs) && 0 <= i < rt2[lhs].len()
            implies follow_rule_closed(nt, lhs, rt2[lhs][i], nm, fm, wm) by {
        let r = rt2[lhs][i];
        assert(rt2[lhs].contains(r));
        assert(rt1[lhs].contains(r));
        let j = choose|j: int| 0 <= j < rt1[lhs].len() && rt1[lhs][j] == r;
        assert(rt1.dom().contains(nt));
        assert(follow_rule_closed(nt, lhs, rt1[lhs][j], nm, fm, wm));
    }
}

proof fn lemma_same_rules_sym(rt1: Map<char, Seq<Seq<Token>>>, rt2: Map<char, Seq<Seq<Token>>>)
    requires
        same_rules(rt1, rt2),
    ensures
        same_rules(rt2, rt1),
{
}

/// Reordering a nonterminal's rules does not change which nonterminals
/// come out nullable.
pub proof fn lemma_nullable_order_independent(
    rt1: Map<char, Seq<Seq<Token>>>,
    rt2: Map<char, Seq<Seq<Token>>>,
    start: Map<char, bool>,
    o1: Map<char, bool>,
    o2: Map<char, bool>,
)
    requires
        same_rules(rt1, rt2),
        null_solution(rt1, start, o1),
        null_solution(rt2, start, o2),
    ensures
        o1 == o2,
{
    lemma_same_rules_sym(rt1, rt2);
    lemma_null_closed_same(rt2, rt1, o2);
    lemma_null_closed_same(rt1, rt2, o1);
    assert(null_leq(o1, o2));
    assert(null_leq(o2, o1));
    assert forall|k: char| o1.dom().contains(k) implies o1[k] == o2[k] by {
        if o1[k] {
            assert(o2[k]);
        }
        if o2[k] {
            assert(o1[k]);
        }
    }
    assert(o1 =~= o2);
}

/// Reordering a nonterminal's rules does not change the membership of any
/// first set.
pub proof fn lemma_first_order_independent(
    rt1: Map<char, Seq<Seq<Token>>>,
    rt2: Map<char, Seq<Seq<Token>>>,
    nm: Map<char, bool>,
    start: Map<char, Set<char>>,
    o1: Map<char, Set<char>>,
    o2: Map<char, Set<char>>,
)
    requires
        same_rules(rt1, rt2),
        first_solution(rt1, nm, start, o1),
        first_solution(rt2, nm, start, o2),
    ensures
        o1 == o2,
{
    lemma_same_rules_sym(rt1, rt2);
    lemma_first_closed_same(rt2, rt1, nm, o2);
    lemma_first_closed_same(rt1, rt2, nm, o1);
    assert(sets_leq(o1, o2));
    assert(sets_leq(o2, o1));
    assert forall|k: char| o1.dom().contains(k) implies o1[k] == o2[k] by {
        assert(o1[k].subset_of(o2[k]));
        assert(o2[k].subset_of(o1[k]));
        assert(o1[k] =~= o2[k]);
    }
    assert(o1 =~= o2);
}

/// Reordering a nonterminal's rules does not change the membership of any
/// follow set.
pub proof fn lemma_follow_order_independent(
    rt1: Map<char, Seq<Seq<Token>>>,
    rt2: Map<char, Seq<Seq<Token>>>,
    nm: Map<char, bool>,
    fm: Map<char, Set<char>>,
    start: Map<char, Set<char>>,
    o1: Map<char, Set<char>>,
    o2: Map<char, Set<char>>,
)
    requires
        same_rules(rt1, rt2),
        follow_solution(rt1, nm, fm, start, o1),
        follow_solution(rt2, nm, fm, start, o2),
    ensures
        o1 == o2,
{
    lemma_same_rules_sym(rt1, rt2);
    lemma_follow_closed_same(rt2, rt1, nm, fm, o2);
    lemma_follow_closed_same(rt1, rt2, nm, fm, o1);
    assert(sets_leq(o1, o2));
    assert(sets_leq(o2, o1));
    assert forall|k: char| o1.dom().contains(k) implies o1[k] == o2[k] by {
        assert(o1[k].subset_of(o2[k]));
        assert(o2[k].subset_of(o1[k]));
        assert(o1[k] =~= o2[k]);
    }
    assert(o1 =~= o2);
}

} // verus!

