//! The mathematical model of the three fixed-point computations.
//!
//! For each of nullable, first and follow there is a closure predicate
//! saying that a candidate map absorbs every contribution the rules make,
//! and a solution predicate saying that a map is the least closed map
//! above a starting map. The solver's methods promise exactly these
//! solution predicates, which pin each result down uniquely.

use vstd::prelude::*;
use crate::grammar::Token;

verus! {

// ------------------------------------------------------------------
// Nullable
// ------------------------------------------------------------------

/// Whether one symbol can derive the empty string, under the nullable map `nm`.
pub open spec fn tok_null(t: Token, nm: Map<char, bool>) -> bool {
    match t {
        Token::Null => true,
        Token::Terminal(_) => false,
        Token::Nonterminal(c) => nm.dom().contains(c) && nm[c],
    }
}

/// Whether a whole rule is nullable: every symbol of it is.
pub open spec fn rule_null(r: Seq<Token>, nm: Map<char, bool>) -> bool {
    forall|j: int| 0 <= j < r.len() ==> tok_null(#[trigger] r[j], nm)
}

/// `nm` absorbs every nullable rule: a nonterminal with a nullable rule is flagged.
pub open spec fn null_closed(rt: Map<char, Seq<Seq<Token>>>, nm: Map<char, bool>) -> bool {
    forall|k: char, i: int|
        rt.dom().contains(k) && 0 <= i < rt[k].len() && rule_null(#[trigger] rt[k][i], nm)
            ==> nm[k]
}

/// Pointwise order on nullable maps: flags only go from `false` to `true`.
pub open spec fn null_leq(a: Map<char, bool>, b: Map<char, bool>) -> bool {
    &&& a.dom() == b.dom()
    &&& forall|k: char| a.dom().contains(k) && #[trigger] a[k] ==> b[k]
}

/// `out` is the least map that is closed under `rt` and lies above `start`.
pub open spec fn null_solution(
    rt: Map<char, Seq<Seq<Token>>>,
    start: Map<char, bool>,
    out: Map<char, bool>,
) -> bool {
    &&& out.dom() == start.dom()
    &&& null_leq(start, out)
    &&& null_closed(rt, out)
    &&& forall|m: Map<char, bool>|
            m.dom() == start.dom() && null_leq(start, m) && #[trigger] null_closed(rt, m)
                ==> null_leq(out, m)
}

pub proof fn lemma_null_leq_trans(a: Map<char, bool>, b: Map<char, bool>, c: Map<char, bool>)
    requires
        null_leq(a, b),
        null_leq(b, c),
    ensures
        null_leq(a, c),
{
    assert forall|k: char| a.dom().contains(k) && #[trigger] a[k] implies c[k] by {
        assert(b[k]);
    }
}

/// A rule nullable under a smaller map stays nullable under a larger one.
pub proof fn lemma_rule_null_mono(r: Seq<Token>, a: Map<char, bool>, b: Map<char, bool>)
    requires
        null_leq(a, b),
        rule_null(r, a),
    ensures
        rule_null(r, b),
{
    assert forall|j: int| 0 <= j < r.len() implies tok_null(#[trigger] r[j], b) by {
        assert(tok_null(r[j], a));
        match r[j] {
            Token::Nonterminal(c) => {
                assert(a.dom().contains(c) && a[c]);
            },
            _ => {},
        }
    }
}

// ------------------------------------------------------------------
// First
// ------------------------------------------------------------------

/// Whether every symbol before position `i` of the rule is nullable,
/// so that the scan for first-set contributions reaches position `i`.
pub open spec fn prefix_null(r: Seq<Token>, nm: Map<char, bool>, i: int) -> bool {
    forall|j: int| 0 <= j < i ==> tok_null(#[trigger] r[j], nm)
}

/// The first-set contribution of one reached symbol is present in `fm[k]`.
pub open spec fn first_tok_ok(k: char, t: Token, fm: Map<char, Set<char>>) -> bool {
    match t {
        Token::Terminal(a) => fm[k].contains(a),
        Token::Nonterminal(c) => fm[c].subset_of(fm[k]),
        Token::Null => true,
    }
}

/// `fm[k]` absorbs every contribution of the rule `r` of nonterminal `k`.
pub open spec fn first_rule_closed(
    k: char,
    r: Seq<Token>,
    nm: Map<char, bool>,
    fm: Map<char, Set<char>>,
) -> bool {
    forall|i: int|
        0 <= i < r.len() && prefix_null(r, nm, i) ==> first_tok_ok(k, #[trigger] r[i], fm)
}

/// `fm` absorbs every first-set contribution of every rule.
pub open spec fn first_closed(
    rt: Map<char, Seq<Seq<Token>>>,
    nm: Map<char, bool>,
    fm: Map<char, Set<char>>,
) -> bool {
    forall|k: char, i: int|
        rt.dom().contains(k) && 0 <= i < rt[k].len()
            ==> first_rule_closed(k, #[trigger] rt[k][i], nm, fm)
}

/// Pointwise order on set maps: every set only grows.
pub open spec fn sets_leq(a: Map<char, Set<char>>, b: Map<char, Set<char>>) -> bool {
    &&& a.dom() == b.dom()
    &&& forall|k: char| a.dom().contains(k) ==> (#[trigger] a[k]).subset_of(b[k])
}

pub proof fn lemma_sets_leq_trans(
    a: Map<char, Set<char>>,
    b: Map<char, Set<char>>,
    c: Map<char, Set<char>>,
)
    requires
        sets_leq(a, b),
        sets_leq(b, c),
    ensures
        sets_leq(a, c),
{
    assert forall|k: char| a.dom().contains(k) implies (#[trigger] a[k]).subset_of(c[k]) by {
        assert(a[k].subset_of(b[k]));
        assert(b[k].subset_of(c[k]));
    }
}

/// `out` is the least map of sets closed under the first-set rules above `start`.
pub open spec fn first_solution(
    rt: Map<char, Seq<Seq<Token>>>,
    nm: Map<char, bool>,
    start: Map<char, Set<char>>,
    out: Map<char, Set<char>>,
) -> bool {
    &&& out.dom() == start.dom()
    &&& sets_leq(start, out)
    &&& first_closed(rt, nm, out)
    &&& forall|m: Map<char, Set<char>>|
            m.dom() == start.dom() && sets_leq(start, m) && #[trigger] first_closed(rt, nm, m)
                ==> sets_leq(out, m)
}

// ------------------------------------------------------------------
// Follow
// ------------------------------------------------------------------

/// Whether the scan that collects follow-set contributions for `nt`
/// passes over this symbol and keeps collecting: the empty marker and
/// `nt` itself are passed over, another nonterminal only if nullable,
/// a terminal never.
pub open spec fn tok_skip(t: Token, nt: char, nm: Map<char, bool>) -> bool {
    match t {
        Token::Null => true,
        Token::Nonterminal(c) => c == nt || (nm.dom().contains(c) && nm[c]),
        Token::Terminal(_) => false,
    }
}

/// The position of the first occurrence of `Nonterminal(nt)` in `r`,
/// or `r.len()` if there is none.
pub open spec fn first_occ(r: Seq<Token>, nt: char) -> int
    decreases r.len(),
{
    if r.len() == 0 {
        0
    } else if r[0] == Token::Nonterminal(nt) {
        0
    } else {
        1 + first_occ(r.skip(1), nt)
    }
}

/// `first_occ` is within bounds, points at an occurrence when there is
/// one, and nothing before it is an occurrence.
pub proof fn lemma_first_occ(r: Seq<Token>, nt: char)
    ensures
        0 <= first_occ(r, nt) <= r.len(),
        first_occ(r, nt) < r.len() ==> r[first_occ(r, nt)] == Token::Nonterminal(nt),
        forall|q: int| 0 <= q < first_occ(r, nt) ==> #[trigger] r[q] != Token::Nonterminal(nt),
    decreases r.len(),
{
    if r.len() == 0 {
    } else if r[0] == Token::Nonterminal(nt) {
    } else {
        lemma_first_occ(r.skip(1), nt);
        assert forall|q: int| 0 <= q < first_occ(r, nt) implies #[trigger] r[q]
            != Token::Nonterminal(nt) by {
            if q > 0 {
                assert(r.skip(1)[q - 1] == r[q]);
            }
        }
        if first_occ(r, nt) < r.len() {
            assert(r.skip(1)[first_occ(r, nt) - 1] == r[first_occ(r, nt)]);
        }
    }
}

/// The scan is still collecting when it reaches position `j`: everything
/// strictly between the first occurrence `p` and `j` is passed over.
pub open spec fn window(r: Seq<Token>, nt: char, nm: Map<char, bool>, p: int, j: int) -> bool {
    forall|q: int| p < q < j ==> tok_skip(#[trigger] r[q], nt, nm)
}

/// The follow-set contribution of one collected symbol is present in `wm[nt]`.
pub open spec fn follow_tok_ok(
    nt: char,
    t: Token,
    fm: Map<char, Set<char>>,
    wm: Map<char, Set<char>>,
) -> bool {
    match t {
        Token::Terminal(a) => wm[nt].contains(a),
        Token::Nonterminal(c) => c == nt || fm[c].subset_of(wm[nt]),
        Token::Null => true,
    }
}

/// `wm[nt]` absorbs every contribution that the rule `r` of `lhs` makes to
/// the follow set of `nt`: the contributions collected after the first
/// occurrence of `nt`, and, when everything after that occurrence can be
/// passed over, the whole follow set of `lhs`.
pub open spec fn follow_rule_closed(
    nt: char,
    lhs: char,
    r: Seq<Token>,
    nm: Map<char, bool>,
    fm: Map<char, Set<char>>,
    wm: Map<char, Set<char>>,
) -> bool {
    let p = first_occ(r, nt);
    &&& forall|j: int|
        p < j < r.len() && window(r, nt, nm, p, j) ==> follow_tok_ok(
            nt,
            #[trigger] r[j],
            fm,
            wm,
        )
    &&& (p < r.len() && window(r, nt, nm, p, r.len() as int) && lhs != nt ==> wm[lhs].subset_of(
        wm[nt],
    ))
}

/// `wm` absorbs every follow-set contribution of every rule, for every
/// nonterminal of the table as target.
pub open spec fn follow_closed(
    rt: Map<char, Seq<Seq<Token>>>,
    nm: Map<char, bool>,
    fm: Map<char, Set<char>>,
    wm: Map<char, Set<char>>,
) -> bool {
    forall|nt: char, lhs: char, i: int|
        #![trigger rt.dom().contains(nt), rt[lhs][i]]
        rt.dom().contains(nt) && rt.dom().contains(lhs) && 0 <= i < rt[lhs].len()
            ==> follow_rule_closed(nt, lhs, rt[lhs][i], nm, fm, wm)
}

/// `out` is the least map of sets closed under the follow-set rules above `start`.
pub open spec fn follow_solution(
    rt: Map<char, Seq<Seq<Token>>>,
    nm: Map<char, bool>,
    fm: Map<char, Set<char>>,
    start: Map<char, Set<char>>,
    out: Map<char, Set<char>>,
) -> bool {
    &&& out.dom() == start.dom()
    &&& sets_leq(start, out)
    &&& follow_closed(rt, nm, fm, out)
    &&& forall|m: Map<char, Set<char>>|
            m.dom() == start.dom() && sets_leq(start, m) && #[trigger] follow_closed(rt, nm, fm, m)
                ==> sets_leq(out, m)
}

// ------------------------------------------------------------------
// The set view of the stored terminal lists
// ------------------------------------------------------------------

/// Forgets the insertion order of each stored terminal list.
pub open spec fn sets_view(m: Map<char, Seq<char>>) -> Map<char, Set<char>> {
    m.map_values(|s: Seq<char>| s.to_set())
}

// ------------------------------------------------------------------
// Bounds used to show that the iterations terminate
// ------------------------------------------------------------------

/// The terminals occurring in one rule.
pub open spec fn rule_terms(r: Seq<Token>) -> Set<char>
    decreases r.len(),
{
    if r.len() == 0 {
        Set::empty()
    } else {
        rule_terms(r.drop_last()).union(
            match r.last() {
                Token::Terminal(t) => Set::<char>::empty().insert(t),
                _ => Set::empty(),
            },
        )
    }
}

/// The terminals occurring in a list of rules.
pub open spec fn rules_terms(rs: Seq<Seq<Token>>) -> Set<char>
    decreases rs.len(),
{
    if rs.len() == 0 {
        Set::empty()
    } else {
        rules_terms(rs.drop_last()).union(rule_terms(rs.last()))
    }
}

/// The terminals occurring in any rule of the table.
pub open spec fn table_terms(keys: Seq<char>, rt: Map<char, Seq<Seq<Token>>>) -> Set<char>
    decreases keys.len(),
{
    if keys.len() == 0 {
        Set::empty()
    } else {
        table_terms(keys.drop_last(), rt).union(rules_terms(rt[keys.last()]))
    }
}

/// Every terminal stored under some key.
pub open spec fn union_vals(keys: Seq<char>, m: Map<char, Seq<char>>) -> Set<char>
    decreases keys.len(),
{
    if keys.len() == 0 {
        Set::empty()
    } else {
        union_vals(keys.drop_last(), m).union(m[keys.last()].to_set())
    }
}

pub proof fn lemma_rule_terms_finite(r: Seq<Token>)
    ensures
        rule_terms(r).finite(),
    decreases r.len(),
{
    if r.len() > 0 {
        lemma_rule_terms_finite(r.drop_last());
    }
}

pub proof fn lemma_rules_terms_finite(rs: Seq<Seq<Token>>)
    ensures
        rules_terms(rs).finite(),
    decreases rs.len(),
{
    if rs.len() > 0 {
        lemma_rules_terms_finite(rs.drop_last());
        lemma_rule_terms_finite(rs.last());
    }
}

pub proof fn lemma_table_terms_finite(keys: Seq<char>, rt: Map<char, Seq<Seq<Token>>>)
    ensures
        table_terms(keys, rt).finite(),
    decreases keys.len(),
{
    if keys.len() > 0 {
        lemma_table_terms_finite(keys.drop_last(), rt);
        lemma_rules_terms_finite(rt[keys.last()]);
    }
}

pub proof fn lemma_union_vals_finite(keys: Seq<char>, m: Map<char, Seq<char>>)
    ensures
        union_vals(keys, m).finite(),
    decreases keys.len(),
{
    if keys.len() > 0 {
        lemma_union_vals_finite(keys.drop_last(), m);
        m[keys.last()].lemma_cardinality_of_set();
    }
}

pub proof fn lemma_rule_terms_has(r: Seq<Token>, j: int, t: char)
    requires
        0 <= j < r.len(),
        r[j] == Token::Terminal(t),
    ensures
        rule_terms(r).contains(t),
    decreases r.len(),
{
    if j < r.len() - 1 {
        assert(r.drop_last()[j] == r[j]);
        lemma_rule_terms_has(r.drop_last(), j, t);
    }
}

pub proof fn lemma_rules_terms_has(rs: Seq<Seq<Token>>, i: int, j: int, t: char)
    requires
        0 <= i < rs.len(),
        0 <= j < rs[i].len(),
        rs[i][j] == Token::Terminal(t),
    ensures
        rules_terms(rs).contains(t),
    decreases rs.len(),
{
    if i == rs.len() - 1 {
        lemma_rule_terms_has(rs.last(), j, t);
    } else {
        assert(rs.drop_last()[i] == rs[i]);
        lemma_rules_terms_has(rs.drop_last(), i, j, t);
    }
}

pub proof fn lemma_table_terms_has(
    keys: Seq<char>,
    rt: Map<char, Seq<Seq<Token>>>,
    a: int,
    i: int,
    j: int,
    t: char,
)
    requires
        0 <= a < keys.len(),
        0 <= i < rt[keys[a]].len(),
        0 <= j < rt[keys[a]][i].len(),
        rt[keys[a]][i][j] == Token::Terminal(t),
    ensures
        table_terms(keys, rt).contains(t),
    decreases keys.len(),
{
    if a == keys.len() - 1 {
        lemma_rules_terms_has(rt[keys[a]], i, j, t);
    } else {
        assert(keys.drop_last()[a] == keys[a]);
        lemma_table_terms_has(keys.drop_last(), rt, a, i, j, t);
    }
}

pub proof fn lemma_union_vals_has(keys: Seq<char>, m: Map<char, Seq<char>>, a: int, c: char)
    requires
        0 <= a < keys.len(),
        m[keys[a]].to_set().contains(c),
    ensures
        union_vals(keys, m).contains(c),
    decreases keys.len(),
{
    if a < keys.len() - 1 {
        assert(keys.drop_last()[a] == keys[a]);
        lemma_union_vals_has(keys.drop_last(), m, a, c);
    }
}

/// How far each stored list still is from the common bound `cap`.
pub open spec fn slack(keys: Seq<char>, m: Map<char, Seq<char>>, cap: int) -> int
    decreases keys.len(),
{
    if keys.len() == 0 {
        0
    } else {
        slack(keys.drop_last(), m, cap) + cap - m[keys.last()].len()
    }
}

pub proof fn lemma_slack_nonneg(keys: Seq<char>, m: Map<char, Seq<char>>, cap: int)
    requires
        forall|a: int| 0 <= a < keys.len() ==> m[#[trigger] keys[a]].len() <= cap,
    ensures
        slack(keys, m, cap) >= 0,
    decreases keys.len(),
{
    if keys.len() > 0 {
        assert forall|a: int| 0 <= a < keys.len() - 1 implies m[#[trigger] keys.drop_last()[a]].len()
            <= cap by {
            assert(keys.drop_last()[a] == keys[a]);
        }
        lemma_slack_nonneg(keys.drop_last(), m, cap);
        assert(m[keys[keys.len() - 1]].len() <= cap);
    }
}

pub proof fn lemma_slack_agree(
    keys: Seq<char>,
    m1: Map<char, Seq<char>>,
    m2: Map<char, Seq<char>>,
    cap: int,
)
    requires
        forall|a: int| 0 <= a < keys.len() ==> m1[#[trigger] keys[a]] == m2[keys[a]],
    ensures
        slack(keys, m1, cap) == slack(keys, m2, cap),
    decreases keys.len(),
{
    if keys.len() > 0 {
        assert forall|a: int| 0 <= a < keys.len() - 1 implies m1[#[trigger] keys.drop_last()[a]]
            == m2[keys.drop_last()[a]] by {
            assert(keys.drop_last()[a] == keys[a]);
        }
        lemma_slack_agree(keys.drop_last(), m1, m2, cap);
        assert(m1[keys[keys.len() - 1]] == m2[keys[keys.len() - 1]]);
    }
}

/// Appending one terminal to the list of a key that occurs once in `keys`
/// lowers the total slack by exactly one.
pub proof fn lemma_slack_push(
    keys: Seq<char>,
    m: Map<char, Seq<char>>,
    cap: int,
    a0: int,
    c: char,
)
    requires
        keys.no_duplicates(),
        0 <= a0 < keys.len(),
    ensures
        slack(keys, m.insert(keys[a0], m[keys[a0]].push(c)), cap) == slack(keys, m, cap) - 1,
    decreases keys.len(),
{
    let k0 = keys[a0];
    let m2 = m.insert(k0, m[k0].push(c));
    if a0 == keys.len() - 1 {
        assert forall|a: int| 0 <= a < keys.len() - 1 implies m[#[trigger] keys.drop_last()[a]]
            == m2[keys.drop_last()[a]] by {
            assert(keys.drop_last()[a] == keys[a]);
            assert(keys[a] != k0);
        }
        lemma_slack_agree(keys.drop_last(), m, m2, cap);
        assert(m2[keys.last()] == m[k0].push(c));
    } else {
        assert(keys[keys.len() - 1] != k0);
        assert(keys.drop_last()[a0] == keys[a0]);
        lemma_slack_push(keys.drop_last(), m, cap, a0, c);
        assert(m2[keys.last()] == m[keys.last()]);
    }
}

/// A list without duplicates whose elements all lie in a finite set is
/// no longer than that set's size.
pub proof fn lemma_nodup_len_le(v: Seq<char>, u: Set<char>)
    requires
        v.no_duplicates(),
        u.finite(),
        forall|i: int| 0 <= i < v.len() ==> u.contains(#[trigger] v[i]),
    ensures
        v.len() <= u.len(),
{
    v.unique_seq_to_set();
    assert forall|x: char| v.to_set().contains(x) implies u.contains(x) by {
        let i = choose|i: int| 0 <= i < v.len() && v[i] == x;
        assert(u.contains(v[i]));
    }
    vstd::set_lib::lemma_len_subset(v.to_set(), u);
}

/// Appending an element to a list adds it to the list's set of elements.
pub proof fn lemma_push_to_set(s: Seq<char>, x: char)
    ensures
        s.push(x).to_set() == s.to_set().insert(x),
{
    assert forall|y: char| s.push(x).to_set().contains(y) implies s.to_set().insert(x).contains(
        y,
    ) by {
        let i = choose|i: int| 0 <= i < s.push(x).len() && s.push(x)[i] == y;
        if i < s.len() {
            assert(s[i] == y);
        }
    }
    assert forall|y: char| s.to_set().insert(x).contains(y) implies s.push(x).to_set().contains(
        y,
    ) by {
        if y == x {
            assert(s.push(x)[s.len() as int] == y);
        } else {
            let i = choose|i: int| 0 <= i < s.len() && s[i] == y;
            assert(s.push(x)[i] == y);
        }
    }
    assert(s.push(x).to_set() =~= s.to_set().insert(x));
}

/// Appending a fresh element keeps a list free of duplicates.
pub proof fn lemma_push_nodup(s: Seq<char>, x: char)
    requires
        s.no_duplicates(),
        !s.contains(x),
    ensures
        s.push(x).no_duplicates(),
{
    assert forall|i: int, j: int|
        0 <= i < s.push(x).len() && 0 <= j < s.push(x).len() && i != j implies s.push(x)[i]
        != s.push(x)[j] by {
        if i < s.len() && j < s.len() {
        } else if i < s.len() {
            assert(s[i] == s.push(x)[i]);
        } else if j < s.len() {
            assert(s[j] == s.push(x)[j]);
        }
    }
}

/// Appending one terminal under one key, seen through the set view.
pub proof fn lemma_sets_view_push(fm: Map<char, Seq<char>>, k: char, f: char)
    requires
        fm.dom().contains(k),
    ensures
        sets_view(fm.insert(k, fm[k].push(f))) == sets_view(fm).insert(
            k,
            sets_view(fm)[k].insert(f),
        ),
{
    lemma_push_to_set(fm[k], f);
    assert(sets_view(fm.insert(k, fm[k].push(f))) =~= sets_view(fm).insert(
        k,
        sets_view(fm)[k].insert(f),
    ));
}

/// The set of keys whose nullable flag is still off.
pub open spec fn untrue(nm: Map<char, bool>) -> Set<char> {
    nm.dom().filter(|k: char| !nm[k])
}

} // verus!
