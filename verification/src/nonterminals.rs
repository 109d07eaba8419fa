//! The rule table and its three derived maps.

use vstd::prelude::*;
use crate::analysis::{
    first_closed, first_occ, first_rule_closed, first_solution, first_tok_ok, follow_closed,
    follow_rule_closed, follow_solution, follow_tok_ok, lemma_first_occ, lemma_null_leq_trans,
    lemma_nodup_len_le, lemma_push_nodup, lemma_push_to_set, lemma_rule_null_mono,
    lemma_sets_leq_trans, lemma_sets_view_push, lemma_slack_nonneg, lemma_slack_push,
    lemma_table_terms_finite, lemma_table_terms_has, lemma_union_vals_finite,
    lemma_union_vals_has, null_closed, null_leq, null_solution, prefix_null, rule_null, sets_leq,
    sets_view, slack, table_terms, tok_null, tok_skip, union_vals, untrue, window,
};
use crate::grammar::Token;
use crate::parse::{
    first_nl, lemma_first_nl, line_parse, load_lines, parse_grammar, parse_line_exec,
    rhs_mentions, split_lines, tab_add, LoadError, TableV,
};
use crate::store::{
    flag_store_map, rule_store_map, set_store_map, FlagStore, RuleStore, SetStore,
};
use vstd::string::StrSliceExecFns;

verus! {

/// Every nonterminal named on a right-hand side has rules of its own in
/// the table (possibly an empty list).
pub open spec fn table_keys_closed(rt: Map<char, Seq<Seq<Token>>>) -> bool {
    forall|k: char, i: int, j: int|
        #![trigger rt[k][i][j]]
        rt.dom().contains(k) && 0 <= i < rt[k].len() && 0 <= j < rt[k][i].len() ==> match rt[k][i][j] {
            Token::Nonterminal(c) => rt.dom().contains(c),
            _ => true,
        }
}

/// A grammar's nonterminals: the rule table and, derived from it, the
/// nullable, first and follow maps.
pub struct NonTerminals {
    keys: Vec<char>,
    rules: RuleStore,
    nullable: FlagStore,
    first: SetStore,
    follow: SetStore,
}

impl NonTerminals {
    /// The nonterminals, in the order their first rules were given.
    pub closed spec fn keys_v(self) -> Seq<char> {
        self.keys@
    }

    /// The rule table: each nonterminal's rules, in the order given.
    pub closed spec fn rules_v(self) -> Map<char, Seq<Seq<Token>>> {
        rule_store_map(self.rules)
    }

    /// The nullable map.
    pub closed spec fn null_v(self) -> Map<char, bool> {
        flag_store_map(self.nullable)
    }

    /// The first map, with each set in insertion order.
    pub closed spec fn first_v(self) -> Map<char, Seq<char>> {
        set_store_map(self.first)
    }

    /// The follow map, with each set in insertion order.
    pub closed spec fn follow_v(self) -> Map<char, Seq<char>> {
        set_store_map(self.follow)
    }

    /// The first map, order forgotten.
    pub open spec fn first_sets(self) -> Map<char, Set<char>> {
        sets_view(self.first_v())
    }

    /// The follow map, order forgotten.
    pub open spec fn follow_sets(self) -> Map<char, Set<char>> {
        sets_view(self.follow_v())
    }

    /// The four maps share the key list as domain, the key list has no
    /// repeats, every right-hand-side nonterminal is a key, and the
    /// stored terminal lists have no repeats.
    pub open spec fn wf(self) -> bool {
        &&& self.keys_v().no_duplicates()
        &&& self.rules_v().dom() == self.keys_v().to_set()
        &&& self.null_v().dom() == self.keys_v().to_set()
        &&& self.first_v().dom() == self.keys_v().to_set()
        &&& self.follow_v().dom() == self.keys_v().to_set()
        &&& table_keys_closed(self.rules_v())
        &&& forall|k: char|
            self.keys_v().to_set().contains(k) ==> (#[trigger] self.first_v()[k]).no_duplicates()
        &&& forall|k: char|
            self.keys_v().to_set().contains(k) ==> (#[trigger] self.follow_v()[k]).no_duplicates()
    }

    /// Flags every nonterminal that can derive the empty string: the
    /// result is the least fixed point of the nullable rules above the
    /// flags already set.
    pub fn calculate_null_set(&mut self)
        requires
            old(self).wf(),
        ensures
            final(self).wf(),
            final(self).keys_v() == old(self).keys_v(),
            final(self).rules_v() == old(self).rules_v(),
            final(self).first_v() == old(self).first_v(),
            final(self).follow_v() == old(self).follow_v(),
            null_solution(old(self).rules_v(), old(self).null_v(), final(self).null_v()),
    {
        let ghost ks0 = self.keys_v();
        let ghost rt0 = self.rules_v();
        let ghost nv0 = self.null_v();
        let ghost fv0 = self.first_v();
        let ghost wv0 = self.follow_v();
        let mut changed = true;
        while changed
            invariant
                self.wf(),
                self.keys_v() == ks0,
                self.rules_v() == rt0,
                self.first_v() == fv0,
                self.follow_v() == wv0,
                self.null_v().dom() == nv0.dom(),
                null_leq(nv0, self.null_v()),
                forall|m: Map<char, bool>|
                    m.dom() == nv0.dom() && null_leq(nv0, m) && #[trigger] null_closed(rt0, m)
                        ==> null_leq(self.null_v(), m),
                !changed ==> null_closed(rt0, self.null_v()),
            decreases untrue(self.null_v()).len() + (if changed { 1int } else { 0int }),
        {
            let ghost prev = self.null_v();
            changed = self.null_pass();
            proof {
                lemma_null_leq_trans(nv0, prev, self.null_v());
                assert forall|m: Map<char, bool>|
                    m.dom() == nv0.dom() && null_leq(nv0, m) && #[trigger] null_closed(rt0, m)
                        implies null_leq(self.null_v(), m) by {
                    assert(null_leq(prev, m));
                }
                if changed {
                    vstd::seq_lib::seq_to_set_is_finite(ks0);
                    prev.dom().lemma_len_filter(|k: char| !prev[k]);
                    assert forall|x: char| untrue(self.null_v()).contains(x) implies untrue(
                        prev,
                    ).contains(x) by {
                        assert(prev.dom().contains(x) && !self.null_v()[x]);
                        assert(!prev[x]);
                    }
                    let k = choose|k: char|
                        prev.dom().contains(k) && !prev[k] && self.null_v()[k];
                    assert(untrue(prev).contains(k));
                    assert(!untrue(self.null_v()).contains(k));
                    untrue(self.null_v()).lemma_subset_not_in_lt(untrue(prev), k);
                }
            }
        }
    }

    /// One full pass of the nullable iteration: looks at every rule once,
    /// flags its owner when the rule is nullable, and reports whether
    /// anything changed.
    fn null_pass(&mut self) -> (ch: bool)
        requires
            old(self).wf(),
        ensures
            final(self).wf(),
            final(self).keys_v() == old(self).keys_v(),
            final(self).rules_v() == old(self).rules_v(),
            final(self).first_v() == old(self).first_v(),
            final(self).follow_v() == old(self).follow_v(),
            final(self).null_v().dom() == old(self).null_v().dom(),
            null_leq(old(self).null_v(), final(self).null_v()),
            !ch ==> final(self).null_v() == old(self).null_v() && null_closed(
                old(self).rules_v(),
                final(self).null_v(),
            ),
            ch ==> exists|k: char| #![auto]
                old(self).null_v().dom().contains(k) && !old(self).null_v()[k]
                    && final(self).null_v()[k],
            forall|m: Map<char, bool>|
                m.dom() == old(self).null_v().dom() && null_leq(old(self).null_v(), m)
                    && #[trigger] null_closed(old(self).rules_v(), m) ==> null_leq(
                    final(self).null_v(),
                    m,
                ),
    {
        let ghost ks0 = self.keys_v();
        let ghost rt0 = self.rules_v();
        let ghost nv_in = self.null_v();
        let ghost fv0 = self.first_v();
        let ghost wv0 = self.follow_v();
        let mut ch = false;
        let n = self.keys.len();
        let mut a: usize = 0;
        while a < n
            invariant
                self.wf(),
                self.keys_v() == ks0,
                self.rules_v() == rt0,
                self.first_v() == fv0,
                self.follow_v() == wv0,
                self.null_v().dom() == nv_in.dom(),
                n == ks0.len(),
                a <= n,
                null_leq(nv_in, self.null_v()),
                forall|m: Map<char, bool>|
                    m.dom() == nv_in.dom() && null_leq(nv_in, m) && #[trigger] null_closed(rt0, m)
                        ==> null_leq(self.null_v(), m),
                !ch ==> self.null_v() == nv_in,
                !ch ==> forall|b: int, i: int|
                    0 <= b < a && 0 <= i < rt0[ks0[b]].len() && rule_null(
                        #[trigger] rt0[ks0[b]][i],
                        nv_in,
                    ) ==> nv_in[ks0[b]],
                ch ==> exists|k: char| #![auto]
                    nv_in.dom().contains(k) && !nv_in[k] && self.null_v()[k],
            decreases n - a,
        {
            let k = self.keys[a];
            proof {
                assert(ks0.contains(k));
            }
            let ghost nv_key = self.null_v();
            let rules = self.rules.rules(k);
            let nr = rules.len();
            let mut i: usize = 0;
            while i < nr
                invariant
                    self.wf(),
                    self.keys_v() == ks0,
                    self.rules_v() == rt0,
                    self.first_v() == fv0,
                    self.follow_v() == wv0,
                    self.null_v().dom() == nv_in.dom(),
                    i <= nr,
                    0 <= a < ks0.len(),
                    k == ks0[a as int],
                    ks0.to_set().contains(k),
                    nr == rt0[k].len(),
                    rules@.len() == rt0[k].len(),
                    forall|q: int| 0 <= q < rules@.len() ==> (#[trigger] rules@[q])@ == rt0[k][q],
                    null_leq(nv_in, self.null_v()),
                    forall|m: Map<char, bool>|
                        m.dom() == nv_in.dom() && null_leq(nv_in, m) && #[trigger] null_closed(
                            rt0,
                            m,
                        ) ==> null_leq(self.null_v(), m),
                    !ch ==> self.null_v() == nv_in,
                    !ch ==> forall|b: int, ii: int|
                        0 <= b < a && 0 <= ii < rt0[ks0[b]].len() && rule_null(
                            #[trigger] rt0[ks0[b]][ii],
                            nv_in,
                        ) ==> nv_in[ks0[b]],
                    !ch ==> forall|ii: int|
                        0 <= ii < i && rule_null(#[trigger] rt0[k][ii], nv_in) ==> nv_in[k],
                    ch ==> exists|kk: char| #![auto]
                        nv_in.dom().contains(kk) && !nv_in[kk] && self.null_v()[kk],
                decreases nr - i,
            {
                let rule = &rules[i];
                proof {
                    assert(rule@ == rt0[k][i as int]);
                }
                let m = rule.len();
                let mut all_null = true;
                let ghost snap = *self;
                let mut j: usize = 0;
                while j < m
                    invariant
                        *self == snap,
                        self.wf(),
                        self.rules_v() == rt0,
                        ks0.to_set().contains(k),
                        0 <= a < ks0.len(),
                        k == ks0[a as int],
                        i < nr,
                        nr == rt0[k].len(),
                        rule@ == rt0[k][i as int],
                        m == rule@.len(),
                        j <= m,
                        self.null_v().dom() == self.keys_v().to_set(),
                        self.keys_v() == ks0,
                        all_null <==> (forall|q: int|
                            0 <= q < j ==> tok_null(#[trigger] rule@[q], self.null_v())),
                    decreases m - j,
                {
                    match rule[j] {
                        Token::Null => {},
                        Token::Terminal(_) => {
                            all_null = false;
                            proof {
                                assert(!tok_null(rule@[j as int], self.null_v()));
                            }
                        },
                        Token::Nonterminal(c) => {
                            proof {
                                assert(rt0[k][i as int][j as int] == Token::Nonterminal(c));
                                assert(rt0.dom().contains(c));
                            }
                            let b = self.nullable.get(c);
                            if !b {
                                all_null = false;
                                proof {
                                    assert(!tok_null(rule@[j as int], self.null_v()));
                                }
                            }
                        },
                    }
                    j += 1;
                }
                proof {
                    assert(all_null == rule_null(rule@, self.null_v()));
                }
                if all_null {
                    if !self.nullable.get(k) {
                        let ghost before = self.null_v();
                        self.nullable.set_true(k);
                        ch = true;
                        proof {
                            assert(self.null_v() == before.insert(k, true));
                            assert(self.null_v().dom() =~= before.dom());
                            assert forall|kk: char| nv_in.dom().contains(kk) && #[trigger] nv_in[kk]
                                implies self.null_v()[kk] by {
                                assert(before[kk]);
                            }
                            assert forall|m2: Map<char, bool>|
                                m2.dom() == nv_in.dom() && null_leq(nv_in, m2)
                                    && #[trigger] null_closed(rt0, m2) implies null_leq(
                                self.null_v(),
                                m2,
                            ) by {
                                assert(null_leq(before, m2));
                                lemma_rule_null_mono(rule@, before, m2);
                                assert(rule_null(rt0[k][i as int], m2));
                                assert(m2[k]);
                                assert forall|kk: char|
                                    self.null_v().dom().contains(kk) && #[trigger] self.null_v()[kk]
                                        implies m2[kk] by {
                                    if kk != k {
                                        assert(before[kk]);
                                    }
                                }
                            }
                            assert(nv_in.dom().contains(k) && !nv_in[k] && self.null_v()[k]);
                        }
                    }
                }
                proof {
                    if !ch {
                        assert forall|ii: int|
                            0 <= ii < i + 1 && rule_null(#[trigger] rt0[k][ii], nv_in)
                                implies nv_in[k] by {
                            if ii == i {
                                assert(!all_null || nv_in[k]);
                            }
                        }
                    }
                }
                i += 1;
            }
            proof {
                if !ch {
                    assert forall|b: int, ii: int|
                        0 <= b < a + 1 && 0 <= ii < rt0[ks0[b]].len() && rule_null(
                            #[trigger] rt0[ks0[b]][ii],
                            nv_in,
                        ) implies nv_in[ks0[b]] by {
                        if b == a {
                            assert(ks0[b] == k);
                        }
                    }
                }
            }
            a += 1;
        }
        proof {
            if !ch {
                assert forall|k: char, i: int|
                    rt0.dom().contains(k) && 0 <= i < rt0[k].len() && rule_null(
                        #[trigger] rt0[k][i],
                        self.null_v(),
                    ) implies self.null_v()[k] by {
                    assert(ks0.to_set().contains(k));
                    assert(ks0.contains(k));
                    let b = choose|b: int| 0 <= b < ks0.len() && ks0[b] == k;
                    assert(rule_null(rt0[ks0[b]][i], nv_in));
                }
            }
        }
        ch
    }
    /// The frame that every loop of the first-set iteration preserves.
    spec fn fp_frame(
        self,
        ks0: Seq<char>,
        rt0: Map<char, Seq<Seq<Token>>>,
        nv0: Map<char, bool>,
        wv0: Map<char, Seq<char>>,
        u: Set<char>,
    ) -> bool {
        &&& self.wf()
        &&& self.keys_v() == ks0
        &&& self.rules_v() == rt0
        &&& self.null_v() == nv0
        &&& self.follow_v() == wv0
        &&& self.first_v().dom() == ks0.to_set()
        &&& forall|kk: char|
            ks0.to_set().contains(kk) ==> (#[trigger] self.first_v()[kk]).to_set().subset_of(u)
    }

    /// What the first-set iteration has achieved so far, relative to the
    /// map `fm_in` it started from.
    spec fn fp_progress(
        self,
        ks0: Seq<char>,
        rt0: Map<char, Seq<Seq<Token>>>,
        nv0: Map<char, bool>,
        fm_in: Map<char, Seq<char>>,
        u: Set<char>,
        ch: bool,
    ) -> bool {
        &&& sets_leq(sets_view(fm_in), sets_view(self.first_v()))
        &&& forall|mm: Map<char, Set<char>>|
            mm.dom() == sets_view(fm_in).dom() && sets_leq(sets_view(fm_in), mm)
                && #[trigger] first_closed(rt0, nv0, mm) ==> sets_leq(
                sets_view(self.first_v()),
                mm,
            )
        &&& (!ch ==> self.first_v() == fm_in)
        &&& (ch ==> slack(ks0, self.first_v(), u.len() as int) < slack(
            ks0,
            fm_in,
            u.len() as int,
        ))
    }

    /// Fills each nonterminal's first set: the result is the least map of
    /// sets closed under the first-set rules above the sets already there.
    /// The nullable map must have been computed first.
    pub fn calculate_first_set(&mut self)
        requires
            old(self).wf(),
        ensures
            final(self).wf(),
            final(self).keys_v() == old(self).keys_v(),
            final(self).rules_v() == old(self).rules_v(),
            final(self).null_v() == old(self).null_v(),
            final(self).follow_v() == old(self).follow_v(),
            first_solution(
                old(self).rules_v(),
                old(self).null_v(),
                old(self).first_sets(),
                final(self).first_sets(),
            ),
    {
        let ghost ks0 = self.keys_v();
        let ghost rt0 = self.rules_v();
        let ghost nv0 = self.null_v();
        let ghost wv0 = self.follow_v();
        let ghost fm0 = self.first_v();
        let ghost u = table_terms(ks0, rt0).union(union_vals(ks0, fm0));
        proof {
            lemma_table_terms_finite(ks0, rt0);
            lemma_union_vals_finite(ks0, fm0);
            assert forall|kk: char| ks0.to_set().contains(kk) implies (#[trigger] fm0[kk]).to_set().subset_of(
                u,
            ) by {
                assert(ks0.contains(kk));
                let a = choose|a: int| 0 <= a < ks0.len() && ks0[a] == kk;
                assert forall|x: char| fm0[kk].to_set().contains(x) implies u.contains(x) by {
                    lemma_union_vals_has(ks0, fm0, a, x);
                }
            }
        }
        proof {
            assert(table_terms(ks0, rt0).subset_of(u));
            assert forall|a: int| 0 <= a < ks0.len() implies fm0[#[trigger] ks0[a]].len()
                <= u.len() as int by {
                assert(ks0.to_set().contains(ks0[a]));
                lemma_nodup_len_le(fm0[ks0[a]], u);
            }
            lemma_slack_nonneg(ks0, fm0, u.len() as int);
        }
        let mut changed = true;
        while changed
            invariant
                self.fp_frame(ks0, rt0, nv0, wv0, u),
                u.finite(),
                table_terms(ks0, rt0).subset_of(u),
                fm0.dom() == ks0.to_set(),
                sets_leq(sets_view(fm0), sets_view(self.first_v())),
                forall|mm: Map<char, Set<char>>|
                    mm.dom() == sets_view(fm0).dom() && sets_leq(sets_view(fm0), mm)
                        && #[trigger] first_closed(rt0, nv0, mm) ==> sets_leq(
                        sets_view(self.first_v()),
                        mm,
                    ),
                !changed ==> first_closed(rt0, nv0, sets_view(self.first_v())),
                slack(ks0, self.first_v(), u.len() as int) >= 0,
            decreases slack(ks0, self.first_v(), u.len() as int) + (if changed {
                1int
            } else {
                0int
            }),
        {
            let ghost prev = self.first_v();
            changed = self.first_pass(Ghost(u));
            proof {
                lemma_sets_leq_trans(
                    sets_view(fm0),
                    sets_view(prev),
                    sets_view(self.first_v()),
                );
                assert forall|mm: Map<char, Set<char>>|
                    mm.dom() == sets_view(fm0).dom() && sets_leq(sets_view(fm0), mm)
                        && #[trigger] first_closed(rt0, nv0, mm) implies sets_leq(
                    sets_view(self.first_v()),
                    mm,
                ) by {
                    assert(sets_leq(sets_view(prev), mm));
                    assert(sets_view(prev).dom() =~= sets_view(fm0).dom());
                }
                let fc = self.first_v();
                assert forall|a: int| 0 <= a < ks0.len() implies fc[#[trigger] ks0[a]].len()
                    <= u.len() as int by {
                    assert(ks0.to_set().contains(ks0[a]));
                    lemma_nodup_len_le(fc[ks0[a]], u);
                }
                lemma_slack_nonneg(ks0, fc, u.len() as int);
            }
        }
        proof {
            assert(sets_view(self.first_v()).dom() =~= sets_view(fm0).dom());
        }
    }

    /// One full pass of the first-set iteration: scans every rule once,
    /// adds the contributions its owner's first set is missing, and
    /// reports whether anything changed.
    fn first_pass(&mut self, u: Ghost<Set<char>>) -> (ch: bool)
        requires
            old(self).wf(),
            u@.finite(),
            table_terms(old(self).keys_v(), old(self).rules_v()).subset_of(u@),
            forall|kk: char|
                old(self).keys_v().to_set().contains(kk) ==> (#[trigger] old(
                    self,
                ).first_v()[kk]).to_set().subset_of(u@),
        ensures
            final(self).fp_frame(
                old(self).keys_v(),
                old(self).rules_v(),
                old(self).null_v(),
                old(self).follow_v(),
                u@,
            ),
            final(self).fp_progress(
                old(self).keys_v(),
                old(self).rules_v(),
                old(self).null_v(),
                old(self).first_v(),
                u@,
                ch,
            ),
            !ch ==> first_closed(
                old(self).rules_v(),
                old(self).null_v(),
                sets_view(final(self).first_v()),
            ),
    {
        let ghost ks0 = self.keys_v();
        let ghost rt0 = self.rules_v();
        let ghost nv0 = self.null_v();
        let ghost wv0 = self.follow_v();
        let ghost fm_in = self.first_v();
        let ghost fs_in = sets_view(fm_in);
        let mut ch = false;
        let n = self.keys.len();
        let mut a: usize = 0;
        while a < n
            invariant
                self.fp_frame(ks0, rt0, nv0, wv0, u@),
                self.fp_progress(ks0, rt0, nv0, fm_in, u@, ch),
                u@.finite(),
                table_terms(ks0, rt0).subset_of(u@),
                fm_in.dom() == ks0.to_set(),
                fs_in == sets_view(fm_in),
                n == ks0.len(),
                a <= n,
                !ch ==> forall|b: int, ii: int|
                    0 <= b < a && 0 <= ii < rt0[ks0[b]].len() ==> first_rule_closed(
                        ks0[b],
                        #[trigger] rt0[ks0[b]][ii],
                        nv0,
                        fs_in,
                    ),
            decreases n - a,
        {
            let k = self.keys[a];
            proof {
                assert(ks0.contains(k));
            }
            let rules = self.rules.rules(k);
            let nr = rules.len();
            let mut i: usize = 0;
            while i < nr
                invariant
                    self.fp_frame(ks0, rt0, nv0, wv0, u@),
                    self.fp_progress(ks0, rt0, nv0, fm_in, u@, ch),
                    u@.finite(),
                    table_terms(ks0, rt0).subset_of(u@),
                    fm_in.dom() == ks0.to_set(),
                    fs_in == sets_view(fm_in),
                    i <= nr,
                    0 <= a < ks0.len(),
                    k == ks0[a as int],
                    ks0.to_set().contains(k),
                    nr == rt0[k].len(),
                    rules@.len() == rt0[k].len(),
                    forall|q: int| 0 <= q < rules@.len() ==> (#[trigger] rules@[q])@ == rt0[k][q],
                    !ch ==> forall|b: int, ii: int|
                        0 <= b < a && 0 <= ii < rt0[ks0[b]].len() ==> first_rule_closed(
                            ks0[b],
                            #[trigger] rt0[ks0[b]][ii],
                            nv0,
                            fs_in,
                        ),
                    !ch ==> forall|ii: int|
                        0 <= ii < i ==> first_rule_closed(k, #[trigger] rt0[k][ii], nv0, fs_in),
                decreases nr - i,
            {
                let rule = &rules[i];
                proof {
                    assert(rule@ == rt0[k][i as int]);
                }
                let m = rule.len();
                let mut stop = false;
                let mut j: usize = 0;
                while j < m
                    invariant
                        self.fp_frame(ks0, rt0, nv0, wv0, u@),
                        self.fp_progress(ks0, rt0, nv0, fm_in, u@, ch),
                        u@.finite(),
                        table_terms(ks0, rt0).subset_of(u@),
                        fm_in.dom() == ks0.to_set(),
                        fs_in == sets_view(fm_in),
                        0 <= a < ks0.len(),
                        k == ks0[a as int],
                        ks0.to_set().contains(k),
                        i < nr,
                        nr == rt0[k].len(),
                        rule@ == rt0[k][i as int],
                        m == rule@.len(),
                        j <= m,
                        stop == !prefix_null(rule@, nv0, j as int),
                        !ch ==> forall|jj: int|
                            0 <= jj < j && prefix_null(rule@, nv0, jj) ==> first_tok_ok(
                                k,
                                #[trigger] rule@[jj],
                                fs_in,
                            ),
                        !ch ==> forall|b: int, ii: int|
                            0 <= b < a && 0 <= ii < rt0[ks0[b]].len() ==> first_rule_closed(
                                ks0[b],
                                #[trigger] rt0[ks0[b]][ii],
                                nv0,
                                fs_in,
                            ),
                        !ch ==> forall|ii: int|
                            0 <= ii < i ==> first_rule_closed(k, #[trigger] rt0[k][ii], nv0, fs_in),
                    decreases m - j,
                {
                    let ghost fm_j = self.first_v();
                    if !stop {
                        match rule[j] {
                            Token::Null => {
                                proof {
                                    assert(tok_null(rule@[j as int], nv0));
                                    assert(first_tok_ok(k, rule@[j as int], fs_in));
                                    assert(prefix_null(rule@, nv0, j as int + 1));
                                }
                            },
                            Token::Terminal(t) => {
                                let present = vec_has(self.first.get(k), t);
                                proof {
                                    if !ch && present {
                                        assert(self.first_v() == fm_in);
                                        assert(fm_in[k].contains(t));
                                        assert(fs_in[k] == fm_in[k].to_set());
                                        assert(first_tok_ok(k, rule@[j as int], fs_in));
                                    }
                                }
                                if !present {
                                    let ghost fm_b = self.first_v();
                                    proof {
                                        lemma_table_terms_has(
                                            ks0, rt0, a as int, i as int, j as int, t,
                                        );
                                        assert(u@.contains(t));
                                    }
                                    self.first.push(k, t);
                                    ch = true;
                                    proof {
                                        self.first_push_facts(
                                            ks0, rt0, nv0, wv0, fm_in, u@, fm_b, k, t, a as int,
                                        );
                                        assert forall|mm: Map<char, Set<char>>|
                                            mm.dom() == fs_in.dom() && sets_leq(fs_in, mm)
                                                && #[trigger] first_closed(rt0, nv0, mm)
                                                implies sets_leq(
                                            sets_view(self.first_v()),
                                            mm,
                                        ) by {
                                            assert(first_rule_closed(k, rt0[k][i as int], nv0, mm));
                                            assert(first_tok_ok(k, rule@[j as int], mm));
                                            assert(mm[k].contains(t));
                                            assert(sets_leq(sets_view(fm_b), mm));
                                            lemma_sets_view_push(fm_b, k, t);
                                            assert forall|kk: char|
                                                sets_view(self.first_v()).dom().contains(kk)
                                                    implies (#[trigger] sets_view(
                                                self.first_v(),
                                            )[kk]).subset_of(mm[kk]) by {
                                                if kk != k {
                                                    assert(sets_view(self.first_v())[kk]
                                                        == sets_view(fm_b)[kk]);
                                                }
                                            }
                                        }
                                    }
                                }
                                stop = true;
                                proof {
                                    assert(!tok_null(rule@[j as int], nv0));
                                    assert(!prefix_null(rule@, nv0, j as int + 1));
                                }
                            },
                            Token::Nonterminal(c) => {
                                proof {
                                    assert(rt0[k][i as int][j as int] == Token::Nonterminal(c));
                                    assert(rt0.dom().contains(c));
                                }
                                let fc = self.first.get_clone(c);
                                let ghost fm_c = self.first_v();
                                let nf = fc.len();
                                let mut q: usize = 0;
                                while q < nf
                                    invariant
                                        self.fp_frame(ks0, rt0, nv0, wv0, u@),
                                        self.fp_progress(ks0, rt0, nv0, fm_in, u@, ch),
                                        u@.finite(),
                                        fm_in.dom() == ks0.to_set(),
                                        fs_in == sets_view(fm_in),
                                        0 <= a < ks0.len(),
                                        k == ks0[a as int],
                                        ks0.to_set().contains(k),
                                        ks0.to_set().contains(c),
                                        i < nr,
                                        nr == rt0[k].len(),
                                        rule@ == rt0[k][i as int],
                                        j < m,
                                        m == rule@.len(),
                                        rule@[j as int] == Token::Nonterminal(c),
                                        prefix_null(rule@, nv0, j as int),
                                        q <= nf,
                                        nf == fc@.len(),
                                        fc@ == fm_c[c],
                                        fm_c.dom() == ks0.to_set(),
                                        fm_c[c].to_set().subset_of(u@),
                                        sets_leq(sets_view(fm_c), sets_view(self.first_v())),
                                        !ch ==> forall|jj: int|
                                            0 <= jj < j && prefix_null(rule@, nv0, jj)
                                                ==> first_tok_ok(
                                                k,
                                                #[trigger] rule@[jj],
                                                fs_in,
                                            ),
                                        !ch ==> forall|b: int, ii: int|
                                            0 <= b < a && 0 <= ii < rt0[ks0[b]].len()
                                                ==> first_rule_closed(
                                                ks0[b],
                                                #[trigger] rt0[ks0[b]][ii],
                                                nv0,
                                                fs_in,
                                            ),
                                        !ch ==> forall|ii: int|
                                            0 <= ii < i ==> first_rule_closed(
                                                k,
                                                #[trigger] rt0[k][ii],
                                                nv0,
                                                fs_in,
                                            ),
                                        !ch ==> fm_c == fm_in,
                                        !ch ==> forall|qq: int|
                                            0 <= qq < q ==> fs_in[k].contains(#[trigger] fc@[qq]),
                                    decreases nf - q,
                                {
                                    let f = fc[q];
                                    let present = vec_has(self.first.get(k), f);
                                    if !present {
                                        let ghost fm_b = self.first_v();
                                        self.first.push(k, f);
                                        ch = true;
                                        proof {
                                            self.first_push_facts(
                                                ks0, rt0, nv0, wv0, fm_in, u@, fm_b, k, f, a as int,
                                            );
                                            assert(fm_c[c].to_set().contains(f));
                                            assert(u@.contains(f));
                                            assert forall|mm: Map<char, Set<char>>|
                                                mm.dom() == fs_in.dom() && sets_leq(fs_in, mm)
                                                    && #[trigger] first_closed(rt0, nv0, mm)
                                                    implies sets_leq(
                                                sets_view(self.first_v()),
                                                mm,
                                            ) by {
                                                assert(first_rule_closed(
                                                    k,
                                                    rt0[k][i as int],
                                                    nv0,
                                                    mm,
                                                ));
                                                assert(first_tok_ok(k, rule@[j as int], mm));
                                                assert(mm[c].subset_of(mm[k]));
                                                assert(sets_leq(sets_view(fm_b), mm));
                                                assert(sets_view(fm_c)[c].subset_of(
                                                    sets_view(fm_b)[c],
                                                ));
                                                assert(mm[c].contains(f));
                                                assert(mm[k].contains(f));
                                                lemma_sets_view_push(fm_b, k, f);
                                                assert forall|kk: char|
                                                    sets_view(self.first_v()).dom().contains(kk)
                                                        implies (#[trigger] sets_view(
                                                    self.first_v(),
                                                )[kk]).subset_of(mm[kk]) by {
                                                    if kk != k {
                                                        assert(sets_view(self.first_v())[kk]
                                                            == sets_view(fm_b)[kk]);
                                                    }
                                                }
                                            }
                                            assert(sets_leq(
                                                sets_view(fm_c),
                                                sets_view(self.first_v()),
                                            )) by {
                                                lemma_sets_leq_trans(
                                                    sets_view(fm_c),
                                                    sets_view(fm_b),
                                                    sets_view(self.first_v()),
                                                );
                                            }
                                        }
                                    }
                                    q += 1;
                                }
                                proof {
                                    if !ch {
                                        assert forall|jj: int|
                                            0 <= jj < j + 1 && prefix_null(rule@, nv0, jj)
                                                implies first_tok_ok(
                                            k,
                                            #[trigger] rule@[jj],
                                            fs_in,
                                        ) by {
                                            if jj == j {
                                                assert forall|x: char| fs_in[c].contains(x)
                                                    implies fs_in[k].contains(x) by {
                                                    assert(fm_in[c].to_set().contains(x));
                                                    assert(fm_in[c].contains(x));
                                                    let qq = choose|qq: int|
                                                        0 <= qq < fm_in[c].len() && fm_in[c][qq]
                                                            == x;
                                                    assert(fc@[qq] == x);
                                                }
                                                assert(fs_in[c].subset_of(fs_in[k]));
                                            }
                                        }
                                    }
                                }
                                let nb = self.nullable.get(c);
                                if !nb {
                                    stop = true;
                                }
                                proof {
                                    if nb {
                                        assert(tok_null(rule@[j as int], nv0));
                                        assert(prefix_null(rule@, nv0, j as int + 1));
                                    } else {
                                        assert(!tok_null(rule@[j as int], nv0));
                                        assert(!prefix_null(rule@, nv0, j as int + 1));
                                    }
                                }
                            },
                        }
                    } else {
                        proof {
                            let w = choose|w: int|
                                0 <= w < j && !tok_null(rule@[w], nv0);
                            assert(!prefix_null(rule@, nv0, j as int + 1));
                        }
                    }
                    proof {
                        if !ch {
                            assert forall|jj: int|
                                0 <= jj < j + 1 && prefix_null(rule@, nv0, jj)
                                    implies first_tok_ok(k, #[trigger] rule@[jj], fs_in) by {}
                        }
                    }
                    j += 1;
                }
                proof {
                    if !ch {
                        assert(first_rule_closed(k, rt0[k][i as int], nv0, fs_in));
                        assert forall|ii: int| 0 <= ii < i + 1 implies first_rule_closed(
                            k,
                            #[trigger] rt0[k][ii],
                            nv0,
                            fs_in,
                        ) by {}
                    }
                }
                i += 1;
            }
            proof {
                if !ch {
                    assert forall|b: int, ii: int|
                        0 <= b < a + 1 && 0 <= ii < rt0[ks0[b]].len() implies first_rule_closed(
                        ks0[b],
                        #[trigger] rt0[ks0[b]][ii],
                        nv0,
                        fs_in,
                    ) by {
                        if b == a {
                            assert(ks0[b] == k);
                        }
                    }
                }
            }
            a += 1;
        }
        proof {
            if !ch {
                assert forall|k: char, i: int|
                    rt0.dom().contains(k) && 0 <= i < rt0[k].len() implies first_rule_closed(
                    k,
                    #[trigger] rt0[k][i],
                    nv0,
                    sets_view(self.first_v()),
                ) by {
                    assert(ks0.to_set().contains(k));
                    assert(ks0.contains(k));
                    let b = choose|b: int| 0 <= b < ks0.len() && ks0[b] == k;
                    assert(first_rule_closed(ks0[b], rt0[ks0[b]][i], nv0, fs_in));
                }
            }
        }
        ch
    }

    /// The bookkeeping common to every insertion the first-set pass makes:
    /// the frame is preserved and the slack strictly shrinks.
    proof fn first_push_facts(
        &self,
        ks0: Seq<char>,
        rt0: Map<char, Seq<Seq<Token>>>,
        nv0: Map<char, bool>,
        wv0: Map<char, Seq<char>>,
        fm_in: Map<char, Seq<char>>,
        u: Set<char>,
        fm_b: Map<char, Seq<char>>,
        k: char,
        f: char,
        a: int,
    )
        requires
            self.first_v() == fm_b.insert(k, fm_b[k].push(f)),
            self.keys_v() == ks0,
            self.rules_v() == rt0,
            self.null_v() == nv0,
            self.follow_v() == wv0,
            self.keys_v().no_duplicates(),
            self.rules_v().dom() == ks0.to_set(),
            self.null_v().dom() == ks0.to_set(),
            self.follow_v().dom() == ks0.to_set(),
            crate::nonterminals::table_keys_closed(rt0),
            forall|kk: char|
                ks0.to_set().contains(kk) ==> (#[trigger] self.follow_v()[kk]).no_duplicates(),
            fm_b.dom() == ks0.to_set(),
            forall|kk: char|
                ks0.to_set().contains(kk) ==> (#[trigger] fm_b[kk]).no_duplicates(),
            forall|kk: char|
                ks0.to_set().contains(kk) ==> (#[trigger] fm_b[kk]).to_set().subset_of(u),
            ks0.to_set().contains(k),
            0 <= a < ks0.len(),
            ks0[a] == k,
            !fm_b[k].contains(f),
            u.contains(f),
            u.finite(),
            fm_in.dom() == ks0.to_set(),
            sets_leq(sets_view(fm_in), sets_view(fm_b)),
            fm_b == fm_in || slack(ks0, fm_b, u.len() as int) < slack(ks0, fm_in, u.len() as int),
        ensures
            self.wf(),
            self.first_v().dom() == ks0.to_set(),
            forall|kk: char|
                ks0.to_set().contains(kk) ==> (#[trigger] self.first_v()[kk]).to_set().subset_of(
                    u,
                ),
            sets_leq(sets_view(fm_in), sets_view(self.first_v())),
            sets_leq(sets_view(fm_b), sets_view(self.first_v())),
            slack(ks0, self.first_v(), u.len() as int) < slack(ks0, fm_in, u.len() as int),
    {
        let cap = u.len() as int;
        let fm2 = self.first_v();
        assert(fm2.dom() =~= ks0.to_set());
        lemma_push_to_set(fm_b[k], f);
        lemma_push_nodup(fm_b[k], f);
        assert forall|kk: char| ks0.to_set().contains(kk) implies (
        #[trigger] fm2[kk]).no_duplicates() by {
            if kk != k {
                assert(fm2[kk] == fm_b[kk]);
            }
        }
        assert forall|kk: char| ks0.to_set().contains(kk) implies (
        #[trigger] fm2[kk]).to_set().subset_of(u) by {
            if kk != k {
                assert(fm2[kk] == fm_b[kk]);
            } else {
                assert(fm2[k].to_set() == fm_b[k].to_set().insert(f));
            }
        }
        lemma_sets_view_push(fm_b, k, f);
        assert forall|kk: char| sets_view(fm_b).dom().contains(kk) implies (#[trigger] sets_view(
            fm_b,
        )[kk]).subset_of(sets_view(fm2)[kk]) by {
            if kk != k {
                assert(sets_view(fm2)[kk] == sets_view(fm_b)[kk]);
            }
        }
        assert(sets_view(fm_b).dom() =~= sets_view(fm2).dom());
        lemma_sets_leq_trans(sets_view(fm_in), sets_view(fm_b), sets_view(fm2));
        lemma_slack_push(ks0, fm_b, cap, a, f);
        if fm_b == fm_in {
            assert forall|aa: int| 0 <= aa < ks0.len() implies fm_in[#[trigger] ks0[aa]].len()
                <= cap by {
                assert(ks0.to_set().contains(ks0[aa]));
                lemma_nodup_len_le(fm_in[ks0[aa]], u);
            }
            lemma_slack_nonneg(ks0, fm_in, cap);
        }
    }

    /// The frame that every loop of the follow-set iteration preserves.
    spec fn wp_frame(
        self,
        ks0: Seq<char>,
        rt0: Map<char, Seq<Seq<Token>>>,
        nv0: Map<char, bool>,
        fv0: Map<char, Seq<char>>,
        u: Set<char>,
    ) -> bool {
        &&& self.wf()
        &&& self.keys_v() == ks0
        &&& self.rules_v() == rt0
        &&& self.null_v() == nv0
        &&& self.first_v() == fv0
        &&& self.follow_v().dom() == ks0.to_set()
        &&& forall|kk: char|
            ks0.to_set().contains(kk) ==> (#[trigger] self.follow_v()[kk]).to_set().subset_of(u)
    }

    /// What the follow-set iteration has achieved so far, relative to the
    /// map `wm_in` it started from.
    spec fn wp_progress(
        self,
        ks0: Seq<char>,
        rt0: Map<char, Seq<Seq<Token>>>,
        nv0: Map<char, bool>,
        fs0: Map<char, Set<char>>,
        wm_in: Map<char, Seq<char>>,
        u: Set<char>,
        ch: bool,
    ) -> bool {
        &&& sets_leq(sets_view(wm_in), sets_view(self.follow_v()))
        &&& forall|mm: Map<char, Set<char>>|
            mm.dom() == sets_view(wm_in).dom() && sets_leq(sets_view(wm_in), mm)
                && #[trigger] follow_closed(rt0, nv0, fs0, mm) ==> sets_leq(
                sets_view(self.follow_v()),
                mm,
            )
        &&& (!ch ==> self.follow_v() == wm_in)
        &&& (ch ==> slack(ks0, self.follow_v(), u.len() as int) < slack(
            ks0,
            wm_in,
            u.len() as int,
        ))
    }
}

/// Whether the list holds the character.
fn vec_has(v: &Vec<char>, c: char) -> (r: bool)
    ensures
        r == v@.contains(c),
{
    let n = v.len();
    let mut i: usize = 0;
    while i < n
        invariant
            i <= n,
            n == v@.len(),
            forall|q: int| 0 <= q < i ==> v@[q] != c,
        decreases n - i,
    {
        if v[i] == c {
            return true;
        }
        i += 1;
    }
    false
}

impl NonTerminals {
    /// Fills each nonterminal's follow set: the result is the least map of
    /// sets closed under the follow-set rules above the sets already there.
    /// The nullable and first maps must have been computed first.
    pub fn calculate_follow_set(&mut self)
        requires
            old(self).wf(),
        ensures
            final(self).wf(),
            final(self).keys_v() == old(self).keys_v(),
            final(self).rules_v() == old(self).rules_v(),
            final(self).null_v() == old(self).null_v(),
            final(self).first_v() == old(self).first_v(),
            follow_solution(
                old(self).rules_v(),
                old(self).null_v(),
                old(self).first_sets(),
                old(self).follow_sets(),
                final(self).follow_sets(),
            ),
    {
        let ghost ks0 = self.keys_v();
        let ghost rt0 = self.rules_v();
        let ghost nv0 = self.null_v();
        let ghost fv0 = self.first_v();
        let ghost wm0 = self.follow_v();
        let ghost fs0 = sets_view(fv0);
        let ghost u = table_terms(ks0, rt0).union(union_vals(ks0, fv0)).union(
            union_vals(ks0, wm0),
        );
        proof {
            lemma_table_terms_finite(ks0, rt0);
            lemma_union_vals_finite(ks0, fv0);
            lemma_union_vals_finite(ks0, wm0);
            assert forall|kk: char| ks0.to_set().contains(kk) implies (#[trigger] fv0[kk]).to_set().subset_of(
                u,
            ) by {
                assert(ks0.contains(kk));
                let a = choose|a: int| 0 <= a < ks0.len() && ks0[a] == kk;
                assert forall|x: char| fv0[kk].to_set().contains(x) implies u.contains(x) by {
                    lemma_union_vals_has(ks0, fv0, a, x);
                }
            }
            assert forall|kk: char| ks0.to_set().contains(kk) implies (#[trigger] wm0[kk]).to_set().subset_of(
                u,
            ) by {
                assert(ks0.contains(kk));
                let a = choose|a: int| 0 <= a < ks0.len() && ks0[a] == kk;
                assert forall|x: char| wm0[kk].to_set().contains(x) implies u.contains(x) by {
                    lemma_union_vals_has(ks0, wm0, a, x);
                }
            }
            assert(table_terms(ks0, rt0).subset_of(u));
            assert forall|a: int| 0 <= a < ks0.len() implies wm0[#[trigger] ks0[a]].len()
                <= u.len() as int by {
                assert(ks0.to_set().contains(ks0[a]));
                lemma_nodup_len_le(wm0[ks0[a]], u);
            }
            lemma_slack_nonneg(ks0, wm0, u.len() as int);
        }
        let mut changed = true;
        while changed
            invariant
                self.wp_frame(ks0, rt0, nv0, fv0, u),
                u.finite(),
                table_terms(ks0, rt0).subset_of(u),
                fs0 == sets_view(fv0),
                forall|kk: char|
                    ks0.to_set().contains(kk) ==> (#[trigger] fv0[kk]).to_set().subset_of(u),
                wm0.dom() == ks0.to_set(),
                sets_leq(sets_view(wm0), sets_view(self.follow_v())),
                forall|mm: Map<char, Set<char>>|
                    mm.dom() == sets_view(wm0).dom() && sets_leq(sets_view(wm0), mm)
                        && #[trigger] follow_closed(rt0, nv0, fs0, mm) ==> sets_leq(
                        sets_view(self.follow_v()),
                        mm,
                    ),
                !changed ==> follow_closed(rt0, nv0, fs0, sets_view(self.follow_v())),
                slack(ks0, self.follow_v(), u.len() as int) >= 0,
            decreases slack(ks0, self.follow_v(), u.len() as int) + (if changed {
                1int
            } else {
                0int
            }),
        {
            let ghost prev = self.follow_v();
            changed = self.follow_pass(Ghost(u));
            proof {
                lemma_sets_leq_trans(
                    sets_view(wm0),
                    sets_view(prev),
                    sets_view(self.follow_v()),
                );
                assert forall|mm: Map<char, Set<char>>|
                    mm.dom() == sets_view(wm0).dom() && sets_leq(sets_view(wm0), mm)
                        && #[trigger] follow_closed(rt0, nv0, fs0, mm) implies sets_leq(
                    sets_view(self.follow_v()),
                    mm,
                ) by {
                    assert(sets_leq(sets_view(prev), mm));
                    assert(sets_view(prev).dom() =~= sets_view(wm0).dom());
                }
                let wc = self.follow_v();
                assert forall|a: int| 0 <= a < ks0.len() implies wc[#[trigger] ks0[a]].len()
                    <= u.len() as int by {
                    assert(ks0.to_set().contains(ks0[a]));
                    lemma_nodup_len_le(wc[ks0[a]], u);
                }
                lemma_slack_nonneg(ks0, wc, u.len() as int);
            }
        }
        proof {
            assert(sets_view(self.follow_v()).dom() =~= sets_view(wm0).dom());
        }
    }

    /// One full pass of the follow-set iteration: for every nonterminal as
    /// target, scans every rule once with a small state machine, adds the
    /// contributions the target's follow set is missing, and reports
    /// whether anything changed.
    fn follow_pass(&mut self, u: Ghost<Set<char>>) -> (ch: bool)
        requires
            old(self).wf(),
            u@.finite(),
            table_terms(old(self).keys_v(), old(self).rules_v()).subset_of(u@),
            forall|kk: char|
                old(self).keys_v().to_set().contains(kk) ==> (#[trigger] old(
                    self,
                ).first_v()[kk]).to_set().subset_of(u@),
            forall|kk: char|
                old(self).keys_v().to_set().contains(kk) ==> (#[trigger] old(
                    self,
                ).follow_v()[kk]).to_set().subset_of(u@),
        ensures
            final(self).wp_frame(
                old(self).keys_v(),
                old(self).rules_v(),
                old(self).null_v(),
                old(self).first_v(),
                u@,
            ),
            final(self).wp_progress(
                old(self).keys_v(),
                old(self).rules_v(),
                old(self).null_v(),
                sets_view(old(self).first_v()),
                old(self).follow_v(),
                u@,
                ch,
            ),
            !ch ==> follow_closed(
                old(self).rules_v(),
                old(self).null_v(),
                sets_view(old(self).first_v()),
                sets_view(final(self).follow_v()),
            ),
    {
        let ghost ks0 = self.keys_v();
        let ghost rt0 = self.rules_v();
        let ghost nv0 = self.null_v();
        let ghost fv0 = self.first_v();
        let ghost wm_in = self.follow_v();
        let ghost fs0 = sets_view(fv0);
        let ghost ws_in = sets_view(wm_in);
        let mut ch = false;
        let n = self.keys.len();
        let mut t_i: usize = 0;
        while t_i < n
            invariant
                self.wp_frame(ks0, rt0, nv0, fv0, u@),
                self.wp_progress(ks0, rt0, nv0, fs0, wm_in, u@, ch),
                u@.finite(),
                table_terms(ks0, rt0).subset_of(u@),
                forall|kk: char|
                    ks0.to_set().contains(kk) ==> (#[trigger] fv0[kk]).to_set().subset_of(u@),
                wm_in.dom() == ks0.to_set(),
                fs0 == sets_view(fv0),
                ws_in == sets_view(wm_in),
                n == ks0.len(),
                t_i <= n,
                !ch ==> forall|b: int, e: int, ii: int|
                    #![trigger rt0[ks0[e]][ii], ks0[b]]
                    0 <= b < t_i && 0 <= e < ks0.len() && 0 <= ii < rt0[ks0[e]].len()
                        ==> follow_rule_closed(ks0[b], ks0[e], rt0[ks0[e]][ii], nv0, fs0, ws_in),
            decreases n - t_i,
        {
            let nt = self.keys[t_i];
            proof {
                assert(ks0.contains(nt));
            }
            let mut l_i: usize = 0;
            while l_i < n
                invariant
                    self.wp_frame(ks0, rt0, nv0, fv0, u@),
                    self.wp_progress(ks0, rt0, nv0, fs0, wm_in, u@, ch),
                    u@.finite(),
                    table_terms(ks0, rt0).subset_of(u@),
                    forall|kk: char|
                        ks0.to_set().contains(kk) ==> (#[trigger] fv0[kk]).to_set().subset_of(u@),
                    wm_in.dom() == ks0.to_set(),
                    fs0 == sets_view(fv0),
                    ws_in == sets_view(wm_in),
                    n == ks0.len(),
                    0 <= t_i < n,
                    nt == ks0[t_i as int],
                    ks0.to_set().contains(nt),
                    l_i <= n,
                    !ch ==> forall|b: int, e: int, ii: int|
                        #![trigger rt0[ks0[e]][ii], ks0[b]]
                        0 <= b < t_i && 0 <= e < ks0.len() && 0 <= ii < rt0[ks0[e]].len()
                            ==> follow_rule_closed(
                            ks0[b],
                            ks0[e],
                            rt0[ks0[e]][ii],
                            nv0,
                            fs0,
                            ws_in,
                        ),
                    !ch ==> forall|e: int, ii: int|
                        0 <= e < l_i && 0 <= ii < rt0[ks0[e]].len() ==> follow_rule_closed(
                            nt,
                            ks0[e],
                            #[trigger] rt0[ks0[e]][ii],
                            nv0,
                            fs0,
                            ws_in,
                        ),
                decreases n - l_i,
            {
                let lhs = self.keys[l_i];
                proof {
                    assert(ks0.contains(lhs));
                }
                let rules = self.rules.rules(lhs);
                let nr = rules.len();
                let mut i: usize = 0;
                while i < nr
                    invariant
                        self.wp_frame(ks0, rt0, nv0, fv0, u@),
                        self.wp_progress(ks0, rt0, nv0, fs0, wm_in, u@, ch),
                        u@.finite(),
                        table_terms(ks0, rt0).subset_of(u@),
                        forall|kk: char|
                            ks0.to_set().contains(kk) ==> (#[trigger] fv0[kk]).to_set().subset_of(
                                u@,
                            ),
                        wm_in.dom() == ks0.to_set(),
                        fs0 == sets_view(fv0),
                        ws_in == sets_view(wm_in),
                        n == ks0.len(),
                        0 <= t_i < n,
                        nt == ks0[t_i as int],
                        ks0.to_set().contains(nt),
                        0 <= l_i < n,
                        lhs == ks0[l_i as int],
                        ks0.to_set().contains(lhs),
                        i <= nr,
                        nr == rt0[lhs].len(),
                        rules@.len() == rt0[lhs].len(),
                        forall|q: int|
                            0 <= q < rules@.len() ==> (#[trigger] rules@[q])@ == rt0[lhs][q],
                        !ch ==> forall|b: int, e: int, ii: int|
                            #![trigger rt0[ks0[e]][ii], ks0[b]]
                            0 <= b < t_i && 0 <= e < ks0.len() && 0 <= ii < rt0[ks0[e]].len()
                                ==> follow_rule_closed(
                                ks0[b],
                                ks0[e],
                                rt0[ks0[e]][ii],
                                nv0,
                                fs0,
                                ws_in,
                            ),
                        !ch ==> forall|e: int, ii: int|
                            0 <= e < l_i && 0 <= ii < rt0[ks0[e]].len() ==> follow_rule_closed(
                                nt,
                                ks0[e],
                                #[trigger] rt0[ks0[e]][ii],
                                nv0,
                                fs0,
                                ws_in,
                            ),
                        !ch ==> forall|ii: int|
                            0 <= ii < i ==> follow_rule_closed(
                                nt,
                                lhs,
                                #[trigger] rt0[lhs][ii],
                                nv0,
                                fs0,
                                ws_in,
                            ),
                    decreases nr - i,
                {
                    let rule = &rules[i];
                    proof {
                        assert(rule@ == rt0[lhs][i as int]);
                        lemma_first_occ(rule@, nt);
                    }
                    let m = rule.len();
                    let mut state: u8 = 0;
                    let mut nte = false;
                    let ghost mut p: int = 0;
                    let mut j: usize = 0;
                    while j < m
                        invariant
                            self.wp_frame(ks0, rt0, nv0, fv0, u@),
                            self.wp_progress(ks0, rt0, nv0, fs0, wm_in, u@, ch),
                            u@.finite(),
                            table_terms(ks0, rt0).subset_of(u@),
                            forall|kk: char|
                                ks0.to_set().contains(kk) ==> (
                                #[trigger] fv0[kk]).to_set().subset_of(u@),
                            wm_in.dom() == ks0.to_set(),
                            fs0 == sets_view(fv0),
                            ws_in == sets_view(wm_in),
                            0 <= t_i < ks0.len(),
                            nt == ks0[t_i as int],
                            ks0.to_set().contains(nt),
                            0 <= l_i < ks0.len(),
                            lhs == ks0[l_i as int],
                            ks0.to_set().contains(lhs),
                            i < nr,
                            nr == rt0[lhs].len(),
                            rule@ == rt0[lhs][i as int],
                            m == rule@.len(),
                            j <= m,
                            state == 0 || state == 1 || state == 2,
                            nte == (state == 1),
                            state == 0 ==> forall|q: int|
                                0 <= q < j ==> #[trigger] rule@[q] != Token::Nonterminal(nt),
                            state >= 1 ==> p == first_occ(rule@, nt) && 0 <= p < j && rule@[p]
                                == Token::Nonterminal(nt),
                            state == 1 ==> window(rule@, nt, nv0, p, j as int),
                            state == 2 ==> !window(rule@, nt, nv0, p, j as int),
                            !ch && state >= 1 ==> forall|jj: int|
                                p < jj < j && window(rule@, nt, nv0, p, jj) ==> follow_tok_ok(
                                    nt,
                                    #[trigger] rule@[jj],
                                    fs0,
                                    ws_in,
                                ),
                            !ch ==> forall|b: int, e: int, ii: int|
                                #![trigger rt0[ks0[e]][ii], ks0[b]]
                                0 <= b < t_i && 0 <= e < ks0.len() && 0 <= ii < rt0[ks0[e]].len()
                                    ==> follow_rule_closed(
                                    ks0[b],
                                    ks0[e],
                                    rt0[ks0[e]][ii],
                                    nv0,
                                    fs0,
                                    ws_in,
                                ),
                            !ch ==> forall|e: int, ii: int|
                                0 <= e < l_i && 0 <= ii < rt0[ks0[e]].len() ==> follow_rule_closed(
                                    nt,
                                    ks0[e],
                                    #[trigger] rt0[ks0[e]][ii],
                                    nv0,
                                    fs0,
                                    ws_in,
                                ),
                            !ch ==> forall|ii: int|
                                0 <= ii < i ==> follow_rule_closed(
                                    nt,
                                    lhs,
                                    #[trigger] rt0[lhs][ii],
                                    nv0,
                                    fs0,
                                    ws_in,
                                ),
                        decreases m - j,
                    {
                        match rule[j] {
                            Token::Null => {
                                proof {
                                    if state == 1 {
                                        assert(tok_skip(rule@[j as int], nt, nv0));
                                        assert(window(rule@, nt, nv0, p, j as int + 1));
                                        if !ch {
                                            assert(follow_tok_ok(
                                                nt,
                                                rule@[j as int],
                                                fs0,
                                                ws_in,
                                            ));
                                        }
                                    }
                                    if state == 2 {
                                        let w = choose|w: int|
                                            p < w < j && !tok_skip(rule@[w], nt, nv0);
                                        assert(!window(rule@, nt, nv0, p, j as int + 1));
                                    }
                                }
                            },
                            Token::Terminal(f) => {
                                nte = false;
                                if state == 0 {
                                    proof {
                                        assert(rule@[j as int] != Token::Nonterminal(nt));
                                    }
                                } else if state == 1 {
                                    let present = vec_has(self.follow.get(nt), f);
                                    proof {
                                        if !ch && present {
                                            assert(self.follow_v() == wm_in);
                                            assert(wm_in[nt].contains(f));
                                            assert(ws_in[nt] == wm_in[nt].to_set());
                                            assert(follow_tok_ok(
                                                nt,
                                                rule@[j as int],
                                                fs0,
                                                ws_in,
                                            ));
                                        }
                                    }
                                    if !present {
                                        let ghost wm_b = self.follow_v();
                                        proof {
                                            lemma_table_terms_has(
                                                ks0, rt0, l_i as int, i as int, j as int, f,
                                            );
                                            assert(u@.contains(f));
                                        }
                                        self.follow.push(nt, f);
                                        ch = true;
                                        proof {
                                            self.follow_push_facts(
                                                ks0, rt0, nv0, fv0, wm_in, u@, wm_b, nt, f,
                                                t_i as int,
                                            );
                                            assert forall|mm: Map<char, Set<char>>|
                                                mm.dom() == ws_in.dom() && sets_leq(ws_in, mm)
                                                    && #[trigger] follow_closed(rt0, nv0, fs0, mm)
                                                    implies sets_leq(
                                                sets_view(self.follow_v()),
                                                mm,
                                            ) by {
                                                assert(follow_rule_closed(
                                                    nt,
                                                    lhs,
                                                    rt0[lhs][i as int],
                                                    nv0,
                                                    fs0,
                                                    mm,
                                                ));
                                                assert(follow_tok_ok(
                                                    nt,
                                                    rule@[j as int],
                                                    fs0,
                                                    mm,
                                                ));
                                                assert(mm[nt].contains(f));
                                                assert(sets_leq(sets_view(wm_b), mm));
                                                lemma_sets_view_push(wm_b, nt, f);
                                                assert forall|kk: char|
                                                    sets_view(self.follow_v()).dom().contains(kk)
                                                        implies (#[trigger] sets_view(
                                                    self.follow_v(),
                                                )[kk]).subset_of(mm[kk]) by {
                                                    if kk != nt {
                                                        assert(sets_view(self.follow_v())[kk]
                                                            == sets_view(wm_b)[kk]);
                                                    }
                                                }
                                            }
                                        }
                                    }
                                    state = 2;
                                    proof {
                                        assert(!tok_skip(rule@[j as int], nt, nv0));
                                        assert(!window(rule@, nt, nv0, p, j as int + 1));
                                    }
                                } else {
                                    proof {
                                        let w = choose|w: int|
                                            p < w < j && !tok_skip(rule@[w], nt, nv0);
                                        assert(!window(rule@, nt, nv0, p, j as int + 1));
                                    }
                                }
                            },
                            Token::Nonterminal(c) => {
                                if state == 0 && c == nt {
                                    state = 1;
                                    nte = true;
                                    proof {
                                        p = j as int;
                                        lemma_first_occ(rule@, nt);
                                        assert(rule@[j as int] == Token::Nonterminal(nt));
                                        if first_occ(rule@, nt) < j {
                                            assert(rule@[first_occ(rule@, nt)]
                                                != Token::Nonterminal(nt));
                                            assert(false);
                                        }
                                        if first_occ(rule@, nt) > j {
                                            assert(rule@[j as int] != Token::Nonterminal(nt));
                                            assert(false);
                                        }
                                        assert(p == first_occ(rule@, nt));
                                        assert(window(rule@, nt, nv0, p, j as int + 1));
                                    }
                                } else if state == 1 && c != nt {
                                    proof {
                                        assert(rt0[lhs][i as int][j as int]
                                            == Token::Nonterminal(c));
                                        assert(rt0.dom().contains(c));
                                    }
                                    let fc = self.first.get_clone(c);
                                    let nf = fc.len();
                                    let mut q: usize = 0;
                                    while q < nf
                                        invariant
                                            self.wp_frame(ks0, rt0, nv0, fv0, u@),
                                            self.wp_progress(ks0, rt0, nv0, fs0, wm_in, u@, ch),
                                            u@.finite(),
                                            wm_in.dom() == ks0.to_set(),
                                            fs0 == sets_view(fv0),
                                            ws_in == sets_view(wm_in),
                                            forall|kk: char|
                                                ks0.to_set().contains(kk) ==> (
                                                #[trigger] fv0[kk]).to_set().subset_of(u@),
                                            0 <= t_i < ks0.len(),
                                            nt == ks0[t_i as int],
                                            ks0.to_set().contains(nt),
                                            0 <= l_i < ks0.len(),
                                            lhs == ks0[l_i as int],
                                            ks0.to_set().contains(lhs),
                                            ks0.to_set().contains(c),
                                            i < nr,
                                            nr == rt0[lhs].len(),
                                            rule@ == rt0[lhs][i as int],
                                            j < m,
                                            m == rule@.len(),
                                            rule@[j as int] == Token::Nonterminal(c),
                                            c != nt,
                                            p == first_occ(rule@, nt),
                                            0 <= p < j,
                                            rule@[p] == Token::Nonterminal(nt),
                                            window(rule@, nt, nv0, p, j as int),
                                            q <= nf,
                                            nf == fc@.len(),
                                            fc@ == fv0[c],
                                            !ch ==> forall|jj: int|
                                                p < jj < j && window(rule@, nt, nv0, p, jj)
                                                    ==> follow_tok_ok(
                                                    nt,
                                                    #[trigger] rule@[jj],
                                                    fs0,
                                                    ws_in,
                                                ),
                                            !ch ==> forall|b: int, e: int, ii: int|
                                                #![trigger rt0[ks0[e]][ii], ks0[b]]
                                                0 <= b < t_i && 0 <= e < ks0.len() && 0 <= ii
                                                    < rt0[ks0[e]].len() ==> follow_rule_closed(
                                                    ks0[b],
                                                    ks0[e],
                                                    rt0[ks0[e]][ii],
                                                    nv0,
                                                    fs0,
                                                    ws_in,
                                                ),
                                            !ch ==> forall|e: int, ii: int|
                                                0 <= e < l_i && 0 <= ii < rt0[ks0[e]].len()
                                                    ==> follow_rule_closed(
                                                    nt,
                                                    ks0[e],
                                                    #[trigger] rt0[ks0[e]][ii],
                                                    nv0,
                                                    fs0,
                                                    ws_in,
                                                ),
                                            !ch ==> forall|ii: int|
                                                0 <= ii < i ==> follow_rule_closed(
                                                    nt,
                                                    lhs,
                                                    #[trigger] rt0[lhs][ii],
                                                    nv0,
                                                    fs0,
                                                    ws_in,
                                                ),
                                            !ch ==> forall|qq: int|
                                                0 <= qq < q ==> ws_in[nt].contains(
                                                    #[trigger] fc@[qq],
                                                ),
                                        decreases nf - q,
                                    {
                                        let f = fc[q];
                                        let present = vec_has(self.follow.get(nt), f);
                                        proof {
                                            if !ch && present {
                                                assert(self.follow_v() == wm_in);
                                                assert(wm_in[nt].contains(f));
                                                assert(ws_in[nt] == wm_in[nt].to_set());
                                            }
                                        }
                                        if !present {
                                            let ghost wm_b = self.follow_v();
                                            proof {
                                                assert(fv0[c].to_set().contains(f));
                                                assert(u@.contains(f));
                                            }
                                            self.follow.push(nt, f);
                                            ch = true;
                                            proof {
                                                self.follow_push_facts(
                                                    ks0, rt0, nv0, fv0, wm_in, u@, wm_b, nt, f,
                                                    t_i as int,
                                                );
                                                assert forall|mm: Map<char, Set<char>>|
                                                    mm.dom() == ws_in.dom() && sets_leq(ws_in, mm)
                                                        && #[trigger] follow_closed(
                                                        rt0,
                                                        nv0,
                                                        fs0,
                                                        mm,
                                                    ) implies sets_leq(
                                                    sets_view(self.follow_v()),
                                                    mm,
                                                ) by {
                                                    assert(follow_rule_closed(
                                                        nt,
                                                        lhs,
                                                        rt0[lhs][i as int],
                                                        nv0,
                                                        fs0,
                                                        mm,
                                                    ));
                                                    assert(follow_tok_ok(
                                                        nt,
                                                        rule@[j as int],
                                                        fs0,
                                                        mm,
                                                    ));
                                                    assert(fs0[c].subset_of(mm[nt]));
                                                    assert(fs0[c] == fv0[c].to_set());
                                                    assert(mm[nt].contains(f));
                                                    assert(sets_leq(sets_view(wm_b), mm));
                                                    lemma_sets_view_push(wm_b, nt, f);
                                                    assert forall|kk: char|
                                                        sets_view(
                                                            self.follow_v(),
                                                        ).dom().contains(kk) implies (
                                                    #[trigger] sets_view(
                                                        self.follow_v(),
                                                    )[kk]).subset_of(mm[kk]) by {
                                                        if kk != nt {
                                                            assert(sets_view(self.follow_v())[kk]
                                                                == sets_view(wm_b)[kk]);
                                                        }
                                                    }
                                                }
                                            }
                                        }
                                        q += 1;
                                    }
                                    proof {
                                        if !ch {
                                            assert(self.follow_v() == wm_in);
                                            assert forall|x: char| fs0[c].contains(x)
                                                implies ws_in[nt].contains(x) by {
                                                assert(fv0[c].to_set().contains(x));
                                                assert(fv0[c].contains(x));
                                                let qq = choose|qq: int|
                                                    0 <= qq < fv0[c].len() && fv0[c][qq] == x;
                                                assert(fc@[qq] == x);
                                            }
                                            assert(follow_tok_ok(
                                                nt,
                                                rule@[j as int],
                                                fs0,
                                                ws_in,
                                            ));
                                        }
                                    }
                                    let nb = self.nullable.get(c);
                                    if !nb {
                                        state = 2;
                                        nte = false;
                                        proof {
                                            assert(!tok_skip(rule@[j as int], nt, nv0));
                                            assert(!window(rule@, nt, nv0, p, j as int + 1));
                                        }
                                    } else {
                                        proof {
                                            assert(tok_skip(rule@[j as int], nt, nv0));
                                            assert(window(rule@, nt, nv0, p, j as int + 1));
                                        }
                                    }
                                } else {
                                    proof {
                                        if state == 0 {
                                            assert(c != nt);
                                            assert(rule@[j as int] != Token::Nonterminal(nt));
                                        }
                                        if state == 1 {
                                            assert(c == nt);
                                            assert(tok_skip(rule@[j as int], nt, nv0));
                                            assert(window(rule@, nt, nv0, p, j as int + 1));
                                            if !ch {
                                                assert(follow_tok_ok(
                                                    nt,
                                                    rule@[j as int],
                                                    fs0,
                                                    ws_in,
                                                ));
                                            }
                                        }
                                        if state == 2 {
                                            let w = choose|w: int|
                                                p < w < j && !tok_skip(rule@[w], nt, nv0);
                                            assert(!window(rule@, nt, nv0, p, j as int + 1));
                                        }
                                    }
                                }
                            },
                        }
                        j += 1;
                    }
                    let ghost state_end = state;
                    if nte {
                        if lhs != nt {
                            let fl = self.follow.get_clone(lhs);
                            let ghost wm_c = self.follow_v();
                            let nf = fl.len();
                            let mut q: usize = 0;
                            while q < nf
                                invariant
                                    self.wp_frame(ks0, rt0, nv0, fv0, u@),
                                    self.wp_progress(ks0, rt0, nv0, fs0, wm_in, u@, ch),
                                    u@.finite(),
                                    wm_in.dom() == ks0.to_set(),
                                    fs0 == sets_view(fv0),
                                    ws_in == sets_view(wm_in),
                                    0 <= t_i < ks0.len(),
                                    nt == ks0[t_i as int],
                                    ks0.to_set().contains(nt),
                                    0 <= l_i < ks0.len(),
                                    lhs == ks0[l_i as int],
                                    ks0.to_set().contains(lhs),
                                    lhs != nt,
                                    i < nr,
                                    nr == rt0[lhs].len(),
                                    rule@ == rt0[lhs][i as int],
                                    m == rule@.len(),
                                    p == first_occ(rule@, nt),
                                    0 <= p < m,
                                    rule@[p] == Token::Nonterminal(nt),
                                    window(rule@, nt, nv0, p, m as int),
                                    q <= nf,
                                    nf == fl@.len(),
                                    fl@ == wm_c[lhs],
                                    wm_c.dom() == ks0.to_set(),
                                    wm_c[lhs].to_set().subset_of(u@),
                                    sets_leq(sets_view(wm_c), sets_view(self.follow_v())),
                                    !ch ==> wm_c == wm_in,
                                    !ch ==> forall|jj: int|
                                        p < jj < m && window(rule@, nt, nv0, p, jj)
                                            ==> follow_tok_ok(
                                            nt,
                                            #[trigger] rule@[jj],
                                            fs0,
                                            ws_in,
                                        ),
                                    !ch ==> forall|b: int, e: int, ii: int|
                                        #![trigger rt0[ks0[e]][ii], ks0[b]]
                                        0 <= b < t_i && 0 <= e < ks0.len() && 0 <= ii < rt0[ks0[e]].len()
                                            ==> follow_rule_closed(
                                            ks0[b],
                                            ks0[e],
                                            rt0[ks0[e]][ii],
                                            nv0,
                                            fs0,
                                            ws_in,
                                        ),
                                    !ch ==> forall|e: int, ii: int|
                                        0 <= e < l_i && 0 <= ii < rt0[ks0[e]].len()
                                            ==> follow_rule_closed(
                                            nt,
                                            ks0[e],
                                            #[trigger] rt0[ks0[e]][ii],
                                            nv0,
                                            fs0,
                                            ws_in,
                                        ),
                                    !ch ==> forall|ii: int|
                                        0 <= ii < i ==> follow_rule_closed(
                                            nt,
                                            lhs,
                                            #[trigger] rt0[lhs][ii],
                                            nv0,
                                            fs0,
                                            ws_in,
                                        ),
                                    !ch ==> forall|qq: int|
                                        0 <= qq < q ==> ws_in[nt].contains(#[trigger] fl@[qq]),
                                decreases nf - q,
                            {
                                let f = fl[q];
                                let present = vec_has(self.follow.get(nt), f);
                                proof {
                                    if !ch && present {
                                        assert(self.follow_v() == wm_in);
                                        assert(wm_in[nt].contains(f));
                                        assert(ws_in[nt] == wm_in[nt].to_set());
                                    }
                                }
                                if !present {
                                    let ghost wm_b = self.follow_v();
                                    proof {
                                        assert(wm_c[lhs].to_set().contains(f));
                                        assert(u@.contains(f));
                                    }
                                    self.follow.push(nt, f);
                                    ch = true;
                                    proof {
                                        self.follow_push_facts(
                                            ks0, rt0, nv0, fv0, wm_in, u@, wm_b, nt, f,
                                            t_i as int,
                                        );
                                        assert forall|mm: Map<char, Set<char>>|
                                            mm.dom() == ws_in.dom() && sets_leq(ws_in, mm)
                                                && #[trigger] follow_closed(rt0, nv0, fs0, mm)
                                                implies sets_leq(
                                            sets_view(self.follow_v()),
                                            mm,
                                        ) by {
                                            assert(follow_rule_closed(
                                                nt,
                                                lhs,
                                                rt0[lhs][i as int],
                                                nv0,
                                                fs0,
                                                mm,
                                            ));
                                            assert(mm[lhs].subset_of(mm[nt]));
                                            assert(sets_leq(sets_view(wm_b), mm));
                                            assert(sets_view(wm_c)[lhs].subset_of(
                                                sets_view(wm_b)[lhs],
                                            ));
                                            assert(sets_view(wm_c)[lhs].contains(f));
                                            assert(mm[lhs].contains(f));
                                            assert(mm[nt].contains(f));
                                            lemma_sets_view_push(wm_b, nt, f);
                                            assert forall|kk: char|
                                                sets_view(self.follow_v()).dom().contains(kk)
                                                    implies (#[trigger] sets_view(
                                                self.follow_v(),
                                            )[kk]).subset_of(mm[kk]) by {
                                                if kk != nt {
                                                    assert(sets_view(self.follow_v())[kk]
                                                        == sets_view(wm_b)[kk]);
                                                }
                                            }
                                        }
                                        lemma_sets_leq_trans(
                                            sets_view(wm_c),
                                            sets_view(wm_b),
                                            sets_view(self.follow_v()),
                                        );
                                    }
                                }
                                q += 1;
                            }
                            proof {
                                if !ch {
                                    assert forall|x: char| ws_in[lhs].contains(x)
                                        implies ws_in[nt].contains(x) by {
                                        assert(wm_in[lhs].to_set().contains(x));
                                        assert(wm_in[lhs].contains(x));
                                        let qq = choose|qq: int|
                                            0 <= qq < wm_in[lhs].len() && wm_in[lhs][qq] == x;
                                        assert(fl@[qq] == x);
                                    }
                                    assert(ws_in[lhs].subset_of(ws_in[nt]));
                                }
                            }
                        }
                    }
                    proof {
                        if !ch {
                            let fo = first_occ(rule@, nt);
                            lemma_first_occ(rule@, nt);
                            if state_end == 0 {
                                if fo < m {
                                    assert(rule@[fo] == Token::Nonterminal(nt));
                                    assert(false);
                                }
                                assert(follow_rule_closed(nt, lhs, rule@, nv0, fs0, ws_in));
                            } else {
                                assert(p == fo);
                                if state_end == 1 {
                                    assert(follow_rule_closed(nt, lhs, rule@, nv0, fs0, ws_in));
                                } else {
                                    assert(!window(rule@, nt, nv0, p, m as int));
                                    assert(follow_rule_closed(nt, lhs, rule@, nv0, fs0, ws_in));
                                }
                            }
                            assert forall|ii: int| 0 <= ii < i + 1 implies follow_rule_closed(
                                nt,
                                lhs,
                                #[trigger] rt0[lhs][ii],
                                nv0,
                                fs0,
                                ws_in,
                            ) by {
                                if ii == i {
                                    assert(rt0[lhs][ii] == rule@);
                                }
                            }
                        }
                    }
                    i += 1;
                }
                proof {
                    if !ch {
                        assert forall|e: int, ii: int|
                            0 <= e < l_i + 1 && 0 <= ii < rt0[ks0[e]].len()
                                implies follow_rule_closed(
                            nt,
                            ks0[e],
                            #[trigger] rt0[ks0[e]][ii],
                            nv0,
                            fs0,
                            ws_in,
                        ) by {
                            if e == l_i {
                                assert(ks0[e] == lhs);
                            }
                        }
                    }
                }
                l_i += 1;
            }
            proof {
                if !ch {
                    assert forall|b: int, e: int, ii: int|
                        #![trigger rt0[ks0[e]][ii], ks0[b]]
                        0 <= b < t_i + 1 && 0 <= e < ks0.len() && 0 <= ii < rt0[ks0[e]].len()
                            implies follow_rule_closed(
                        ks0[b],
                        ks0[e],
                        rt0[ks0[e]][ii],
                        nv0,
                        fs0,
                        ws_in,
                    ) by {
                        if b == t_i {
                            assert(ks0[b] == nt);
                        }
                    }
                }
            }
            t_i += 1;
        }
        proof {
            if !ch {
                assert(self.follow_v() == wm_in);
                assert forall|nt2: char, lhs2: char, i2: int|
                    #![trigger rt0.dom().contains(nt2), rt0[lhs2][i2]]
                    rt0.dom().contains(nt2) && rt0.dom().contains(lhs2) && 0 <= i2
                        < rt0[lhs2].len() implies follow_rule_closed(
                    nt2,
                    lhs2,
                    rt0[lhs2][i2],
                    nv0,
                    fs0,
                    sets_view(self.follow_v()),
                ) by {
                    assert(ks0.to_set().contains(nt2));
                    assert(ks0.contains(nt2));
                    assert(ks0.to_set().contains(lhs2));
                    assert(ks0.contains(lhs2));
                    let b = choose|b: int| 0 <= b < ks0.len() && ks0[b] == nt2;
                    let e = choose|e: int| 0 <= e < ks0.len() && ks0[e] == lhs2;
                    assert(follow_rule_closed(
                        ks0[b],
                        ks0[e],
                        rt0[ks0[e]][i2],
                        nv0,
                        fs0,
                        ws_in,
                    ));
                }
            }
        }
        ch
    }

    /// The bookkeeping common to every insertion the follow-set pass makes:
    /// the frame is preserved and the slack strictly shrinks.
    proof fn follow_push_facts(
        &self,
        ks0: Seq<char>,
        rt0: Map<char, Seq<Seq<Token>>>,
        nv0: Map<char, bool>,
        fv0: Map<char, Seq<char>>,
        wm_in: Map<char, Seq<char>>,
        u: Set<char>,
        wm_b: Map<char, Seq<char>>,
        nt: char,
        f: char,
        a: int,
    )
        requires
            self.follow_v() == wm_b.insert(nt, wm_b[nt].push(f)),
            self.keys_v() == ks0,
            self.rules_v() == rt0,
            self.null_v() == nv0,
            self.first_v() == fv0,
            self.keys_v().no_duplicates(),
            self.rules_v().dom() == ks0.to_set(),
            self.null_v().dom() == ks0.to_set(),
            self.first_v().dom() == ks0.to_set(),
            crate::nonterminals::table_keys_closed(rt0),
            forall|kk: char|
                ks0.to_set().contains(kk) ==> (#[trigger] self.first_v()[kk]).no_duplicates(),
            wm_b.dom() == ks0.to_set(),
            forall|kk: char|
                ks0.to_set().contains(kk) ==> (#[trigger] wm_b[kk]).no_duplicates(),
            forall|kk: char|
                ks0.to_set().contains(kk) ==> (#[trigger] wm_b[kk]).to_set().subset_of(u),
            ks0.to_set().contains(nt),
            0 <= a < ks0.len(),
            ks0[a] == nt,
            !wm_b[nt].contains(f),
            u.contains(f),
            u.finite(),
            wm_in.dom() == ks0.to_set(),
            sets_leq(sets_view(wm_in), sets_view(wm_b)),
            wm_b == wm_in || slack(ks0, wm_b, u.len() as int) < slack(ks0, wm_in, u.len() as int),
        ensures
            self.wf(),
            self.follow_v().dom() == ks0.to_set(),
            forall|kk: char|
                ks0.to_set().contains(kk) ==> (#[trigger] self.follow_v()[kk]).to_set().subset_of(
                    u,
                ),
            sets_leq(sets_view(wm_in), sets_view(self.follow_v())),
            sets_leq(sets_view(wm_b), sets_view(self.follow_v())),
            slack(ks0, self.follow_v(), u.len() as int) < slack(ks0, wm_in, u.len() as int),
    {
        let cap = u.len() as int;
        let wm2 = self.follow_v();
        assert(wm2.dom() =~= ks0.to_set());
        lemma_push_to_set(wm_b[nt], f);
        lemma_push_nodup(wm_b[nt], f);
        assert forall|kk: char| ks0.to_set().contains(kk) implies (
        #[trigger] wm2[kk]).no_duplicates() by {
            if kk != nt {
                assert(wm2[kk] == wm_b[kk]);
            }
        }
        assert forall|kk: char| ks0.to_set().contains(kk) implies (
        #[trigger] wm2[kk]).to_set().subset_of(u) by {
            if kk != nt {
                assert(wm2[kk] == wm_b[kk]);
            } else {
                assert(wm2[nt].to_set() == wm_b[nt].to_set().insert(f));
            }
        }
        lemma_sets_view_push(wm_b, nt, f);
        assert forall|kk: char| sets_view(wm_b).dom().contains(kk) implies (#[trigger] sets_view(
            wm_b,
        )[kk]).subset_of(sets_view(wm2)[kk]) by {
            if kk != nt {
                assert(sets_view(wm2)[kk] == sets_view(wm_b)[kk]);
            }
        }
        assert(sets_view(wm_b).dom() =~= sets_view(wm2).dom());
        lemma_sets_leq_trans(sets_view(wm_in), sets_view(wm_b), sets_view(wm2));
        lemma_slack_push(ks0, wm_b, cap, a, f);
        if wm_b == wm_in {
            assert forall|aa: int| 0 <= aa < ks0.len() implies wm_in[#[trigger] ks0[aa]].len()
                <= cap by {
                assert(ks0.to_set().contains(ks0[aa]));
                lemma_nodup_len_le(wm_in[ks0[aa]], u);
            }
            lemma_slack_nonneg(ks0, wm_in, cap);
        }
    }
}

impl NonTerminals {
    /// Loads a grammar text: builds the rule table and seeds the three
    /// result maps — nullable `false`, first and follow empty — for every
    /// nonterminal that stands on a left-hand side. The text is rejected,
    /// with the first fault as the error, if and only if some non-empty
    /// line is malformed or some right-hand side names a nonterminal that
    /// no rule defines.
    pub fn init(grammar: String) -> (r: Result<NonTerminals, LoadError>)
        ensures
            match r {
                Ok(nt) => {
                    &&& parse_grammar(grammar@) is Ok
                    &&& nt.wf()
                    &&& nt.keys_v() == parse_grammar(grammar@)->Ok_0.keys
                    &&& nt.rules_v() == parse_grammar(grammar@)->Ok_0.rules
                    &&& table_keys_closed(nt.rules_v())
                    &&& forall|k: char|
                        nt.keys_v().to_set().contains(k) ==> (#[trigger] nt.null_v()[k]) == false
                    &&& forall|k: char|
                        nt.keys_v().to_set().contains(k) ==> (#[trigger] nt.first_v()[k])
                            == Seq::<char>::empty()
                    &&& forall|k: char|
                        nt.keys_v().to_set().contains(k) ==> (#[trigger] nt.follow_v()[k])
                            == Seq::<char>::empty()
                },
                Err(e) => match parse_grammar(grammar@) {
                    Err(pe) => e == pe,
                    Ok(t) => {
                        &&& !table_keys_closed(t.rules)
                        &&& exists|c: char|
                            #![auto]
                            e == LoadError::UndefinedNonterminal(c) && rhs_mentions(t.rules, c)
                                && !t.rules.dom().contains(c)
                    },
                },
            },
    {
        let s = grammar.as_str();
        let n = s.unicode_len();
        let mut text: Vec<char> = Vec::new();
        let mut ti: usize = 0;
        while ti < n
            invariant
                ti <= n,
                n == s@.len(),
                s@ == grammar@,
                text@ == s@.take(ti as int),
            decreases n - ti,
        {
            let c = s.get_char(ti);
            text.push(c);
            proof {
                assert(s@.take(ti as int + 1) =~= s@.take(ti as int).push(s@[ti as int]));
            }
            ti += 1;
        }
        proof {
            assert(text@ =~= s@);
        }
        let mut nt0 = NonTerminals {
            keys: Vec::new(),
            rules: RuleStore::new(),
            nullable: FlagStore::new(),
            first: SetStore::new(),
            follow: SetStore::new(),
        };
        let ghost lines = split_lines(text@);
        let ghost tab0 = TableV { keys: Seq::empty(), rules: Map::empty() };
        let ghost mut done: int = 0;
        proof {
            assert(nt0.keys_v().to_set() =~= Set::<char>::empty());
            assert(nt0.rules_v().dom() =~= nt0.keys_v().to_set());
            assert(nt0.null_v().dom() =~= nt0.keys_v().to_set());
            assert(nt0.first_v().dom() =~= nt0.keys_v().to_set());
            assert(nt0.follow_v().dom() =~= nt0.keys_v().to_set());
            assert(lines.skip(0) =~= lines);
            assert(text@.skip(0) =~= text@);
            assert(nt0.keys_v() =~= Seq::<char>::empty());
            assert(nt0.rules_v() =~= Map::<char, Seq<Seq<Token>>>::empty());
            assert(TableV { keys: nt0.keys_v(), rules: nt0.rules_v() } == tab0);
        }
        let mut pos: usize = 0;
        let mut more = true;
        while more
            invariant
                text@ == grammar@,
                lines == split_lines(text@),
                0 <= done <= lines.len(),
                more ==> pos <= text@.len() && lines.skip(done) == split_lines(
                    text@.skip(pos as int),
                ),
                !more ==> done == lines.len(),
                nt0.keys_v().no_duplicates(),
                nt0.rules_v().dom() == nt0.keys_v().to_set(),
                nt0.null_v().dom() == nt0.keys_v().to_set(),
                nt0.first_v().dom() == nt0.keys_v().to_set(),
                nt0.follow_v().dom() == nt0.keys_v().to_set(),
                forall|k: char|
                    nt0.keys_v().to_set().contains(k) ==> (#[trigger] nt0.null_v()[k]) == false,
                forall|k: char|
                    nt0.keys_v().to_set().contains(k) ==> (#[trigger] nt0.first_v()[k])
                        == Seq::<char>::empty(),
                forall|k: char|
                    nt0.keys_v().to_set().contains(k) ==> (#[trigger] nt0.follow_v()[k])
                        == Seq::<char>::empty(),
                load_lines(lines, tab0) == load_lines(
                    lines.skip(done),
                    TableV { keys: nt0.keys_v(), rules: nt0.rules_v() },
                ),
                tab0 == (TableV {
                    keys: Seq::<char>::empty(),
                    rules: Map::<char, Seq<Seq<Token>>>::empty(),
                }),
            decreases text@.len() - pos + (if more {
                1int
            } else {
                0int
            }),
        {
            let tlen = text.len();
            let mut e = pos;
            while e < tlen && text[e] != '\n'
                invariant
                    pos <= e <= tlen,
                    tlen == text@.len(),
                    forall|w: int| pos <= w < e ==> text@[w] != '\n',
                decreases tlen - e,
            {
                e += 1;
            }
            let mut line: Vec<char> = Vec::new();
            let mut cq = pos;
            while cq < e
                invariant
                    pos <= cq <= e <= text@.len(),
                    line@ == text@.subrange(pos as int, cq as int),
                decreases e - cq,
            {
                line.push(text[cq]);
                proof {
                    assert(text@.subrange(pos as int, cq as int + 1) =~= text@.subrange(
                        pos as int,
                        cq as int,
                    ).push(text@[cq as int]));
                }
                cq += 1;
            }
            let ghost suf = text@.skip(pos as int);
            proof {
                lemma_first_nl(suf);
                let fo = first_nl(suf);
                if e < tlen {
                    assert(suf[e - pos] == text@[e as int]);
                    if fo < e - pos {
                        assert(suf[fo] == text@[pos + fo]);
                        assert(text@[pos + fo] != '\n');
                        assert(false);
                    }
                    if fo > e - pos {
                        assert(suf[e - pos] != '\n');
                        assert(false);
                    }
                    assert(fo == e - pos);
                    assert(suf.take(fo) =~= line@);
                    assert(suf.skip(fo + 1) =~= text@.skip(e as int + 1));
                    assert(split_lines(suf) == seq![line@] + split_lines(text@.skip(e as int + 1)));
                } else {
                    assert forall|w: int| 0 <= w < suf.len() implies suf[w] != '\n' by {
                        assert(suf[w] == text@[pos + w]);
                    }
                    if fo < suf.len() {
                        assert(false);
                    }
                    assert(suf =~= line@);
                    assert(split_lines(suf) == seq![line@]);
                }
                assert(lines.skip(done).len() > 0);
                assert(lines.skip(done)[0] == line@);
            }
            let ghost cur = TableV { keys: nt0.keys_v(), rules: nt0.rules_v() };
            match parse_line_exec(&line) {
                Err(err) => {
                    proof {
                        assert(load_lines(lines.skip(done), cur) == Err::<TableV, LoadError>(err));
                    }
                    return Err(err);
                },
                Ok(opt) => {
                    match opt {
                        None => {
                            proof {
                                assert(lines.skip(done).skip(1) =~= lines.skip(done + 1));
                                assert(load_lines(lines.skip(done), cur) == load_lines(
                                    lines.skip(done + 1),
                                    cur,
                                ));
                            }
                        },
                        Some((k, toks)) => {
                            let ghost toksv = toks@;
                            let ghost nv_b = nt0.null_v();
                            let ghost fv_b = nt0.first_v();
                            let ghost wv_b = nt0.follow_v();
                            let fresh = !nt0.rules.contains(k);
                            if fresh {
                                nt0.keys.push(k);
                                nt0.rules.add_key(k);
                                nt0.nullable.add(k);
                                nt0.first.add(k);
                                nt0.follow.add(k);
                            }
                            nt0.rules.push_rule(k, toks);
                            proof {
                                let cur2 = TableV { keys: nt0.keys_v(), rules: nt0.rules_v() };
                                if fresh {
                                    assert(!cur.keys.contains(k));
                                    lemma_push_nodup(cur.keys, k);
                                    lemma_push_to_set(cur.keys, k);
                                    assert(cur.rules.insert(k, Seq::<Seq<Token>>::empty()).insert(
                                        k,
                                        seq![toksv],
                                    ) =~= cur.rules.insert(k, seq![toksv]));
                                    assert(cur.rules.insert(
                                        k,
                                        Seq::<Seq<Token>>::empty(),
                                    )[k].push(toksv) =~= seq![toksv]);
                                    assert(cur2 == tab_add(cur, k, toksv));
                                } else {
                                    assert(cur2 == tab_add(cur, k, toksv));
                                }
                                assert(nt0.rules_v().dom() =~= nt0.keys_v().to_set());
                                assert(nt0.null_v().dom() =~= nt0.keys_v().to_set());
                                assert(nt0.first_v().dom() =~= nt0.keys_v().to_set());
                                assert(nt0.follow_v().dom() =~= nt0.keys_v().to_set());
                                assert forall|kk: char| nt0.keys_v().to_set().contains(kk)
                                    implies (#[trigger] nt0.null_v()[kk]) == false && (
                                nt0.first_v()[kk]) == Seq::<char>::empty() && nt0.follow_v()[kk]
                                    == Seq::<char>::empty() by {
                                    if fresh && kk == k {
                                    } else {
                                        assert(cur.keys.to_set().contains(kk));
                                        assert(nv_b[kk] == false);
                                        assert(fv_b[kk] == Seq::<char>::empty());
                                        assert(wv_b[kk] == Seq::<char>::empty());
                                        assert(nt0.null_v()[kk] == nv_b[kk]);
                                        assert(nt0.first_v()[kk] == fv_b[kk]);
                                        assert(nt0.follow_v()[kk] == wv_b[kk]);
                                    }
                                }
                                assert(lines.skip(done).skip(1) =~= lines.skip(done + 1));
                                assert(load_lines(lines.skip(done), cur) == load_lines(
                                    lines.skip(done + 1),
                                    cur2,
                                ));
                            }
                        },
                    }
                    proof {
                        done = done + 1;
                    }
                },
            }
            if e == tlen {
                more = false;
                proof {
                    assert(lines.skip(done - 1).len() == 1);
                    assert(done == lines.len());
                }
            } else {
                pos = e + 1;
                proof {
                    assert(lines.skip(done) =~= lines.skip(done - 1).skip(1));
                    assert(lines.skip(done) == split_lines(text@.skip(pos as int)));
                }
            }
        }
        proof {
            assert(lines.skip(done) =~= Seq::<Seq<char>>::empty());
            assert(load_lines(lines, tab0) == Ok::<TableV, LoadError>(
                TableV { keys: nt0.keys_v(), rules: nt0.rules_v() },
            ));
            assert(parse_grammar(grammar@) == Ok::<TableV, LoadError>(
                TableV { keys: nt0.keys_v(), rules: nt0.rules_v() },
            ));
        }
        // every nonterminal named on a right-hand side must have rules of its own
        let ghost rt0 = nt0.rules_v();
        let ghost ks0 = nt0.keys_v();
        let nk = nt0.keys.len();
        let mut a: usize = 0;
        while a < nk
            invariant
                parse_grammar(grammar@) == Ok::<TableV, LoadError>(
                    TableV { keys: ks0, rules: rt0 },
                ),
                ks0 == nt0.keys_v(),
                rt0 == nt0.rules_v(),
                nk == ks0.len(),
                a <= nk,
                nt0.keys_v().no_duplicates(),
                nt0.rules_v().dom() == nt0.keys_v().to_set(),
                nt0.null_v().dom() == nt0.keys_v().to_set(),
                nt0.first_v().dom() == nt0.keys_v().to_set(),
                nt0.follow_v().dom() == nt0.keys_v().to_set(),
                forall|k: char|
                    nt0.keys_v().to_set().contains(k) ==> (#[trigger] nt0.null_v()[k]) == false,
                forall|k: char|
                    nt0.keys_v().to_set().contains(k) ==> (#[trigger] nt0.first_v()[k])
                        == Seq::<char>::empty(),
                forall|k: char|
                    nt0.keys_v().to_set().contains(k) ==> (#[trigger] nt0.follow_v()[k])
                        == Seq::<char>::empty(),
                forall|b: int, i: int, j: int|
                    #![trigger rt0[ks0[b]][i][j]]
                    0 <= b < a && 0 <= i < rt0[ks0[b]].len() && 0 <= j < rt0[ks0[b]][i].len()
                        ==> match rt0[ks0[b]][i][j] {
                        Token::Nonterminal(c) => rt0.dom().contains(c),
                        _ => true,
                    },
            decreases nk - a,
        {
            let k = nt0.keys[a];
            proof {
                assert(ks0.contains(k));
            }
            let rules = nt0.rules.rules(k);
            let nr = rules.len();
            let mut i: usize = 0;
            while i < nr
                invariant
                    parse_grammar(grammar@) == Ok::<TableV, LoadError>(
                        TableV { keys: ks0, rules: rt0 },
                    ),
                    ks0 == nt0.keys_v(),
                    rt0 == nt0.rules_v(),
                    nk == ks0.len(),
                    0 <= a < nk,
                    k == ks0[a as int],
                    ks0.to_set().contains(k),
                    i <= nr,
                    nr == rt0[k].len(),
                    rules@.len() == rt0[k].len(),
                    forall|q: int| 0 <= q < rules@.len() ==> (#[trigger] rules@[q])@ == rt0[k][q],
                    nt0.keys_v().no_duplicates(),
                    nt0.rules_v().dom() == nt0.keys_v().to_set(),
                    nt0.null_v().dom() == nt0.keys_v().to_set(),
                    nt0.first_v().dom() == nt0.keys_v().to_set(),
                    nt0.follow_v().dom() == nt0.keys_v().to_set(),
                    forall|kk: char|
                        nt0.keys_v().to_set().contains(kk) ==> (#[trigger] nt0.null_v()[kk])
                            == false,
                    forall|kk: char|
                        nt0.keys_v().to_set().contains(kk) ==> (#[trigger] nt0.first_v()[kk])
                            == Seq::<char>::empty(),
                    forall|kk: char|
                        nt0.keys_v().to_set().contains(kk) ==> (#[trigger] nt0.follow_v()[kk])
                            == Seq::<char>::empty(),
                    forall|b: int, ii: int, j: int|
                        #![trigger rt0[ks0[b]][ii][j]]
                        0 <= b < a && 0 <= ii < rt0[ks0[b]].len() && 0 <= j
                            < rt0[ks0[b]][ii].len() ==> match rt0[ks0[b]][ii][j] {
                            Token::Nonterminal(c) => rt0.dom().contains(c),
                            _ => true,
                        },
                    forall|ii: int, j: int|
                        #![trigger rt0[k][ii][j]]
                        0 <= ii < i && 0 <= j < rt0[k][ii].len() ==> match rt0[k][ii][j] {
                            Token::Nonterminal(c) => rt0.dom().contains(c),
                            _ => true,
                        },
                decreases nr - i,
            {
                let rule = &rules[i];
                proof {
                    assert(rule@ == rt0[k][i as int]);
                }
                let m = rule.len();
                let mut j: usize = 0;
                while j < m
                    invariant
                        parse_grammar(grammar@) == Ok::<TableV, LoadError>(
                            TableV { keys: ks0, rules: rt0 },
                        ),
                        ks0 == nt0.keys_v(),
                        rt0 == nt0.rules_v(),
                        0 <= a < ks0.len(),
                        k == ks0[a as int],
                        ks0.to_set().contains(k),
                        i < nr,
                        nr == rt0[k].len(),
                        rule@ == rt0[k][i as int],
                        m == rule@.len(),
                        j <= m,
                        nt0.rules_v().dom() == nt0.keys_v().to_set(),
                        forall|q: int|
                            #![trigger rule@[q]]
                            0 <= q < j ==> match rule@[q] {
                                Token::Nonterminal(c) => rt0.dom().contains(c),
                                _ => true,
                            },
                    decreases m - j,
                {
                    match rule[j] {
                        Token::Nonterminal(c) => {
                            if !nt0.rules.contains(c) {
                                proof {
                                    assert(rt0[k][i as int][j as int] == Token::Nonterminal(c));
                                    assert(rhs_mentions(rt0, c));
                                    assert(!table_keys_closed(rt0));
                                }
                                return Err(LoadError::UndefinedNonterminal(c));
                            }
                        },
                        _ => {},
                    }
                    j += 1;
                }
                i += 1;
            }
            a += 1;
        }
        proof {
            assert forall|k: char, i: int, j: int|
                #![trigger rt0[k][i][j]]
                rt0.dom().contains(k) && 0 <= i < rt0[k].len() && 0 <= j < rt0[k][i].len()
                    implies match rt0[k][i][j] {
                Token::Nonterminal(c) => rt0.dom().contains(c),
                _ => true,
            } by {
                assert(ks0.to_set().contains(k));
                assert(ks0.contains(k));
                let b = choose|b: int| 0 <= b < ks0.len() && ks0[b] == k;
                assert(rt0[ks0[b]][i][j] == rt0[k][i][j]);
            }
            assert(table_keys_closed(rt0));
            assert forall|k: char| nt0.keys_v().to_set().contains(k) implies (
            #[trigger] nt0.first_v()[k]).no_duplicates() by {
                assert(nt0.first_v()[k] == Seq::<char>::empty());
            }
            assert forall|k: char| nt0.keys_v().to_set().contains(k) implies (
            #[trigger] nt0.follow_v()[k]).no_duplicates() by {
                assert(nt0.follow_v()[k] == Seq::<char>::empty());
            }
            assert(nt0.wf());
        }
        Ok(nt0)
    }

    /// The nonterminals the grammar defines, in the order first seen.
    pub fn nonterminals(&self) -> (r: Vec<char>)
        ensures
            r@ == self.keys_v(),
    {
        let n = self.keys.len();
        let mut r: Vec<char> = Vec::new();
        let mut i: usize = 0;
        while i < n
            invariant
                i <= n,
                n == self.keys_v().len(),
                r@ == self.keys_v().take(i as int),
            decreases n - i,
        {
            r.push(self.keys[i]);
            proof {
                assert(self.keys_v().take(i as int + 1) =~= self.keys_v().take(i as int).push(
                    self.keys_v()[i as int],
                ));
            }
            i += 1;
        }
        proof {
            assert(self.keys_v().take(n as int) =~= self.keys_v());
        }
        r
    }

    /// Whether the nonterminal can derive the empty string, or `None` if
    /// the grammar does not define it.
    pub fn is_nullable(&self, c: char) -> (r: Option<bool>)
        requires
            self.wf(),
        ensures
            r == if self.null_v().dom().contains(c) {
                Some(self.null_v()[c])
            } else {
                None::<bool>
            },
    {
        if self.rules.contains(c) {
            Some(self.nullable.get(c))
        } else {
            None
        }
    }

    /// The nonterminal's first set, in insertion order, or `None` if the
    /// grammar does not define it.
    pub fn first_of(&self, c: char) -> (r: Option<Vec<char>>)
        requires
            self.wf(),
        ensures
            match r {
                Some(v) => self.first_v().dom().contains(c) && v@ == self.first_v()[c],
                None => !self.first_v().dom().contains(c),
            },
    {
        if self.rules.contains(c) {
            Some(self.first.get_clone(c))
        } else {
            None
        }
    }

    /// The nonterminal's follow set, in insertion order, or `None` if the
    /// grammar does not define it.
    pub fn follow_of(&self, c: char) -> (r: Option<Vec<char>>)
        requires
            self.wf(),
        ensures
            match r {
                Some(v) => self.follow_v().dom().contains(c) && v@ == self.follow_v()[c],
                None => !self.follow_v().dom().contains(c),
            },
    {
        if self.rules.contains(c) {
            Some(self.follow.get_clone(c))
        } else {
            None
        }
    }

    /// The nonterminal's rules, in the order given, or `None` if the
    /// grammar does not define it.
    pub fn rules_of(&self, c: char) -> (r: Option<Vec<Vec<Token>>>)
        requires
            self.wf(),
        ensures
            match r {
                Some(v) => {
                    &&& self.rules_v().dom().contains(c)
                    &&& v@.len() == self.rules_v()[c].len()
                    &&& forall|i: int| 0 <= i < v@.len() ==> (#[trigger] v@[i])@ == self.rules_v()[c][i]
                },
                None => !self.rules_v().dom().contains(c),
            },
    {
        if !self.rules.contains(c) {
            return None;
        }
        let rules = self.rules.rules(c);
        let nr = rules.len();
        let mut out: Vec<Vec<Token>> = Vec::new();
        let mut i: usize = 0;
        while i < nr
            invariant
                i <= nr,
                self.rules_v().dom().contains(c),
                nr == self.rules_v()[c].len(),
                rules@.len() == self.rules_v()[c].len(),
                forall|q: int|
                    0 <= q < rules@.len() ==> (#[trigger] rules@[q])@ == self.rules_v()[c][q],
                out@.len() == i,
                forall|q: int| 0 <= q < i ==> (#[trigger] out@[q])@ == self.rules_v()[c][q],
            decreases nr - i,
        {
            let src = &rules[i];
            let mt = src.len();
            let mut one: Vec<Token> = Vec::new();
            let mut j: usize = 0;
            while j < mt
                invariant
                    j <= mt,
                    mt == src@.len(),
                    one@ == src@.take(j as int),
                decreases mt - j,
            {
                one.push(src[j]);
                proof {
                    assert(src@.take(j as int + 1) =~= src@.take(j as int).push(src@[j as int]));
                }
                j += 1;
            }
            proof {
                assert(src@.take(mt as int) =~= src@);
            }
            out.push(one);
            i += 1;
        }
        Some(out)
    }
}

} // verus!
