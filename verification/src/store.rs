//! Keyed storage for the rule table and the three result maps.
//!
//! Each store holds a `hashbrown::HashMap` keyed by a nonterminal's
//! letter. The maps' contents are named by uninterpreted view functions,
//! and every method states over that view what the `hashbrown` call does.

use vstd::prelude::*;
use crate::grammar::Token;

verus! {

/// The rule table: each nonterminal's list of production rules.
#[verifier::external_body]
pub struct RuleStore {
    m: hashbrown::HashMap<char, Vec<Vec<Token>>>,
}

/// The contents of a [`RuleStore`]: each key's rules, in insertion order.
pub uninterp spec fn rule_store_map(s: RuleStore) -> Map<char, Seq<Seq<Token>>>;

impl RuleStore {
    /// Relies on hashbrown::HashMap::new: makes an empty map.
    #[verifier::external_body]
    pub(crate) fn new() -> (r: RuleStore)
        ensures
            forall|k: char| !rule_store_map(r).dom().contains(k),
    {
        RuleStore { m: hashbrown::HashMap::new() }
    }

    /// Relies on hashbrown::HashMap::contains_key: whether the key is bound.
    #[verifier::external_body]
    pub(crate) fn contains(&self, k: char) -> (r: bool)
        ensures
            r == rule_store_map(*self).dom().contains(k),
    {
        self.m.contains_key(&k)
    }

    /// Relies on hashbrown::HashMap::insert: binds the key, here to no rules yet.
    #[verifier::external_body]
    pub(crate) fn add_key(&mut self, k: char)
        requires
            !rule_store_map(*old(self)).dom().contains(k),
        ensures
            rule_store_map(*final(self)) == rule_store_map(*old(self)).insert(
                k,
                Seq::<Seq<Token>>::empty(),
            ),
    {
        self.m.insert(k, Vec::new());
    }

    /// Relies on hashbrown::HashMap::get_mut: hands out the value bound to
    /// the key, to which one rule is appended.
    #[verifier::external_body]
    pub(crate) fn push_rule(&mut self, k: char, r: Vec<Token>)
        requires
            rule_store_map(*old(self)).dom().contains(k),
        ensures
            rule_store_map(*final(self)) == rule_store_map(*old(self)).insert(
                k,
                rule_store_map(*old(self))[k].push(r@),
            ),
    {
        self.m.get_mut(&k).unwrap().push(r);
    }

    /// Relies on hashbrown::HashMap::get: hands out the value bound to the key.
    #[verifier::external_body]
    pub(crate) fn rules(&self, k: char) -> (r: &Vec<Vec<Token>>)
        requires
            rule_store_map(*self).dom().contains(k),
        ensures
            r@.len() == rule_store_map(*self)[k].len(),
            forall|i: int| 0 <= i < r@.len() ==> r@[i]@ == rule_store_map(*self)[k][i],
    {
        self.m.get(&k).unwrap()
    }
}

/// The nullable map: one boolean flag per nonterminal.
#[verifier::external_body]
pub struct FlagStore {
    m: hashbrown::HashMap<char, bool>,
}

/// The contents of a [`FlagStore`].
pub uninterp spec fn flag_store_map(s: FlagStore) -> Map<char, bool>;

impl FlagStore {
    /// Relies on hashbrown::HashMap::new: makes an empty map.
    #[verifier::external_body]
    pub(crate) fn new() -> (r: FlagStore)
        ensures
            forall|k: char| !flag_store_map(r).dom().contains(k),
    {
        FlagStore { m: hashbrown::HashMap::new() }
    }

    /// Relies on hashbrown::HashMap::insert: binds the key, here to `false`.
    #[verifier::external_body]
    pub(crate) fn add(&mut self, k: char)
        requires
            !flag_store_map(*old(self)).dom().contains(k),
        ensures
            flag_store_map(*final(self)) == flag_store_map(*old(self)).insert(k, false),
    {
        self.m.insert(k, false);
    }

    /// Relies on hashbrown::HashMap::insert: rebinds the key, here to `true`.
    #[verifier::external_body]
    pub(crate) fn set_true(&mut self, k: char)
        requires
            flag_store_map(*old(self)).dom().contains(k),
        ensures
            flag_store_map(*final(self)) == flag_store_map(*old(self)).insert(k, true),
    {
        self.m.insert(k, true);
    }

    /// Relies on hashbrown::HashMap::get: hands out the value bound to the key.
    #[verifier::external_body]
    pub(crate) fn get(&self, k: char) -> (r: bool)
        requires
            flag_store_map(*self).dom().contains(k),
        ensures
            r == flag_store_map(*self)[k],
    {
        *self.m.get(&k).unwrap()
    }
}

/// A first or follow map: one growing list of terminals per nonterminal.
#[verifier::external_body]
pub struct SetStore {
    m: hashbrown::HashMap<char, Vec<char>>,
}

/// The contents of a [`SetStore`]: each key's terminals, in insertion order.
pub uninterp spec fn set_store_map(s: SetStore) -> Map<char, Seq<char>>;

impl SetStore {
    /// Relies on hashbrown::HashMap::new: makes an empty map.
    #[verifier::external_body]
    pub(crate) fn new() -> (r: SetStore)
        ensures
            forall|k: char| !set_store_map(r).dom().contains(k),
    {
        SetStore { m: hashbrown::HashMap::new() }
    }

    /// Relies on hashbrown::HashMap::insert: binds the key, here to no terminals yet.
    #[verifier::external_body]
    pub(crate) fn add(&mut self, k: char)
        requires
            !set_store_map(*old(self)).dom().contains(k),
        ensures
            set_store_map(*final(self)) == set_store_map(*old(self)).insert(
                k,
                Seq::<char>::empty(),
            ),
    {
        self.m.insert(k, Vec::new());
    }

    /// Relies on hashbrown::HashMap::get_mut: hands out the value bound to
    /// the key, to which one terminal is appended.
    #[verifier::external_body]
    pub(crate) fn push(&mut self, k: char, c: char)
        requires
            set_store_map(*old(self)).dom().contains(k),
        ensures
            set_store_map(*final(self)) == set_store_map(*old(self)).insert(
                k,
                set_store_map(*old(self))[k].push(c),
            ),
    {
        self.m.get_mut(&k).unwrap().push(c);
    }

    /// Relies on hashbrown::HashMap::get: hands out the value bound to the key.
    #[verifier::external_body]
    pub(crate) fn get(&self, k: char) -> (r: &Vec<char>)
        requires
            set_store_map(*self).dom().contains(k),
        ensures
            r@ == set_store_map(*self)[k],
    {
        self.m.get(&k).unwrap()
    }

    /// Relies on hashbrown::HashMap::get: hands out the value bound to the
    /// key, which is cloned.
    #[verifier::external_body]
    pub(crate) fn get_clone(&self, k: char) -> (r: Vec<char>)
        requires
            set_store_map(*self).dom().contains(k),
        ensures
            r@ == set_store_map(*self)[k],
    {
        self.m.get(&k).unwrap().clone()
    }
}

} // verus!
