use crate::{RuleId, TidbId};
use vstd::prelude::*;

verus! {

/// The kind of indicator that a rule catalog holds.
#[derive(Debug, Clone, Copy, Eq, PartialEq, Structural)]
pub enum TiKind {
    Ip,
    Url,
    Token,
    Regex,
}

impl Default for TiKind {
    fn default() -> (r: Self)
        ensures
            r == TiKind::Ip,
    {
        TiKind::Ip
    }
}

/// One detection rule of a catalog.
pub struct TiRules {
    pub rule_id: RuleId,
    pub name: String,
    pub description: Option<String>,
    pub references: Option<Vec<String>>,
    pub samples: Option<Vec<String>>,
    pub signatures: Option<Vec<String>>,
}

impl TiRules {
    /// The rule's human-readable name.
    pub fn name(&self) -> (r: &str)
        ensures
            r@ == self.name@,
    {
        self.name.as_str()
    }
}

/// A rule catalog: an independently versioned pack of rules.
pub struct ComplexRules {
    pub id: TidbId,
    pub name: String,
    pub description: Option<String>,
    pub kind: TiKind,
    pub version: String,
    pub patterns: Vec<TiRules>,
}

/// The position of the first rule of `rules` with id `rule_id`, if any.
pub open spec fn first_rule(rules: Seq<TiRules>, rule_id: RuleId) -> Option<int>
    decreases rules.len(),
{
    if rules.len() == 0 {
        None
    } else {
        match first_rule(rules.drop_last(), rule_id) {
            Some(i) => Some(i),
            None => if rules.last().rule_id == rule_id {
                Some(rules.len() - 1)
            } else {
                None
            },
        }
    }
}

/// The name that catalog `c` gives to `(tidb_id, rule_id)`: the first rule
/// with that id, else the catalog's own name; none for another catalog.
pub open spec fn catalog_label_name(c: ComplexRules, tidb_id: TidbId, rule_id: RuleId) -> Option<
    Seq<char>,
> {
    if tidb_id != c.id {
        None
    } else {
        match first_rule(c.patterns@, rule_id) {
            Some(i) => Some(c.patterns@[i].name@),
            None => Some(c.name@),
        }
    }
}

/// The label name that the first catalog of `cs` to know `tidb_id` gives.
pub open spec fn label_name_in(cs: Seq<ComplexRules>, tidb_id: TidbId, rule_id: RuleId) -> Option<
    Seq<char>,
>
    decreases cs.len(),
{
    if cs.len() == 0 {
        None
    } else {
        match label_name_in(cs.drop_last(), tidb_id, rule_id) {
            Some(n) => Some(n),
            None => catalog_label_name(cs.last(), tidb_id, rule_id),
        }
    }
}

/// The name of the first catalog of `cs` with id `tidb_id`.
pub open spec fn catalog_name_in(cs: Seq<ComplexRules>, tidb_id: TidbId) -> Option<Seq<char>>
    decreases cs.len(),
{
    if cs.len() == 0 {
        None
    } else {
        match catalog_name_in(cs.drop_last(), tidb_id) {
            Some(n) => Some(n),
            None => if cs.last().id == tidb_id {
                Some(cs.last().name@)
            } else {
                None
            },
        }
    }
}

impl ComplexRules {
    /// The catalog's name.
    pub fn name(&self) -> (r: &str)
        ensures
            r@ == self.name@,
    {
        self.name.as_str()
    }

    /// The catalog's id.
    pub fn id(&self) -> (r: TidbId)
        ensures
            r == self.id,
    {
        self.id
    }

    /// The name of rule `rule_id` of this catalog, falling back to the catalog's
    /// name; `None` if `tidb_id` is not this catalog.
    pub fn get_label_name(&self, tidb_id: TidbId, rule_id: RuleId) -> (r: Option<&str>)
        ensures
            r matches Some(s) ==> catalog_label_name(*self, tidb_id, rule_id) == Some(s@),
            r is None ==> catalog_label_name(*self, tidb_id, rule_id) is None,
    {
        if tidb_id != self.id {
            return None;
        }
        let mut i: usize = 0;
        while i < self.patterns.len()
            invariant
                i <= self.patterns@.len(),
                tidb_id == self.id,
                first_rule(self.patterns@.take(i as int), rule_id) is None,
            decreases self.patterns@.len() - i,
        {
            proof {
                assert(self.patterns@.take(i + 1).drop_last() =~= self.patterns@.take(i as int));
            }
            if self.patterns[i].rule_id == rule_id {
                proof {
                    assert(self.patterns@.take(i + 1).last() == self.patterns@[i as int]);
                    assert(first_rule(self.patterns@.take(i + 1), rule_id) == Some(i as int));
                    lemma_first_rule_extends(self.patterns@, i + 1, rule_id);
                }
                return Some(self.patterns[i].name());
            }
            i = i + 1;
        }
        proof {
            assert(self.patterns@.take(i as int) =~= self.patterns@);
        }
        Some(self.name())
    }
}

proof fn lemma_first_rule_extends(rules: Seq<TiRules>, n: int, id: RuleId)
    requires
        0 <= n <= rules.len(),
        first_rule(rules.take(n), id) is Some,
    ensures
        first_rule(rules, id) == first_rule(rules.take(n), id),
    decreases rules.len() - n,
{
    if n < rules.len() {
        assert(rules.take(n + 1).drop_last() =~= rules.take(n));
        lemma_first_rule_extends(rules, n + 1, id);
    } else {
        assert(rules.take(n) =~= rules);
    }
}

/// The label name that the first catalog of `tidbs` to know `tidb_id` gives
/// to `(tidb_id, rule_id)`.
pub fn label_name(tidbs: &Vec<ComplexRules>, tidb_id: TidbId, rule_id: RuleId) -> (r: Option<&str>)
    ensures
        r matches Some(s) ==> label_name_in(tidbs@, tidb_id, rule_id) == Some(s@),
        r is None ==> label_name_in(tidbs@, tidb_id, rule_id) is None,
{
    let mut i: usize = 0;
    while i < tidbs.len()
        invariant
            i <= tidbs@.len(),
            label_name_in(tidbs@.take(i as int), tidb_id, rule_id) is None,
        decreases tidbs@.len() - i,
    {
        proof {
            assert(tidbs@.take(i + 1).drop_last() =~= tidbs@.take(i as int));
        }
        let r = tidbs[i].get_label_name(tidb_id, rule_id);
        if r.is_some() {
            proof {
                lemma_label_name_extends(tidbs@, i as int + 1, tidb_id, rule_id);
            }
            return r;
        }
        i = i + 1;
    }
    proof {
        assert(tidbs@.take(i as int) =~= tidbs@);
    }
    None
}

proof fn lemma_label_name_extends(cs: Seq<ComplexRules>, n: int, t: TidbId, r: RuleId)
    requires
        0 <= n <= cs.len(),
        label_name_in(cs.take(n), t, r) is Some,
    ensures
        label_name_in(cs, t, r) == label_name_in(cs.take(n), t, r),
    decreases cs.len() - n,
{
    if n < cs.len() {
        assert(cs.take(n + 1).drop_last() =~= cs.take(n));
        lemma_label_name_extends(cs, n + 1, t, r);
    } else {
        assert(cs.take(n) =~= cs);
    }
}

/// The name of the first catalog of `tidbs` with id `tidb_id`.
pub fn catalog_name(tidbs: &Vec<ComplexRules>, tidb_id: TidbId) -> (r: Option<&str>)
    ensures
        r matches Some(s) ==> catalog_name_in(tidbs@, tidb_id) == Some(s@),
        r is None ==> catalog_name_in(tidbs@, tidb_id) is None,
{
    let mut i: usize = 0;
    while i < tidbs.len()
        invariant
            i <= tidbs@.len(),
            catalog_name_in(tidbs@.take(i as int), tidb_id) is None,
        decreases tidbs@.len() - i,
    {
        proof {
            assert(tidbs@.take(i + 1).drop_last() =~= tidbs@.take(i as int));
        }
        if tidbs[i].id() == tidb_id {
            proof {
                lemma_catalog_name_extends(tidbs@, i as int + 1, tidb_id);
            }
            return Some(tidbs[i].name());
        }
        i = i + 1;
    }
    proof {
        assert(tidbs@.take(i as int) =~= tidbs@);
    }
    None
}

proof fn lemma_catalog_name_extends(cs: Seq<ComplexRules>, n: int, t: TidbId)
    requires
        0 <= n <= cs.len(),
        catalog_name_in(cs.take(n), t) is Some,
    ensures
        catalog_name_in(cs, t) == catalog_name_in(cs.take(n), t),
    decreases cs.len() - n,
{
    if n < cs.len() {
        assert(cs.take(n + 1).drop_last() =~= cs.take(n));
        lemma_catalog_name_extends(cs, n + 1, t);
    } else {
        assert(cs.take(n) =~= cs);
    }
}

} // verus!
