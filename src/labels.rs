use crate::keyindex::{find_key, KeyIndex};
use crate::sorted::{insert_sorted, strictly_sorted};
use crate::text::string_views;
use crate::{ClusterId, MessageId, PatternId, RuleId, TidbId};
use vstd::prelude::*;
use vstd::std_specs::hash::group_hash_axioms;

verus! {

broadcast use group_hash_axioms;

/// A label on one event: catalog id, rule id and the bits of its `f32` score.
pub type EventLabel = (TidbId, RuleId, u32);

/// A label that stands for a cluster: catalog id, rule id, number of events
/// that carry it and the bits of its `f32` score.
pub type RepresentativeLabel = (TidbId, RuleId, usize, u32);

/// Representative labels, by cluster.
pub type RepresentativeLabels = Vec<(ClusterId, Vec<RepresentativeLabel>)>;

/// The labels of each labeled event, by cluster.
pub type EventLabels = Vec<(ClusterId, Vec<(MessageId, Vec<EventLabel>)>)>;

/// One label assignment: the cluster, the catalog id and the rule id.
pub type LabelTuple = (ClusterId, TidbId, RuleId);

pub open spec fn message_tuples(c: ClusterId, ls: Seq<EventLabel>) -> Seq<LabelTuple> {
    ls.map_values(|l: EventLabel| (c, l.0, l.1))
}

pub open spec fn cluster_tuples(c: ClusterId, ms: Seq<(MessageId, Vec<EventLabel>)>) -> Seq<
    LabelTuple,
>
    decreases ms.len(),
{
    if ms.len() == 0 {
        Seq::empty()
    } else {
        cluster_tuples(c, ms.drop_last()) + message_tuples(c, ms.last().1@)
    }
}

/// Every label assignment of the event labels, in the order given.
pub open spec fn label_tuples(ev: Seq<(ClusterId, Vec<(MessageId, Vec<EventLabel>)>)>) -> Seq<
    LabelTuple,
>
    decreases ev.len(),
{
    if ev.len() == 0 {
        Seq::empty()
    } else {
        label_tuples(ev.drop_last()) + cluster_tuples(ev.last().0, ev.last().1@)
    }
}

/// The sort key of a rule: catalog id in the high 32 bits, rule id in the low ones.
pub open spec fn pattern_key(p: PatternId) -> nat {
    p.0 as nat * 0x1_0000_0000 + p.1 as nat
}

/// `(t, r)` selects a rule when each of its parts is equal or zero.
pub open spec fn selects(t: TidbId, r: RuleId, p: PatternId) -> bool {
    (p.0 == t || t == 0) && (p.1 == r || r == 0)
}

/// Number of assignments of rule `p` to cluster `c` in `ts`.
pub open spec fn occurrences(ts: Seq<LabelTuple>, c: ClusterId, p: PatternId) -> nat
    decreases ts.len(),
{
    if ts.len() == 0 {
        0
    } else {
        occurrences(ts.drop_last(), c, p) + if ts.last() == (c, p.0, p.1) {
            1nat
        } else {
            0nat
        }
    }
}

/// Rule keys of `s` in strictly increasing order.
pub open spec fn sorted_by_key(s: Seq<(PatternId, usize)>) -> bool {
    forall|i: int, j: int| 0 <= i < j < s.len() ==> pattern_key(s[i].0) < pattern_key(s[j].0)
}

/// The label tuples flatten the event labels, and the map holds each labeled
/// cluster with its rules.
pub open spec fn store_wf(
    tuples: Seq<LabelTuple>,
    map: Map<ClusterId, Vec<PatternId>>,
    events: Seq<(ClusterId, Vec<(MessageId, Vec<EventLabel>)>)>,
) -> bool {
    &&& tuples == label_tuples(events)
    &&& forall|c: ClusterId|
        #[trigger] map.contains_key(c) <==> exists|k: int|
            0 <= k < tuples.len() && (#[trigger] tuples[k]).0 == c
    &&& forall|c: ClusterId| #[trigger] map.contains_key(c) ==> rules_of(map[c]@, tuples, c)
}

/// `v` lists, in increasing order of packed key and once each, the rules
/// that `ts` assigns to cluster `c`.
pub open spec fn rules_of(v: Seq<PatternId>, ts: Seq<LabelTuple>, c: ClusterId) -> bool {
    &&& forall|a: int, b: int| 0 <= a < b < v.len() ==> pattern_key(v[a]) < pattern_key(v[b])
    &&& forall|p: PatternId|
        #[trigger] v.contains(p) <==> exists|k: int| 0 <= k < ts.len() && ts[k] == (c, p.0, p.1)
}

proof fn lemma_rules_push(
    old_v: Seq<PatternId>,
    v: Seq<PatternId>,
    ts: Seq<LabelTuple>,
    c: ClusterId,
    p: PatternId,
)
    requires
        forall|a: int, b: int| 0 <= a < b < old_v.len() ==> pattern_key(old_v[a]) < pattern_key(old_v[b]),
        forall|a: int, b: int| 0 <= a < b < v.len() ==> pattern_key(v[a]) < pattern_key(v[b]),
        forall|q: PatternId|
            #[trigger] old_v.contains(q) <==> exists|k: int| 0 <= k < ts.len() && ts[k] == (c, q.0, q.1),
        forall|q: PatternId| #[trigger] v.contains(q) <==> (old_v.contains(q) || q == p),
    ensures
        rules_of(v, ts.push((c, p.0, p.1)), c),
{
    let ts2 = ts.push((c, p.0, p.1));
    assert forall|q: PatternId|
        #[trigger] v.contains(q) <==> exists|k: int| 0 <= k < ts2.len() && ts2[k] == (c, q.0, q.1) by {
        if v.contains(q) {
            if q == p {
                assert(ts2[ts.len() as int] == (c, q.0, q.1));
            } else {
                assert(old_v.contains(q));
                let k = choose|k: int| 0 <= k < ts.len() && ts[k] == (c, q.0, q.1);
                assert(ts2[k] == ts[k]);
            }
        }
        if exists|k: int| 0 <= k < ts2.len() && ts2[k] == (c, q.0, q.1) {
            let k = choose|k: int| 0 <= k < ts2.len() && ts2[k] == (c, q.0, q.1);
            if k < ts.len() {
                assert(ts[k] == ts2[k]);
                assert(old_v.contains(q));
            } else {
                assert(q == p);
            }
        }
    }
}

proof fn lemma_rules_push_other(v: Seq<PatternId>, ts: Seq<LabelTuple>, c: ClusterId, x: LabelTuple)
    requires
        rules_of(v, ts, c),
        x.0 != c,
    ensures
        rules_of(v, ts.push(x), c),
{
    let ts2 = ts.push(x);
    assert forall|q: PatternId|
        #[trigger] v.contains(q) <==> exists|k: int| 0 <= k < ts2.len() && ts2[k] == (c, q.0, q.1) by {
        if v.contains(q) {
            let k = choose|k: int| 0 <= k < ts.len() && ts[k] == (c, q.0, q.1);
            assert(ts2[k] == ts[k]);
        }
        if exists|k: int| 0 <= k < ts2.len() && ts2[k] == (c, q.0, q.1) {
            let k = choose|k: int| 0 <= k < ts2.len() && ts2[k] == (c, q.0, q.1);
            assert(k < ts.len());
            assert(ts[k] == ts2[k]);
        }
    }
}

/// Adds rule `p` to a list sorted by packed key, where it is not yet.
fn insert_pattern(v: &mut Vec<PatternId>, p: PatternId)
    requires
        forall|a: int, b: int|
            0 <= a < b < old(v)@.len() ==> pattern_key(old(v)@[a]) < pattern_key(old(v)@[b]),
    ensures
        forall|a: int, b: int|
            0 <= a < b < final(v)@.len() ==> pattern_key(final(v)@[a]) < pattern_key(final(v)@[b]),
        forall|q: PatternId| #[trigger] final(v)@.contains(q) <==> (old(v)@.contains(q) || q == p),
{
    let key = pack_pattern_id(p);
    let mut i: usize = 0;
    while i < v.len()
        invariant
            i <= v@.len(),
            v@ == old(v)@,
            key as nat == pattern_key(p),
            forall|j: int| 0 <= j < i ==> pattern_key(#[trigger] v@[j]) < pattern_key(p),
        ensures
            i <= v@.len(),
            v@ == old(v)@,
            forall|j: int| 0 <= j < i ==> pattern_key(#[trigger] v@[j]) < pattern_key(p),
            i < v@.len() ==> pattern_key(v@[i as int]) >= pattern_key(p),
        decreases v@.len() - i,
    {
        if pack_pattern_id(v[i]) >= key {
            break;
        }
        i = i + 1;
    }
    if i < v.len() && v[i].0 == p.0 && v[i].1 == p.1 {
        assert(v@[i as int] == p);
        return;
    }
    let ghost before = v@;
    proof {
        if i < v@.len() {
            lemma_pattern_key_order(v@[i as int], p);
        }
    }
    v.insert(i, p);
    proof {
        assert forall|a: int, b: int| 0 <= a < b < v@.len() implies pattern_key(v@[a]) < pattern_key(
            v@[b],
        ) by {
            if b < i {
            } else if a < i && b == i {
            } else if a < i {
                assert(v@[b] == before[b - 1]);
            } else if a == i {
                assert(v@[b] == before[b - 1]);
                if b - 1 > i {
                    assert(pattern_key(before[i as int]) < pattern_key(before[b - 1]));
                }
            } else {
                assert(v@[a] == before[a - 1]);
                assert(v@[b] == before[b - 1]);
            }
        }
        assert forall|q: PatternId| #[trigger] v@.contains(q) <==> (before.contains(q) || q == p) by {
            if v@.contains(q) {
                let k = choose|k: int| 0 <= k < v@.len() && v@[k] == q;
                if k < i {
                    assert(before[k] == q);
                } else if k > i {
                    assert(before[k - 1] == q);
                }
            }
            if before.contains(q) {
                let k = choose|k: int| 0 <= k < before.len() && before[k] == q;
                if k < i {
                    assert(v@[k] == q);
                } else {
                    assert(v@[k + 1] == q);
                }
            }
            if q == p {
                assert(v@[i as int] == p);
            }
        }
    }
}

/// Packs a rule into its 64-bit sort key.
pub fn pack_pattern_id(p: PatternId) -> (r: u64)
    ensures
        r as nat == pattern_key(p),
{
    let hi = p.0 as u64;
    let lo = p.1 as u64;
    let r = (hi << 32u64) | lo;
    assert(r == hi * 0x1_0000_0000u64 + lo) by (bit_vector)
        requires
            hi <= 0xffff_ffffu64,
            lo <= 0xffff_ffffu64,
            r == (hi << 32u64) | lo,
    ;
    r
}

/// Comparing packed keys is comparing the rules by catalog id, then by rule id.
pub proof fn lemma_pattern_key_order(a: PatternId, b: PatternId)
    ensures
        pattern_key(a) < pattern_key(b) <==> (a.0 < b.0 || (a.0 == b.0 && a.1 < b.1)),
        pattern_key(a) == pattern_key(b) <==> a == b,
{
    let x = a.0 as int;
    let y = b.0 as int;
    let u = a.1 as int;
    let v = b.1 as int;
    assert(0 <= u < 0x1_0000_0000 && 0 <= v < 0x1_0000_0000);
    if x < y {
        assert(x * 0x1_0000_0000 + u < y * 0x1_0000_0000 + v) by (nonlinear_arith)
            requires
                x < y,
                0 <= u < 0x1_0000_0000,
                0 <= v,
        ;
    } else if x > y {
        assert(x * 0x1_0000_0000 + u > y * 0x1_0000_0000 + v) by (nonlinear_arith)
            requires
                x > y,
                0 <= v < 0x1_0000_0000,
                0 <= u,
        ;
    }
}

/// The label store: representative labels and event labels as loaded, every
/// label assignment in load order, and each labeled cluster with its rules.
pub struct Labels {
    tuples: Vec<LabelTuple>,
    clusters_labels: std::collections::HashMap<ClusterId, Vec<PatternId>>,
    representative: RepresentativeLabels,
    events: EventLabels,
}

impl Labels {
    /// Every label assignment, in load order.
    pub closed spec fn tuples(&self) -> Seq<LabelTuple> {
        self.tuples@
    }

    /// The representative labels as loaded.
    pub closed spec fn representative(&self) -> Seq<(ClusterId, Vec<RepresentativeLabel>)> {
        self.representative@
    }

    /// The event labels as loaded.
    pub closed spec fn events(&self) -> Seq<(ClusterId, Vec<(MessageId, Vec<EventLabel>)>)> {
        self.events@
    }

    /// Whether some event of cluster `c` carries a label.
    pub open spec fn labeled(&self, c: ClusterId) -> bool {
        exists|k: int| 0 <= k < self.tuples().len() && (#[trigger] self.tuples()[k]).0 == c
    }

    #[verifier::type_invariant]
    spec fn wf(&self) -> bool {
        store_wf(self.tuples@, self.clusters_labels@, self.events@)
    }

    /// Builds the store and its indices from the loaded label records.
    pub fn new(representative: RepresentativeLabels, events: EventLabels) -> (r: Self)
        ensures
            r.tuples() == label_tuples(events@),
            r.representative() == representative@,
            r.events() == events@,
    {
        let tuples = flatten(&events);
        let mut clusters_labels: std::collections::HashMap<ClusterId, Vec<PatternId>> =
            std::collections::HashMap::new();
        let mut i: usize = 0;
        while i < tuples.len()
            invariant
                i <= tuples.len(),
                forall|c: ClusterId|
                    #[trigger] clusters_labels@.contains_key(c) <==> exists|k: int|
                        0 <= k < i && (#[trigger] tuples@[k]).0 == c,
                forall|c: ClusterId| #[trigger]
                    clusters_labels@.contains_key(c) ==> rules_of(
                        clusters_labels@[c]@,
                        tuples@.take(i as int),
                        c,
                    ),
            decreases tuples.len() - i,
        {
            let (c, t, u) = tuples[i];
            let ghost before = clusters_labels@;
            let mut rules = match clusters_labels.remove(&c) {
                Some(v) => v,
                None => Vec::new(),
            };
            let ghost old_rules = rules@;
            insert_pattern(&mut rules, (t, u));
            clusters_labels.insert(c, rules);
            proof {
                let ts = tuples@.take(i + 1);
                assert(ts =~= tuples@.take(i as int).push((c, t, u)));
                assert forall|d: ClusterId| #[trigger]
                    clusters_labels@.contains_key(d) <==> exists|k: int|
                        0 <= k < i + 1 && (#[trigger] tuples@[k]).0 == d by {
                    if d == c {
                        assert(tuples@[i as int].0 == d);
                    }
                    if exists|k: int| 0 <= k < i + 1 && (#[trigger] tuples@[k]).0 == d {
                        let k = choose|k: int| 0 <= k < i + 1 && (#[trigger] tuples@[k]).0 == d;
                        if k < i {
                            assert(before.contains_key(d));
                        }
                    }
                }
                assert forall|d: ClusterId| #[trigger]
                    clusters_labels@.contains_key(d) implies rules_of(clusters_labels@[d]@, ts, d) by {
                    if d == c {
                        let tp = tuples@.take(i as int);
                        assert forall|q: PatternId| #[trigger] old_rules.contains(q) <==> exists|k: int|
                            0 <= k < tp.len() && tp[k] == (c, q.0, q.1) by {
                            if !before.contains_key(c) {
                                assert(old_rules.len() == 0);
                                if exists|k: int| 0 <= k < tp.len() && tp[k] == (c, q.0, q.1) {
                                    let k = choose|k: int| 0 <= k < tp.len() && tp[k] == (c, q.0, q.1);
                                    assert(tuples@[k].0 == c);
                                }
                            }
                        }
                        lemma_rules_push(old_rules, rules@, tuples@.take(i as int), c, (t, u));
                    } else {
                        assert(clusters_labels@[d] == before[d]);
                        lemma_rules_push_other(before[d]@, tuples@.take(i as int), d, (c, t, u));
                    }
                }
            }
            i = i + 1;
        }
        proof {
            assert(tuples@.take(i as int) =~= tuples@);
            assert forall|c: ClusterId| #[trigger]
                clusters_labels@.contains_key(c) implies rules_of(clusters_labels@[c]@, tuples@, c) by {
                assert(rules_of(clusters_labels@[c]@, tuples@.take(i as int), c));
            }
            assert(tuples@ == label_tuples(events@));
            assert forall|c: ClusterId|
                #[trigger] clusters_labels@.contains_key(c) <==> exists|k: int|
                    0 <= k < tuples@.len() && (#[trigger] tuples@[k]).0 == c by {}
            assert(store_wf(tuples@, clusters_labels@, events@));
        }
        Labels { tuples, clusters_labels, representative, events }
    }

    /// Whether some event of cluster `cluster_id` carries a label.
    pub fn is_labeled(&self, cluster_id: ClusterId) -> (r: bool)
        ensures
            r == self.labeled(cluster_id),
    {
        proof {
            use_type_invariant(self);
        }
        let r = self.clusters_labels.contains_key(&cluster_id);
        proof {
            assert(r == self.clusters_labels@.contains_key(cluster_id));
            if self.labeled(cluster_id) {
                let k = choose|k: int|
                    0 <= k < self.tuples().len() && (#[trigger] self.tuples()[k]).0 == cluster_id;
                assert(self.tuples@[k].0 == cluster_id);
            }
            if r {
                let k = choose|k: int|
                    0 <= k < self.tuples@.len() && (#[trigger] self.tuples@[k]).0 == cluster_id;
                assert(self.tuples()[k].0 == cluster_id);
            }
        }
        r
    }

    /// The labeled clusters whose labels include a rule that `(tidb_id, rule_id)`
    /// selects, a zero part matching any value; sorted, without repeats.
    pub fn find_clusters(&self, tidb_id: TidbId, rule_id: RuleId) -> (r: Vec<ClusterId>)
        ensures
            strictly_sorted(r@),
            forall|c: ClusterId|
                #[trigger] r@.contains(c) <==> exists|k: int|
                    0 <= k < self.tuples().len() && (#[trigger] self.tuples()[k]).0 == c
                        && selects(tidb_id, rule_id, (self.tuples()[k].1, self.tuples()[k].2)),
    {
        let mut found: Vec<ClusterId> = Vec::new();
        let mut i: usize = 0;
        while i < self.tuples.len()
            invariant
                i <= self.tuples().len(),
                strictly_sorted(found@),
                forall|c: ClusterId|
                    #[trigger] found@.contains(c) <==> exists|k: int|
                        0 <= k < i && (#[trigger] self.tuples()[k]).0 == c && selects(
                            tidb_id,
                            rule_id,
                            (self.tuples()[k].1, self.tuples()[k].2),
                        ),
            decreases self.tuples().len() - i,
        {
            let (c, t, u) = self.tuples[i];
            assert(self.tuples()[i as int] == (c, t, u));
            let hit = (t == tidb_id || tidb_id == 0) && (u == rule_id || rule_id == 0);
            let ghost before = found@;
            if hit {
                insert_sorted(&mut found, c);
            }
            proof {
                assert forall|d: ClusterId| #[trigger]
                    found@.contains(d) <==> exists|k: int|
                        0 <= k < i + 1 && (#[trigger] self.tuples()[k]).0 == d && selects(
                            tidb_id,
                            rule_id,
                            (self.tuples()[k].1, self.tuples()[k].2),
                        ) by {
                    if hit && d == c {
                        assert(self.tuples()[i as int].0 == d);
                    }
                    if exists|k: int|
                        0 <= k < i + 1 && (#[trigger] self.tuples()[k]).0 == d && selects(
                            tidb_id,
                            rule_id,
                            (self.tuples()[k].1, self.tuples()[k].2),
                        ) {
                        let k = choose|k: int|
                            0 <= k < i + 1 && (#[trigger] self.tuples()[k]).0 == d && selects(
                                tidb_id,
                                rule_id,
                                (self.tuples()[k].1, self.tuples()[k].2),
                            );
                        if k < i {
                            assert(before.contains(d));
                        }
                    }
                }
            }
            i = i + 1;
        }
        found
    }

    /// The representative labels of the first record for `cluster_id`, if any.
    pub fn get_representative_labels(&self, cluster_id: ClusterId) -> (r: Option<
        Vec<RepresentativeLabel>,
    >)
        ensures
            match r {
                Some(ls) => exists|i: int|
                    0 <= i < self.representative().len() && (#[trigger] self.representative()[i]).0
                        == cluster_id && ls@ == self.representative()[i].1@ && forall|k: int|
                        0 <= k < i ==> (#[trigger] self.representative()[k]).0 != cluster_id,
                None => forall|i: int|
                    0 <= i < self.representative().len() ==> (
                    #[trigger] self.representative()[i]).0 != cluster_id,
            },
    {
        let mut i: usize = 0;
        while i < self.representative.len()
            invariant
                i <= self.representative().len(),
                forall|k: int| 0 <= k < i ==> (#[trigger] self.representative()[k]).0 != cluster_id,
            decreases self.representative().len() - i,
        {
            if self.representative[i].0 == cluster_id {
                let ls = copy_labels(&self.representative[i].1);
                assert(self.representative()[i as int].0 == cluster_id);
                return Some(ls);
            }
            i = i + 1;
        }
        None
    }

    /// `v` lists each rule that labels an event of cluster `c` once, with the
    /// number of such labels, in increasing order of the rule's packed key.
    pub open spec fn event_counts(&self, c: ClusterId, v: Seq<(PatternId, usize)>) -> bool {
        &&& sorted_by_key(v)
        &&& forall|i: int|
            0 <= i < v.len() ==> (#[trigger] v[i]).1 == occurrences(self.tuples(), c, v[i].0)
                && v[i].1 > 0
        &&& forall|k: int|
            0 <= k < self.tuples().len() && (#[trigger] self.tuples()[k]).0 == c ==> exists|i: int|
                0 <= i < v.len() && (#[trigger] v[i]).0 == (self.tuples()[k].1, self.tuples()[k].2)
    }

    /// How often each rule labels the events of `cluster_id`, sorted by the
    /// packed key of the rule; `None` where no event of the cluster is labeled.
    pub fn get_event_labels(&self, cluster_id: ClusterId) -> (r: Option<Vec<(PatternId, usize)>>)
        ensures
            r is None <==> !self.labeled(cluster_id),
            r matches Some(v) ==> self.event_counts(cluster_id, v@),
    {
        let mut v: Vec<(PatternId, usize)> = Vec::new();
        let mut i: usize = 0;
        while i < self.tuples.len()
            invariant
                i <= self.tuples().len(),
                sorted_by_key(v@),
                v@.len() <= i,
                forall|j: int|
                    0 <= j < v@.len() ==> (#[trigger] v@[j]).1 == occurrences(
                        self.tuples().take(i as int),
                        cluster_id,
                        v@[j].0,
                    ) && v@[j].1 > 0,
                forall|p: PatternId|
                    occurrences(self.tuples().take(i as int), cluster_id, p) > 0 ==> exists|j: int|
                        0 <= j < v@.len() && (#[trigger] v@[j]).0 == p,
            decreases self.tuples().len() - i,
        {
            let (c, t, u) = self.tuples[i];
            let ghost ts = self.tuples().take(i + 1);
            proof {
                assert(ts.drop_last() =~= self.tuples().take(i as int));
                assert(ts.last() == self.tuples()[i as int]);
                assert(ts =~= self.tuples().take(i as int).push((c, t, u)));
            }
            if c == cluster_id {
                count_pattern(&mut v, (t, u), Ghost(self.tuples().take(i as int)), Ghost(cluster_id));
            } else {
                proof {
                    assert forall|p: PatternId|
                        occurrences(ts, cluster_id, p) == occurrences(
                            self.tuples().take(i as int),
                            cluster_id,
                            p,
                        ) by {}
                }
            }
            i = i + 1;
        }
        proof {
            assert(self.tuples().take(i as int) =~= self.tuples());
            assert forall|k: int|
                0 <= k < self.tuples().len() && (#[trigger] self.tuples()[k]).0
                    == cluster_id implies exists|i: int|
                0 <= i < v@.len() && (#[trigger] v@[i]).0 == (
                    self.tuples()[k].1,
                    self.tuples()[k].2,
                ) by {
                lemma_occurrences_positive(self.tuples(), k);
            }
        }
        if v.len() == 0 {
            proof {
                if self.labeled(cluster_id) {
                    let k = choose|k: int|
                        0 <= k < self.tuples().len() && (#[trigger] self.tuples()[k]).0
                            == cluster_id;
                    lemma_occurrences_positive(self.tuples(), k);
                    let q = (self.tuples()[k].1, self.tuples()[k].2);
                    assert(occurrences(self.tuples().take(i as int), cluster_id, q) > 0);
                    assert(exists|j: int| 0 <= j < v@.len() && (#[trigger] v@[j]).0 == q);
                }
                assert(!self.labeled(cluster_id));
            }
            None
        } else {
            proof {
                let p = v@[0].0;
                lemma_occurrences_witness(self.tuples(), cluster_id, p);
            }
            Some(v)
        }
    }

    /// The number of labeled clusters, of distinct labeled events and of
    /// representative records.
    pub fn statistics(&self) -> (r: (usize, usize, usize))
        ensures
            r.0 == self.labeled_clusters().len(),
            r.1 == self.labeled_events().len(),
            r.2 == self.representative().len(),
    {
        proof {
            use_type_invariant(self);
        }
        let all = message_ids(&self.events);
        let ids = distinct(&all);
        proof {
            string_views(ids@).unique_seq_to_set();
            assert forall|c: ClusterId| #[trigger]
                self.clusters_labels@.dom().contains(c) == self.labeled_clusters().contains(c) by {
                if self.labeled(c) {
                    let k = choose|k: int|
                        0 <= k < self.tuples().len() && (#[trigger] self.tuples()[k]).0 == c;
                    assert(self.tuples@[k].0 == c);
                }
                if self.clusters_labels@.contains_key(c) {
                    let k = choose|k: int|
                        0 <= k < self.tuples@.len() && (#[trigger] self.tuples@[k]).0 == c;
                    assert(self.tuples()[k].0 == c);
                }
            }
            assert(self.clusters_labels@.dom() =~= self.labeled_clusters());
        }
        (self.clusters_labels.len(), ids.len(), self.representative.len())
    }

    /// The clusters that carry a label.
    pub open spec fn labeled_clusters(&self) -> Set<ClusterId> {
        Set::new(|c: ClusterId| self.labeled(c))
    }

    /// The ids of the events that the event labels list.
    pub open spec fn labeled_events(&self) -> Set<Seq<char>> {
        event_ids(self.events()).to_set()
    }
}

pub open spec fn cluster_event_ids(ms: Seq<(MessageId, Vec<EventLabel>)>) -> Seq<Seq<char>> {
    ms.map_values(|m: (MessageId, Vec<EventLabel>)| m.0@)
}

/// The ids of the labeled events, cluster by cluster, in the order given.
pub open spec fn event_ids(ev: Seq<(ClusterId, Vec<(MessageId, Vec<EventLabel>)>)>) -> Seq<
    Seq<char>,
>
    decreases ev.len(),
{
    if ev.len() == 0 {
        Seq::empty()
    } else {
        event_ids(ev.drop_last()) + cluster_event_ids(ev.last().1@)
    }
}

fn message_ids(events: &EventLabels) -> (r: Vec<String>)
    ensures
        string_views(r@) == event_ids(events@),
{
    let mut out: Vec<String> = Vec::new();
    let mut i: usize = 0;
    while i < events.len()
        invariant
            i <= events@.len(),
            string_views(out@) == event_ids(events@.take(i as int)),
        decreases events@.len() - i,
    {
        let ms = &events[i].1;
        let mut j: usize = 0;
        while j < ms.len()
            invariant
                i < events@.len(),
                ms == events@[i as int].1,
                j <= ms@.len(),
                string_views(out@) == event_ids(events@.take(i as int)) + cluster_event_ids(
                    ms@.take(j as int),
                ),
            decreases ms@.len() - j,
        {
            let ghost before = out@;
            out.push(ms[j].0.clone());
            proof {
                assert(string_views(out@) =~= string_views(before).push(ms@[j as int].0@));
                assert(cluster_event_ids(ms@.take(j + 1)) =~= cluster_event_ids(
                    ms@.take(j as int),
                ).push(ms@[j as int].0@));
                assert(string_views(out@) =~= event_ids(events@.take(i as int)) + cluster_event_ids(
                    ms@.take(j + 1),
                ));
            }
            j = j + 1;
        }
        proof {
            assert(events@.take(i + 1).drop_last() =~= events@.take(i as int));
            assert(ms@.take(j as int) =~= ms@);
            assert(string_views(out@) =~= event_ids(events@.take(i + 1)));
        }
        i = i + 1;
    }
    assert(events@.take(i as int) =~= events@);
    out
}

/// The strings of `v` without repeats, in order of first occurrence.
fn distinct(v: &Vec<String>) -> (r: Vec<String>)
    ensures
        string_views(r@).no_duplicates(),
        string_views(r@).to_set() == string_views(v@).to_set(),
{
    let mut names: Vec<String> = Vec::new();
    let mut index = KeyIndex::new();
    assert(string_views(names@) =~= Seq::<Seq<char>>::empty());
    let mut i: usize = 0;
    while i < v.len()
        invariant
            i <= v@.len(),
            index.indexes(string_views(names@)),
            string_views(names@).no_duplicates(),
            string_views(names@).to_set() == string_views(v@.take(i as int)).to_set(),
        decreases v@.len() - i,
    {
        let id = &v[i];
        let found = find_key(&index, &names, id.as_str());
        let known = found.is_some();
        let k = names.len();
        proof {
            if known {
                assert(exists|q: int| 0 <= q < k && names@[q]@ == id@) by {
                    assert(names@[found->0 as int]@ == id@);
                }
            }
        }
        let ghost before = names@;
        if !known {
            index.add(Ghost(string_views(names@)), id.as_str(), names.len());
            names.push(id.clone());
            proof {
                assert(string_views(names@) =~= string_views(before).push(id@));
            }
        }
        proof {
            assert(string_views(v@.take(i + 1)) =~= string_views(v@.take(i as int)).push(id@));
            let prefix = string_views(v@.take(i as int));
            assert(prefix.push(id@) =~= prefix + seq![id@]);
            Seq::lemma_to_set_insert_commutes(prefix, id@);
            if !known {
                assert(string_views(names@) =~= string_views(before).push(id@));
                assert forall|q: int| 0 <= q < before.len() implies string_views(before)[q]
                    != id@ by {}
                assert(string_views(before).push(id@) =~= string_views(before) + seq![id@]);
                Seq::lemma_to_set_insert_commutes(string_views(before), id@);
            } else {
                let q = choose|q: int| 0 <= q < k && names@[q]@ == id@;
                assert(string_views(names@)[q] == id@);
                assert(string_views(names@).to_set().contains(id@));
                assert(prefix.to_set().insert(id@) =~= prefix.to_set());
            }
        }
        i = i + 1;
    }
    assert(v@.take(i as int) =~= v@);
    names
}

/// A copy of a list of representative labels.
fn copy_labels(ls: &Vec<RepresentativeLabel>) -> (r: Vec<RepresentativeLabel>)
    ensures
        r@ == ls@,
{
    let mut r: Vec<RepresentativeLabel> = Vec::new();
    let mut i: usize = 0;
    while i < ls.len()
        invariant
            i <= ls@.len(),
            r@ == ls@.take(i as int),
        decreases ls@.len() - i,
    {
        r.push(ls[i]);
        proof {
            assert(r@ =~= ls@.take(i + 1));
        }
        i = i + 1;
    }
    assert(r@ =~= ls@);
    r
}

proof fn lemma_occurrences_positive(ts: Seq<LabelTuple>, k: int)
    requires
        0 <= k < ts.len(),
    ensures
        occurrences(ts, ts[k].0, (ts[k].1, ts[k].2)) > 0,
    decreases ts.len(),
{
    if k < ts.len() - 1 {
        assert(ts.drop_last()[k] == ts[k]);
        lemma_occurrences_positive(ts.drop_last(), k);
    }
}

proof fn lemma_occurrences_witness(ts: Seq<LabelTuple>, c: ClusterId, p: PatternId)
    requires
        occurrences(ts, c, p) > 0,
    ensures
        exists|k: int| 0 <= k < ts.len() && (#[trigger] ts[k]).0 == c,
    decreases ts.len(),
{
    if ts.last() == (c, p.0, p.1) {
        assert(ts[ts.len() - 1].0 == c);
    } else {
        lemma_occurrences_witness(ts.drop_last(), c, p);
        let k = choose|k: int| 0 <= k < ts.drop_last().len() && (#[trigger] ts.drop_last()[k]).0 == c;
        assert(ts[k] == ts.drop_last()[k]);
    }
}

/// Counts one more assignment of `p` to cluster `c` in a list sorted by rule key.
fn count_pattern(
    v: &mut Vec<(PatternId, usize)>,
    p: PatternId,
    Ghost(ts): Ghost<Seq<LabelTuple>>,
    Ghost(c): Ghost<ClusterId>,
)
    requires
        ts.len() < usize::MAX,
        sorted_by_key(old(v)@),
        old(v)@.len() <= ts.len(),
        forall|j: int|
            0 <= j < old(v)@.len() ==> (#[trigger] old(v)@[j]).1 == occurrences(ts, c, old(v)@[j].0)
                && old(v)@[j].1 > 0,
        forall|q: PatternId|
            occurrences(ts, c, q) > 0 ==> exists|j: int|
                0 <= j < old(v)@.len() && (#[trigger] old(v)@[j]).0 == q,
    ensures
        sorted_by_key(final(v)@),
        final(v)@.len() <= ts.len() + 1,
        forall|j: int|
            0 <= j < final(v)@.len() ==> (#[trigger] final(v)@[j]).1 == occurrences(
                ts.push((c, p.0, p.1)),
                c,
                final(v)@[j].0,
            ) && final(v)@[j].1 > 0,
        forall|q: PatternId|
            occurrences(ts.push((c, p.0, p.1)), c, q) > 0 ==> exists|j: int|
                0 <= j < final(v)@.len() && (#[trigger] final(v)@[j]).0 == q,
{
    let ghost ts2 = ts.push((c, p.0, p.1));
    proof {
        assert(ts2.drop_last() =~= ts);
        assert forall|q: PatternId| occurrences(ts2, c, q) == occurrences(ts, c, q) + if q == p {
            1nat
        } else {
            0nat
        } by {
            if (c, p.0, p.1) == (c, q.0, q.1) {
                assert(q == p);
            }
        }
    }
    let key = pack_pattern_id(p);
    let mut i: usize = 0;
    while i < v.len()
        invariant
            i <= v@.len(),
            v@ == old(v)@,
            key as nat == pattern_key(p),
            forall|j: int| 0 <= j < i ==> pattern_key((#[trigger] v@[j]).0) < pattern_key(p),
        ensures
            i <= v@.len(),
            v@ == old(v)@,
            forall|j: int| 0 <= j < i ==> pattern_key((#[trigger] v@[j]).0) < pattern_key(p),
            i < v@.len() ==> pattern_key(v@[i as int].0) >= pattern_key(p),
        decreases v@.len() - i,
    {
        let k = pack_pattern_id(v[i].0);
        if k >= key {
            break;
        }
        assert(pattern_key(v@[i as int].0) < pattern_key(p));
        i = i + 1;
    }
    if i < v.len() && v[i].0.0 == p.0 && v[i].0.1 == p.1 {
        let n = v[i].1;
        proof {
            lemma_occurrences_bound(ts, c, p);
        }
        v.set(i, (p, n + 1));
        proof {
            assert forall|j: int| 0 <= j < v@.len() implies (#[trigger] v@[j]).1 == occurrences(
                ts2,
                c,
                v@[j].0,
            ) && v@[j].1 > 0 by {
                if j != i {
                    assert(old(v)@[j] == v@[j]);
                    if old(v)@[j].0 == p {
                        lemma_pattern_key_order(old(v)@[j].0, p);
                    }
                }
            }
            assert forall|q: PatternId| occurrences(ts2, c, q) > 0 implies exists|j: int|
                0 <= j < v@.len() && (#[trigger] v@[j]).0 == q by {
                if q == p {
                    assert(v@[i as int].0 == q);
                } else {
                    let j = choose|j: int| 0 <= j < old(v)@.len() && (#[trigger] old(v)@[j]).0 == q;
                    assert(v@[j].0 == q);
                }
            }
        }
    } else {
        proof {
            if i < v@.len() {
                lemma_pattern_key_order(v@[i as int].0, p);
            }
            assert forall|q: PatternId| occurrences(ts, c, q) > 0 implies q != p by {
                if q == p {
                    let j = choose|j: int| 0 <= j < old(v)@.len() && (#[trigger] old(v)@[j]).0 == q;
                    if j < i {
                    } else if j == i {
                    } else {
                        lemma_pattern_key_order(v@[i as int].0, p);
                    }
                }
            }
        }
        v.insert(i, (p, 1));
        proof {
            let before = old(v)@;
            assert forall|a: int, b: int| 0 <= a < b < v@.len() implies pattern_key(v@[a].0)
                < pattern_key(v@[b].0) by {
                if b < i {
                } else if a < i && b == i {
                } else if a < i {
                    assert(v@[b] == before[b - 1]);
                } else if a == i {
                    assert(v@[b] == before[b - 1]);
                    if b - 1 > i {
                        assert(pattern_key(before[i as int].0) < pattern_key(before[b - 1].0));
                    }
                } else {
                    assert(v@[a] == before[a - 1]);
                    assert(v@[b] == before[b - 1]);
                }
            }
            assert forall|j: int| 0 <= j < v@.len() implies (#[trigger] v@[j]).1 == occurrences(
                ts2,
                c,
                v@[j].0,
            ) && v@[j].1 > 0 by {
                if j < i {
                    assert(v@[j] == before[j]);
                    assert(before[j].0 != p);
                } else if j > i {
                    assert(v@[j] == before[j - 1]);
                    lemma_pattern_key_order(before[j - 1].0, p);
                }
            }
            assert forall|q: PatternId| occurrences(ts2, c, q) > 0 implies exists|j: int|
                0 <= j < v@.len() && (#[trigger] v@[j]).0 == q by {
                if q == p {
                    assert(v@[i as int].0 == q);
                } else {
                    let j = choose|j: int| 0 <= j < before.len() && (#[trigger] before[j]).0 == q;
                    if j < i {
                        assert(v@[j].0 == q);
                    } else {
                        assert(v@[j + 1].0 == q);
                    }
                }
            }
        }
    }
}

proof fn lemma_occurrences_bound(ts: Seq<LabelTuple>, c: ClusterId, p: PatternId)
    ensures
        occurrences(ts, c, p) <= ts.len(),
    decreases ts.len(),
{
    if ts.len() > 0 {
        lemma_occurrences_bound(ts.drop_last(), c, p);
    }
}

/// Every label assignment of `events`, in order.
fn flatten(events: &EventLabels) -> (r: Vec<LabelTuple>)
    ensures
        r@ == label_tuples(events@),
{
    let mut out: Vec<LabelTuple> = Vec::new();
    let mut i: usize = 0;
    while i < events.len()
        invariant
            i <= events@.len(),
            out@ == label_tuples(events@.take(i as int)),
        decreases events@.len() - i,
    {
        let c = events[i].0;
        let ms = &events[i].1;
        let mut j: usize = 0;
        while j < ms.len()
            invariant
                i < events@.len(),
                c == events@[i as int].0,
                ms == events@[i as int].1,
                j <= ms@.len(),
                out@ == label_tuples(events@.take(i as int)) + cluster_tuples(c, ms@.take(j as int)),
            decreases ms@.len() - j,
        {
            let ls = &ms[j].1;
            let mut k: usize = 0;
            while k < ls.len()
                invariant
                    j < ms@.len(),
                    ls == ms@[j as int].1,
                    k <= ls@.len(),
                    out@ == label_tuples(events@.take(i as int)) + cluster_tuples(
                        c,
                        ms@.take(j as int),
                    ) + message_tuples(c, ls@.take(k as int)),
                decreases ls@.len() - k,
            {
                let l = ls[k];
                out.push((c, l.0, l.1));
                proof {
                    assert(message_tuples(c, ls@.take(k + 1)) =~= message_tuples(
                        c,
                        ls@.take(k as int),
                    ).push((c, l.0, l.1)));
                    assert(out@ =~= label_tuples(events@.take(i as int)) + cluster_tuples(
                        c,
                        ms@.take(j as int),
                    ) + message_tuples(c, ls@.take(k + 1)));
                }
                k = k + 1;
            }
            proof {
                assert(ms@.take(j + 1).drop_last() =~= ms@.take(j as int));
                assert(ls@.take(k as int) =~= ls@);
                assert(out@ =~= label_tuples(events@.take(i as int)) + cluster_tuples(
                    c,
                    ms@.take(j + 1),
                ));
            }
            j = j + 1;
        }
        proof {
            assert(events@.take(i + 1).drop_last() =~= events@.take(i as int));
            assert(ms@.take(j as int) =~= ms@);
            assert(out@ =~= label_tuples(events@.take(i + 1)));
        }
        i = i + 1;
    }
    assert(events@.take(i as int) =~= events@);
    out
}

} // verus!
