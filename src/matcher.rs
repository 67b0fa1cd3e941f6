use crate::cluster::{
    built_from, member_event_ids, saved_event_ids, same_record, current_events, passes, some_event_matches, Clusters, Members, SavedClusters,
};
use crate::config::{key_position, Config};
use crate::events::{load, schema_of, Events, EventsError};
use crate::labels::{selects, Labels};
use crate::pattern::{inner_pattern, is_negated, regex_matches, regex_valid, split_negation};
use crate::sorted::{contains_id, lemma_filter_contains, lemma_filter_no_duplicates};
use crate::text::{parse_decimal, parse_unsigned, split_fields, split_on, string_of, string_views};
use crate::tidb::{catalog_name, label_name, catalog_name_in, label_name_in, ComplexRules};
use crate::{
    filter_op_symbol, parse_qualifier, ClusterId, EventType, FilterOp, FilterType,
    Qualifier, RuleId, TidbId,
};
use vstd::prelude::*;

verus! {

/// One layer of the drill-down: the filter that made it and the clusters it
/// selected, in order.
pub struct FilteredClusters {
    pub filtertype: FilterType,
    pub op: FilterOp,
    pub pattern: String,
    pub clusters: Vec<ClusterId>,
}

/// Why a session could not start.
#[derive(Debug, Clone, Copy, PartialEq, Eq, Structural)]
pub enum LoadError {
    /// Packet sources are not supported.
    UnsupportedEventType,
    /// The cluster source holds no cluster.
    NoClusters,
    /// No column has the alias of the key column.
    KeyFieldMissing,
    /// No event of the clusters was found.
    NoEvents,
}

/// Why a filter operation failed.
pub enum MatchError {
    /// No cluster at this index of the visible list.
    ClusterNotFound(usize),
    /// The regular expression does not compile.
    InvalidPattern(regex::Error),
    /// Only the unfiltered layer is left.
    BaseLayer,
}

/// The events that a session loads from `lines` for the clusters of `saved`.
pub open spec fn loaded_events(cfg: &Config, saved: SavedClusters, lines: Seq<String>) -> Map<
    Seq<char>,
    (Seq<char>, Seq<Seq<char>>),
> {
    load(
        string_views(lines),
        schema_of(cfg, key_position(cfg.format@, cfg.key_column@)->0),
        saved_event_ids(saved, cfg.delimiter),
    )
}

/// The base layer's pattern text.
pub open spec fn base_title() -> Seq<char> {
    "Clusters"@
}

/// The catalog id and rule id that a label filter's argument names: the fields
/// before and after `:`, each zero where it is missing or not a number.
pub open spec fn pattern_id_of(pattern_id: Option<Seq<char>>) -> (TidbId, RuleId) {
    match pattern_id {
        None => (0, 0),
        Some(s) => {
            let f = split_on(s, ':');
            let t = match parse_unsigned(f[0], u32::MAX as nat) {
                Some(n) => n as u32,
                None => 0,
            };
            let r = if f.len() > 1 {
                match parse_unsigned(f[1], u32::MAX as nat) {
                    Some(n) => n as u32,
                    None => 0,
                }
            } else {
                0
            };
            (t, r)
        },
    }
}

/// Reads a label filter's argument `catalog:rule`.
pub fn parse_pattern_id(pattern_id: Option<&str>) -> (r: (TidbId, RuleId))
    ensures
        r == pattern_id_of(
            match pattern_id {
                Some(s) => Some(s@),
                None => None,
            },
        ),
{
    match pattern_id {
        None => (0, 0),
        Some(id) => {
            let fields = split_fields(id, ':');
            proof {
                crate::text::lemma_split_on_nonempty(id@, ':');
            }
            let ghost fv = fields@.map_values(|f: Vec<char>| f@);
            let first = string_of(fields[0].as_slice());
            assert(first@ == fv[0]);
            let t: u32 = match parse_decimal(first.as_str(), u32::MAX as u64) {
                Some(n) => n as u32,
                None => 0,
            };
            let r: u32 = if fields.len() > 1 {
                let second = string_of(fields[1].as_slice());
                assert(second@ == fv[1]);
                match parse_decimal(second.as_str(), u32::MAX as u64) {
                    Some(n) => n as u32,
                    None => 0,
                }
            } else {
                0
            };
            (t, r)
        },
    }
}

/// Positions of `s` that hold clusters whose pending qualifier differs from `q`.
pub open spec fn changed_count(s: Seq<ClusterId>, m: Map<ClusterId, Members>, q: Qualifier) -> nat
    decreases s.len(),
{
    if s.len() == 0 {
        0
    } else {
        changed_count(s.drop_last(), m, q) + if m.contains_key(s.last()) && m[s.last()].new_qualifier
            != q {
            1nat
        } else {
            0nat
        }
    }
}

/// The clusters of `s` whose pending qualifier differs from `q`, each counted once.
pub open spec fn distinct_changed(s: Seq<ClusterId>, m: Map<ClusterId, Members>, q: Qualifier) -> nat {
    s.to_set().filter(|c: ClusterId| m.contains_key(c) && m[c].new_qualifier != q).len()
}

/// Over a list without repeats, counting positions is counting clusters.
pub proof fn lemma_changed_count_distinct(s: Seq<ClusterId>, m: Map<ClusterId, Members>, q: Qualifier)
    requires
        s.no_duplicates(),
    ensures
        changed_count(s, m, q) == distinct_changed(s, m, q),
        s.to_set().filter(|c: ClusterId| m.contains_key(c) && m[c].new_qualifier != q).finite(),
    decreases s.len(),
{
    broadcast use vstd::set::group_set_axioms, vstd::seq_lib::seq_to_set_is_finite;

    let f = |c: ClusterId| m.contains_key(c) && m[c].new_qualifier != q;
    if s.len() == 0 {
        assert(s.to_set().filter(f) =~= Set::<ClusterId>::empty());
    } else {
        let p = s.drop_last();
        let x = s.last();
        assert(p.no_duplicates());
        lemma_changed_count_distinct(p, m, q);
        assert(s =~= p + seq![x]);
        Seq::lemma_to_set_insert_commutes(p, x);
        assert(!p.to_set().contains(x)) by {
            if p.contains(x) {
                let k = choose|k: int| 0 <= k < p.len() && p[k] == x;
                assert(s[k] == s[s.len() - 1]);
            }
        }
        if f(x) {
            assert(s.to_set().filter(f) =~= p.to_set().filter(f).insert(x));
        } else {
            assert(s.to_set().filter(f) =~= p.to_set().filter(f));
        }
    }
}

/// `after` is `before` with the pending qualifier of the clusters of `s` set to `q`.
pub open spec fn requalified(
    before: Map<ClusterId, Members>,
    after: Map<ClusterId, Members>,
    s: Seq<ClusterId>,
    q: Qualifier,
) -> bool {
    &&& after.dom() == before.dom()
    &&& forall|c: ClusterId| #[trigger]
        after.contains_key(c) ==> after[c] == if s.contains(c) {
            (Members { new_qualifier: q, ..before[c] })
        } else {
            before[c]
        }
}

/// The navigation engine: the stores of a session and its stack of filter layers.
pub struct TitleMatch {
    clusters: Clusters,
    events: Events,
    tidbs: Vec<ComplexRules>,
    labels: Labels,
    rounds: Vec<FilteredClusters>,
}

impl TitleMatch {
    /// The filter layers, the unfiltered one first.
    pub closed spec fn rounds(&self) -> Seq<FilteredClusters> {
        self.rounds@
    }

    /// The visible cluster list: the top layer's.
    pub open spec fn top(&self) -> Seq<ClusterId> {
        self.rounds().last().clusters@
    }

    /// Every cluster by id.
    pub closed spec fn members(&self) -> Map<ClusterId, Members> {
        self.clusters.members()
    }

    /// The ids of all clusters.
    pub closed spec fn all_clusters(&self) -> Seq<ClusterId> {
        self.clusters.cluster_list_spec()
    }

    /// The event store.
    pub closed spec fn events_view(&self) -> Map<Seq<char>, (Seq<char>, Seq<Seq<char>>)> {
        self.events.view()
    }

    /// The label store.
    pub closed spec fn labels_spec(&self) -> Labels {
        self.labels
    }

    /// The rule catalogs.
    pub closed spec fn tidbs_spec(&self) -> Seq<ComplexRules> {
        self.tidbs@
    }

    pub closed spec fn wf(&self) -> bool {
        &&& self.clusters.wf()
        &&& self.rounds@.len() >= 1
        &&& self.rounds@[0].filtertype == FilterType::NoFilter
        &&& self.rounds@[0].op == FilterOp::EQ
        &&& self.rounds@[0].pattern@ == base_title()
        &&& self.rounds@[0].clusters@ == self.clusters.cluster_list_spec()
        &&& forall|i: int| 0 <= i < self.rounds@.len() ==> (#[trigger] self.rounds@[i]).clusters@.no_duplicates()
        &&& forall|i: int, c: ClusterId|
            0 <= i < self.rounds@.len() && #[trigger] self.rounds@[i].clusters@.contains(c)
                ==> self.clusters.members().contains_key(c)
        &&& forall|i: int| 1 <= i < self.rounds@.len() ==> (#[trigger] self.rounds@[i]).clusters@.len() > 0
    }

    /// Starts a session from the loaded inputs: builds the clusters (seeding
    /// qualifiers from the labels), loads the events of their members from
    /// `event_lines`, and opens the unfiltered layer.
    pub fn new(
        cfg: &Config,
        labels: Labels,
        saved: SavedClusters,
        event_lines: Vec<String>,
        tidbs: Vec<ComplexRules>,
    ) -> (r: Result<Self, LoadError>)
        ensures
            (r matches Err(LoadError::UnsupportedEventType)) <==> cfg.event_type
                == EventType::Packet,
            (r matches Err(LoadError::NoClusters)) <==> (cfg.event_type != EventType::Packet
                && saved.clusters@.len() == 0 && saved.outliers@.len() == 0),
            (r matches Err(LoadError::KeyFieldMissing)) <==> (cfg.event_type != EventType::Packet
                && (saved.clusters@.len() > 0 || saved.outliers@.len() > 0)
                && crate::config::key_position(cfg.format@, cfg.key_column@) is None),
            (r matches Err(LoadError::NoEvents)) <==> (cfg.event_type != EventType::Packet
                && (saved.clusters@.len() > 0 || saved.outliers@.len() > 0)
                && crate::config::key_position(cfg.format@, cfg.key_column@) is Some
                && loaded_events(cfg, saved, event_lines@).dom().len() == 0),
            r matches Ok(t) ==> {
                &&& t.wf()
                &&& t.rounds().len() == 1
                &&& t.rounds()[0].filtertype == FilterType::NoFilter
                &&& t.rounds()[0].op == FilterOp::EQ
                &&& t.rounds()[0].pattern@ == base_title()
                &&& t.top() == t.all_clusters()
                &&& built_from(t.all_clusters(), t.members(), saved, labels, cfg.delimiter)
                &&& t.all_clusters().len() > 0
                &&& t.events_view() == loaded_events(cfg, saved, event_lines@)
                &&& t.events_view().dom().len() > 0
                &&& t.labels_spec() == labels
                &&& t.tidbs_spec() == tidbs@
            },
    {
        if cfg.event_type() == EventType::Packet {
            return Err(LoadError::UnsupportedEventType);
        }
        let ghost n_saved = saved.clusters@.len();
        let ghost n_outliers = saved.outliers@.len();
        let ghost first_id = if n_saved > 0 {
            saved.clusters@[0].cluster_id
        } else {
            0
        };
        let ghost saved_clusters = saved.clusters@;
        let mut clusters = Clusters::new(saved, &labels, cfg.delimiter());
        proof {
            let list = clusters.cluster_list_spec();
            let o = crate::cluster::CLUSTER_ID_FOR_OUTLIERS;
            let ids = choose|ids: Seq<ClusterId>|
                {
                    &&& crate::sorted::strictly_sorted(ids)
                    &&& forall|c: ClusterId|
                        #[trigger] ids.contains(c) <==> exists|k: int|
                            0 <= k < saved_clusters.len()
                                && (#[trigger] saved_clusters[k]).cluster_id == c
                    &&& list == if n_outliers > 0 && !ids.contains(o) {
                        ids.push(o)
                    } else {
                        ids
                    }
                };
            if n_saved > 0 {
                assert(saved_clusters[0].cluster_id == first_id);
                assert(ids.contains(first_id));
                let k = choose|k: int| 0 <= k < ids.len() && ids[k] == first_id;
                assert(list[k] == first_id);
                assert(list.len() > 0);
            }
            if n_outliers > 0 {
                if !ids.contains(o) {
                    assert(list[list.len() - 1] == o);
                }
                assert(list.len() > 0);
            }
            if n_saved == 0 && n_outliers == 0 {
                if ids.len() > 0 {
                    assert(ids.contains(ids[0]));
                }
                assert(list.len() == 0);
            }
        }
        if clusters.is_empty() {
            return Err(LoadError::NoClusters);
        }
        let ids = clusters.event_ids();
        proof {
            assert forall|id: Seq<char>|
                string_views(ids@).to_set().contains(id) <==> member_event_ids(
                    clusters.members(),
                ).contains(id) by {}
            assert(string_views(ids@).to_set() =~= saved_event_ids(saved, cfg.delimiter));
        }
        let events = match Events::new(cfg, event_lines, ids) {
            Ok(e) => e,
            Err(EventsError::KeyFieldMissing) => {
                return Err(LoadError::KeyFieldMissing);
            },
        };
        if events.is_empty() {
            return Err(LoadError::NoEvents);
        }
        clusters.init_event_tokens(&events);
        let base = FilteredClusters {
            filtertype: FilterType::NoFilter,
            op: FilterOp::EQ,
            pattern: "Clusters".to_owned(),
            clusters: copy_ids(clusters.cluster_list()),
        };
        let rounds = vec![base];
        let t = TitleMatch { clusters, events, tidbs, labels, rounds };
        proof {
            t.clusters.lemma_wf();
            assert(t.rounds@[0] == base);
            assert forall|i: int, c: ClusterId|
                0 <= i < t.rounds@.len() && #[trigger] t.rounds@[i].clusters@.contains(c)
                    implies t.clusters.members().contains_key(c) by {
                assert(i == 0);
            }
        }
        Ok(t)
    }

    /// Number of clusters.
    pub fn count_clusters(&self) -> (r: usize)
        ensures
            r == self.all_clusters().len(),
    {
        self.clusters.len()
    }

    /// Label statistics: labeled clusters, distinct labeled events,
    /// representative records.
    pub fn statistics(&self) -> (r: (usize, usize, usize))
        requires
            self.wf(),
        ensures
            r.0 == self.labels_spec().labeled_clusters().len(),
            r.1 == self.labels_spec().labeled_events().len(),
            r.2 == self.labels_spec().representative().len(),
    {
        self.labels.statistics()
    }

    /// What a session always holds: the unfiltered layer at the bottom, listing
    /// every cluster; layers without repeats; only held clusters visible.
    pub proof fn lemma_wf(&self)
        requires
            self.wf(),
        ensures
            self.rounds().len() >= 1,
            self.rounds()[0].filtertype == FilterType::NoFilter,
            self.rounds()[0].op == FilterOp::EQ,
            self.rounds()[0].pattern@ == base_title(),
            self.rounds()[0].clusters@ == self.all_clusters(),
            self.top().no_duplicates(),
            forall|c: ClusterId| #[trigger] self.top().contains(c) ==> self.members().contains_key(c),
            forall|c: ClusterId| #[trigger]
                self.members().contains_key(c) <==> self.all_clusters().contains(c),
    {
        self.clusters.lemma_wf();
        let n = self.rounds@.len() - 1;
        assert(self.rounds@[n].clusters@.no_duplicates());
        assert forall|c: ClusterId| #[trigger] self.top().contains(c) implies self.members().contains_key(c) by {
            assert(self.rounds@[n].clusters@.contains(c));
        }
    }

    /// The visible cluster list: held clusters, without repeats.
    pub fn visible(&self) -> (r: &Vec<ClusterId>)
        requires
            self.wf(),
        ensures
            r@ == self.top(),
            r@.no_duplicates(),
            forall|c: ClusterId| #[trigger] r@.contains(c) ==> self.members().contains_key(c),
    {
        proof {
            self.lemma_wf();
        }
        &self.rounds[self.rounds.len() - 1].clusters
    }

    /// The filter layers, the unfiltered one first.
    pub fn layers(&self) -> (r: &Vec<FilteredClusters>)
        ensures
            r@ == self.rounds(),
    {
        &self.rounds
    }

    /// The clusters, the events, the labels and the catalogs of the session.
    pub fn stores(&self) -> (r: (&Clusters, &Events, &Labels, &Vec<ComplexRules>))
        ensures
            r.0.members() == self.members(),
            r.1.view() == self.events_view(),
            *r.2 == self.labels_spec(),
            r.3@ == self.tidbs_spec(),
    {
        (&self.clusters, &self.events, &self.labels, &self.tidbs)
    }

    /// The name of catalog `tidb_id`, from the first catalog with that id.
    pub fn get_tidb_name(&self, tidb_id: TidbId) -> (r: Option<&str>)
        ensures
            match r {
                Some(s) => catalog_name_in(self.tidbs_spec(), tidb_id) == Some(s@),
                None => catalog_name_in(self.tidbs_spec(), tidb_id) is None,
            },
    {
        catalog_name(&self.tidbs, tidb_id)
    }

    /// The name of rule `rule_id` of catalog `tidb_id`, or of the catalog
    /// itself where it has no such rule.
    pub fn get_label_name(&self, tidb_id: TidbId, rule_id: RuleId) -> (r: Option<&str>)
        ensures
            match r {
                Some(s) => label_name_in(self.tidbs_spec(), tidb_id, rule_id) == Some(s@),
                None => label_name_in(self.tidbs_spec(), tidb_id, rule_id) is None,
            },
    {
        label_name(&self.tidbs, tidb_id, rule_id)
    }

    /// The position of cluster `cid` in the visible list.
    pub fn find_cluster(&self, cid: ClusterId) -> (r: Option<usize>)
        requires
            self.wf(),
        ensures
            match r {
                Some(i) => i < self.top().len() && self.top()[i as int] == cid && forall|k: int|
                    0 <= k < i ==> self.top()[k] != cid,
                None => !self.top().contains(cid),
            },
    {
        let last = &self.rounds[self.rounds.len() - 1].clusters;
        let mut i: usize = 0;
        while i < last.len()
            invariant
                last@ == self.top(),
                i <= last@.len(),
                forall|k: int| 0 <= k < i ==> last@[k] != cid,
            decreases last@.len() - i,
        {
            if last[i] == cid {
                return Some(i);
            }
            i = i + 1;
        }
        None
    }

    /// Pushes a layer holding `clusters`, which the top layer's list filters.
    fn push_round(
        &mut self,
        filtertype: FilterType,
        op: FilterOp,
        pattern: String,
        clusters: Vec<ClusterId>,
        Ghost(p): Ghost<spec_fn(ClusterId) -> bool>,
    )
        requires
            old(self).wf(),
            clusters@ == old(self).top().filter(p),
            clusters@.len() > 0,
        ensures
            final(self).wf(),
            final(self).rounds() == old(self).rounds().push(
                FilteredClusters { filtertype, op, pattern, clusters },
            ),
            final(self).members() == old(self).members(),
            final(self).all_clusters() == old(self).all_clusters(),
            final(self).events_view() == old(self).events_view(),
            final(self).labels_spec() == old(self).labels_spec(),
            final(self).tidbs_spec() == old(self).tidbs_spec(),
    {
        let ghost top = old(self).top();
        proof {
            let n = self.rounds@.len() - 1;
            assert(self.rounds@[n].clusters@.no_duplicates());
            lemma_filter_no_duplicates(top, p);
            assert forall|c: ClusterId| clusters@.contains(c) implies self.clusters.members().contains_key(c) by {
                lemma_filter_contains(top, p, c);
                assert(self.rounds@[n].clusters@.contains(c));
            }
        }
        let round = FilteredClusters { filtertype, op, pattern, clusters };
        self.rounds.push(round);
        proof {
            let n = old(self).rounds@.len();
            assert forall|i: int, c: ClusterId|
                0 <= i < self.rounds@.len() && #[trigger] self.rounds@[i].clusters@.contains(c)
                    implies self.clusters.members().contains_key(c) by {
                if i < n {
                    assert(self.rounds@[i] == old(self).rounds@[i]);
                }
            }
            assert forall|i: int| 0 <= i < self.rounds@.len() implies (
            #[trigger] self.rounds@[i]).clusters@.no_duplicates() by {
                if i < n {
                    assert(self.rounds@[i] == old(self).rounds@[i]);
                }
            }
            assert forall|i: int| 1 <= i < self.rounds@.len() implies (
            #[trigger] self.rounds@[i]).clusters@.len() > 0 by {
                if i < n {
                    assert(self.rounds@[i] == old(self).rounds@[i]);
                }
            }
        }
    }

    /// Applies a count or qualifier filter to the visible list. Pushes a layer
    /// with the clusters that pass and returns their number; where none passes,
    /// nothing changes and the answer is `None`.
    pub fn filter_by(&mut self, ft: FilterType, op: FilterOp, value: &str) -> (r: Option<usize>)
        requires
            old(self).wf(),
        ensures
            final(self).wf(),
            final(self).members() == old(self).members(),
            final(self).all_clusters() == old(self).all_clusters(),
            ({
                let kept = old(self).top().filter(
                    |c: ClusterId|
                        old(self).members().contains_key(c) && passes(
                            old(self).members()[c],
                            ft,
                            op,
                            value@,
                        ),
                );
                &&& kept.len() == 0 ==> r is None && final(self).rounds() == old(self).rounds()
                &&& kept.len() > 0 ==> {
                    &&& r == Some(kept.len() as usize)
                    &&& final(self).rounds().len() == old(self).rounds().len() + 1
                    &&& final(self).rounds().drop_last() == old(self).rounds()
                    &&& final(self).top() == kept
                    &&& final(self).rounds().last().filtertype == ft
                    &&& final(self).rounds().last().op == op
                    &&& final(self).rounds().last().pattern@ == if ft == FilterType::Qualifier {
                        value@
                    } else {
                        filter_op_symbol(op) + " "@ + value@
                    }
                }
            }),
    {
        let top = &self.rounds[self.rounds.len() - 1].clusters;
        let clusters = self.clusters.filter_clusters(top.as_slice(), ft, op, value);
        if clusters.len() == 0 {
            return None;
        }
        let cnt = clusters.len();
        let pattern = if ft == FilterType::Qualifier {
            value.to_owned()
        } else {
            let mut p = op.symbol();
            p.append(" ");
            p.append(value);
            p
        };
        let ghost pred = |c: ClusterId|
            old(self).members().contains_key(c) && passes(old(self).members()[c], ft, op, value@);
        self.push_round(ft, op, pattern, clusters, Ghost(pred));
        proof {
            assert(self.rounds().drop_last() =~= old(self).rounds());
        }
        Some(cnt)
    }

    /// Keeps the visible clusters whose flag in `keep` is set (one flag per
    /// visible cluster, as a caller computes them for a score filter). Pushes a
    /// layer with them and returns their number; `None`, with nothing changed,
    /// where none is kept or the flags do not match the visible list.
    pub fn filter_by_flags(
        &mut self,
        ft: FilterType,
        op: FilterOp,
        pattern: &str,
        keep: &Vec<bool>,
    ) -> (r: Option<usize>)
        requires
            old(self).wf(),
        ensures
            final(self).wf(),
            final(self).members() == old(self).members(),
            final(self).all_clusters() == old(self).all_clusters(),
            ({
                let kept = flagged(old(self).top(), keep@);
                &&& (keep@.len() != old(self).top().len() || kept.len() == 0) ==> r is None
                    && final(self).rounds() == old(self).rounds()
                &&& (keep@.len() == old(self).top().len() && kept.len() > 0) ==> {
                    &&& r == Some(kept.len() as usize)
                    &&& final(self).rounds().len() == old(self).rounds().len() + 1
                    &&& final(self).rounds().drop_last() == old(self).rounds()
                    &&& final(self).top() == kept
                    &&& final(self).rounds().last().filtertype == ft
                    &&& final(self).rounds().last().op == op
                    &&& final(self).rounds().last().pattern@ == pattern@
                }
            }),
    {
        let top = &self.rounds[self.rounds.len() - 1].clusters;
        if keep.len() != top.len() {
            return None;
        }
        let mut clusters: Vec<ClusterId> = Vec::new();
        let mut i: usize = 0;
        while i < top.len()
            invariant
                top@ == old(self).top(),
                keep@.len() == top@.len(),
                i <= top@.len(),
                clusters@ == flagged(top@.take(i as int), keep@.take(i as int)),
            decreases top@.len() - i,
        {
            proof {
                assert(top@.take(i + 1).drop_last() =~= top@.take(i as int));
                assert(keep@.take(i + 1).drop_last() =~= keep@.take(i as int));
            }
            if keep[i] {
                clusters.push(top[i]);
            }
            i = i + 1;
        }
        proof {
            assert(top@.take(i as int) =~= top@);
            assert(keep@.take(i as int) =~= keep@);
        }
        if clusters.len() == 0 {
            return None;
        }
        let cnt = clusters.len();
        let ghost pred = |c: ClusterId| flagged_set(old(self).top(), keep@).contains(c);
        proof {
            lemma_flagged_is_filter(old(self).top(), keep@);
        }
        self.push_round(ft, op, pattern.to_owned(), clusters, Ghost(pred));
        proof {
            assert(self.rounds().drop_last() =~= old(self).rounds());
        }
        Some(cnt)
    }

    /// Keeps the visible clusters that carry a label of a rule that the
    /// argument `catalog:rule` selects (zero or a missing part selects any),
    /// in visible order. Pushes a layer with them and returns their number;
    /// where none is kept, nothing changes and the answer is `None`.
    pub fn filter_by_label(&mut self, ft: FilterType, op: FilterOp, pattern_id: Option<&str>) -> (r:
        Option<usize>)
        requires
            old(self).wf(),
        ensures
            final(self).wf(),
            final(self).members() == old(self).members(),
            final(self).all_clusters() == old(self).all_clusters(),
            ({
                let (t, u) = pattern_id_of(
                    match pattern_id {
                        Some(s) => Some(s@),
                        None => None,
                    },
                );
                let ts = old(self).labels_spec().tuples();
                let kept = old(self).top().filter(
                    |c: ClusterId|
                        exists|k: int|
                            0 <= k < ts.len() && (#[trigger] ts[k]).0 == c && selects(
                                t,
                                u,
                                (ts[k].1, ts[k].2),
                            ),
                );
                &&& kept.len() == 0 ==> r is None && final(self).rounds() == old(self).rounds()
                &&& kept.len() > 0 ==> {
                    &&& r == Some(kept.len() as usize)
                    &&& final(self).rounds().len() == old(self).rounds().len() + 1
                    &&& final(self).rounds().drop_last() == old(self).rounds()
                    &&& final(self).top() == kept
                    &&& final(self).rounds().last().filtertype == ft
                    &&& final(self).rounds().last().op == op
                    &&& final(self).rounds().last().pattern@ == match pattern_id {
                        Some(s) => s@,
                        None => "All"@,
                    }
                }
            }),
    {
        let (tidb_id, rule_id) = parse_pattern_id(pattern_id);
        let found = self.labels.find_clusters(tidb_id, rule_id);
        let top = &self.rounds[self.rounds.len() - 1].clusters;
        let clusters = crate::sorted::retain_within(top, &found);
        let ghost pred = |c: ClusterId| found@.contains(c);
        proof {
            let ts = self.labels.tuples();
            let spec_pred = |c: ClusterId|
                exists|k: int|
                    0 <= k < ts.len() && (#[trigger] ts[k]).0 == c && selects(
                        tidb_id,
                        rule_id,
                        (ts[k].1, ts[k].2),
                    );
            assert(pred =~= spec_pred);
        }
        if clusters.len() == 0 {
            return None;
        }
        let cnt = clusters.len();
        let pattern = match pattern_id {
            Some(v) => v.to_owned(),
            None => "All".to_owned(),
        };
        self.push_round(ft, op, pattern, clusters, Ghost(pred));
        proof {
            assert(self.rounds().drop_last() =~= old(self).rounds());
        }
        Some(cnt)
    }

    /// Keeps the visible clusters with an event whose line matches the
    /// regular expression, or with a leading `!` those without one. Pushes a
    /// layer with them and returns their number; `Ok(None)`, with nothing
    /// changed, where none is kept or the pattern is a bare `!`. Fails, with
    /// nothing changed, on a pattern that does not compile.
    pub fn filter_by_regex(&mut self, pattern: &str) -> (r: Result<Option<usize>, regex::Error>)
        requires
            old(self).wf(),
        ensures
            final(self).wf(),
            final(self).members() == old(self).members(),
            final(self).all_clusters() == old(self).all_clusters(),
            pattern@ == seq!['!'] ==> (r matches Ok(None)),
            r is Err ==> pattern@ != seq!['!'] && !regex_valid(inner_pattern(pattern@)),
            pattern@ != seq!['!'] && !regex_valid(inner_pattern(pattern@)) ==> r is Err,
            !(r matches Ok(Some(_))) ==> final(self).rounds() == old(self).rounds(),
            pattern@ != seq!['!'] && regex_valid(inner_pattern(pattern@)) ==> ({
                let kept = old(self).top().filter(
                    |c: ClusterId|
                        (old(self).members().contains_key(c) && some_event_matches(
                            string_views(old(self).members()[c].event_ids@),
                            inner_pattern(pattern@),
                            old(self).events_view(),
                        )) != is_negated(pattern@),
                );
                &&& kept.len() == 0 ==> (r matches Ok(None))
                &&& kept.len() > 0 ==> {
                    &&& r == Ok::<Option<usize>, regex::Error>(Some(kept.len() as usize))
                    &&& final(self).rounds().len() == old(self).rounds().len() + 1
                    &&& final(self).rounds().drop_last() == old(self).rounds()
                    &&& final(self).top() == kept
                    &&& final(self).rounds().last().filtertype == FilterType::Regex
                    &&& final(self).rounds().last().op == FilterOp::EQ
                    &&& final(self).rounds().last().pattern@ == inner_pattern(pattern@)
                }
            }),
    {
        let (negate, inner) = split_negation(pattern);
        if negate && inner.unicode_len() == 0 {
            assert(pattern@ =~= seq!['!']);
            return Ok(None);
        }
        proof {
            if pattern@ == seq!['!'] {
                assert(inner@.len() == 0);
            }
        }
        let top = &self.rounds[self.rounds.len() - 1].clusters;
        let matched = match self.clusters.regex_match(top.as_slice(), inner, &self.events) {
            Ok(m) => m,
            Err(e) => {
                return Err(e);
            },
        };
        let ghost mpred = |c: ClusterId|
            old(self).members().contains_key(c) && some_event_matches(
                string_views(old(self).members()[c].event_ids@),
                inner_pattern(pattern@),
                old(self).events_view(),
            );
        let ghost pred = |c: ClusterId| mpred(c) != is_negated(pattern@);
        proof {
            let from_store = |c: ClusterId|
                self.clusters.members().contains_key(c) && some_event_matches(
                    string_views(self.clusters.members()[c].event_ids@),
                    inner@,
                    self.events.view(),
                );
            assert(from_store =~= mpred);
            let stated = |c: ClusterId|
                (old(self).members().contains_key(c) && some_event_matches(
                    string_views(old(self).members()[c].event_ids@),
                    inner_pattern(pattern@),
                    old(self).events_view(),
                )) != is_negated(pattern@);
            assert(stated =~= pred);
        }
        let mut clusters: Vec<ClusterId> = Vec::new();
        let mut i: usize = 0;
        while i < top.len()
            invariant
                top@ == old(self).top(),
                matched@ == top@.filter(mpred),
                negate == is_negated(pattern@),
                i <= top@.len(),
                top@.no_duplicates(),
                clusters@ == top@.take(i as int).filter(pred),
                pred == (|c: ClusterId| mpred(c) != is_negated(pattern@)),
            decreases top@.len() - i,
        {
            let c = top[i];
            proof {
                assert(top@.take(i + 1).drop_last() =~= top@.take(i as int));
                reveal(Seq::filter);
                lemma_filter_contains(top@, mpred, c);
                assert(top@.contains(c));
            }
            let hit = contains_id(&matched, c);
            if hit != negate {
                clusters.push(c);
            }
            i = i + 1;
        }
        proof {
            assert(top@.take(i as int) =~= top@);
        }
        if clusters.len() == 0 {
            return Ok(None);
        }
        let cnt = clusters.len();
        let pattern_text = inner.to_owned();
        self.push_round(FilterType::Regex, FilterOp::EQ, pattern_text, clusters, Ghost(pred));
        proof {
            assert(self.rounds().drop_last() =~= old(self).rounds());
        }
        Ok(Some(cnt))
    }

    /// Filters the events of the cluster at position `index` of the visible
    /// list: `NoFilter` clears its event filters, `Regex` pushes the events
    /// that the pattern selects (see `Clusters::regex_match_in_this_cluster`)
    /// and returns their number. Without a position, nothing happens.
    pub fn filter_event(&mut self, ft: FilterType, pattern: Option<&str>, ticks: Option<usize>) -> (r:
        Result<usize, MatchError>)
        requires
            old(self).wf(),
        ensures
            final(self).wf(),
            final(self).rounds() == old(self).rounds(),
            final(self).all_clusters() == old(self).all_clusters(),
            final(self).members().dom() == old(self).members().dom(),
            ticks is None ==> (r matches Ok(0)) && final(self).members() == old(self).members(),
            ticks matches Some(i) ==> (r matches Err(MatchError::ClusterNotFound(j)) <==> i
                >= old(self).top().len()) && (r matches Err(MatchError::ClusterNotFound(j))
                ==> j == i),
            ticks is Some && ticks->0 >= old(self).top().len() ==> final(self).members() == old(self).members(),
            ticks is Some && ticks->0 < old(self).top().len() ==> ({
                let cid = old(self).top()[ticks->0 as int];
                &&& forall|c: ClusterId| #[trigger]
                    final(self).members().contains_key(c) && c != cid ==> final(self).members()[c] == old(self).members()[c]
                &&& ft == FilterType::NoFilter ==> {
                    let o = old(self).members()[cid];
                    let m = final(self).members()[cid];
                    &&& r matches Ok(0)
                    &&& m.filtered_events@.len() == 0
                    &&& m.filter@.len() == 0
                    &&& same_record(m, o)
                }
                &&& (ft == FilterType::Regex && pattern is Some) ==> {
                    let p = pattern->0;
                    &&& (r is Err <==> p@ != seq!['!'] && !regex_valid(inner_pattern(p@)))
                    &&& (p@ == seq!['!'] || r is Err) ==> (r is Err || r == Ok::<usize, MatchError>(0))
                        && final(self).members() == old(self).members()
                    &&& (p@ != seq!['!'] && regex_valid(inner_pattern(p@))) ==> {
                        let n = r->Ok_0;
                        let o = old(self).members()[cid];
                        let m = final(self).members()[cid];
                        &&& same_record(m, o)
                        &&& m.filtered_events@.len() == o.filtered_events@.len() + 1
                        &&& m.filtered_events@.drop_last() == o.filtered_events@
                        &&& string_views(m.filter@) == string_views(o.filter@).push(p@)
                        &&& n == m.filtered_events@.last()@.len()
                        &&& string_views(m.filtered_events@.last()@) == current_events(o).filter(
                            |id: Seq<char>|
                                (old(self).events_view().contains_key(id) && regex_matches(
                                    inner_pattern(p@),
                                    old(self).events_view()[id].0,
                                )) != is_negated(p@),
                        )
                    }
                }
                &&& !(ft == FilterType::NoFilter || (ft == FilterType::Regex && pattern is Some))
                    ==> (r matches Ok(0)) && final(self).members() == old(self).members()
            }),
    {
        let index = match ticks {
            Some(i) => i,
            None => {
                return Ok(0);
            },
        };
        let top = &self.rounds[self.rounds.len() - 1].clusters;
        if index >= top.len() {
            return Err(MatchError::ClusterNotFound(index));
        }
        let cluster_id = top[index];
        proof {
            assert(self.rounds@[self.rounds@.len() - 1].clusters@.contains(cluster_id));
        }
        let ghost rounds = self.rounds@;
        let ghost start = *self;
        match ft {
            FilterType::NoFilter => {
                self.clusters.clear_filter(cluster_id);
                proof {
                    self.lemma_wf_after_store_change(start);
                }
                Ok(0)
            },
            FilterType::Regex => {
                match pattern {
                    Some(p) => {
                        proof {
                            self.clusters.lemma_wf();
                        }
                        match self.clusters.regex_match_in_this_cluster(cluster_id, p, &self.events) {
                            Err(e) => Err(MatchError::InvalidPattern(e)),
                            Ok(None) => Ok(0),
                            Ok(Some(matched)) => {
                                let n = matched.len();
                                self.clusters.set_filtered(cluster_id, matched, p);
                                proof {
                                    self.lemma_wf_after_store_change(start);
                                }
                                Ok(n)
                            },
                        }
                    },
                    None => Ok(0),
                }
            },
            _ => Ok(0),
        }
    }

    proof fn lemma_wf_after_store_change(&self, before: TitleMatch)
        requires
            before.wf(),
            self.clusters.wf(),
            self.rounds@ == before.rounds@,
            self.clusters.cluster_list_spec() == before.clusters.cluster_list_spec(),
            self.clusters.members().dom() == before.clusters.members().dom(),
        ensures
            self.wf(),
    {
        assert forall|i: int, c: ClusterId|
            0 <= i < self.rounds@.len() && #[trigger] self.rounds@[i].clusters@.contains(c)
                implies self.clusters.members().contains_key(c) by {
            assert(before.rounds@[i].clusters@.contains(c));
            assert(before.clusters.members().dom().contains(c));
        }
    }

    /// Drops the top layer, making the one below visible again. Fails where
    /// only the unfiltered layer is left.
    pub fn remove_filter(&mut self) -> (r: Result<(), MatchError>)
        requires
            old(self).wf(),
        ensures
            final(self).wf(),
            final(self).members() == old(self).members(),
            final(self).all_clusters() == old(self).all_clusters(),
            old(self).rounds().len() <= 1 ==> (r matches Err(MatchError::BaseLayer)) && final(self).rounds() == old(self).rounds(),
            old(self).rounds().len() > 1 ==> r is Ok && final(self).rounds() == old(self).rounds().drop_last(),
    {
        if self.rounds.len() <= 1 {
            return Err(MatchError::BaseLayer);
        }
        let _top = self.rounds.pop();
        proof {
            assert forall|i: int, c: ClusterId|
                0 <= i < self.rounds@.len() && #[trigger] self.rounds@[i].clusters@.contains(c)
                    implies self.clusters.members().contains_key(c) by {
                assert(self.rounds@[i] == old(self).rounds@[i]);
            }
            assert forall|i: int| 0 <= i < self.rounds@.len() implies (
            #[trigger] self.rounds@[i]).clusters@.no_duplicates() by {
                assert(self.rounds@[i] == old(self).rounds@[i]);
            }
            assert forall|i: int| 1 <= i < self.rounds@.len() implies (
            #[trigger] self.rounds@[i]).clusters@.len() > 0 by {
                assert(self.rounds@[i] == old(self).rounds@[i]);
            }
        }
        Ok(())
    }

    /// Sets the pending qualifier named `qualifier` on the cluster at position
    /// `idx` of the visible list, or with `all` on every visible cluster, and
    /// returns how many changed. `None`, with nothing changed, where the name is
    /// not a qualifier or, for one cluster, the position is out of range.
    pub fn set_qualifier(&mut self, idx: usize, qualifier: &str, all: bool) -> (r: Option<usize>)
        requires
            old(self).wf(),
        ensures
            final(self).wf(),
            final(self).rounds() == old(self).rounds(),
            final(self).all_clusters() == old(self).all_clusters(),
            parse_qualifier(qualifier@) is None ==> r is None && final(self).members() == old(self).members(),
            parse_qualifier(qualifier@) is Some && all ==> {
                let q = parse_qualifier(qualifier@)->0;
                &&& r == Some(changed_count(old(self).top(), old(self).members(), q) as usize)
                &&& r == Some(distinct_changed(old(self).top(), old(self).members(), q) as usize)
                &&& requalified(old(self).members(), final(self).members(), old(self).top(), q)
            },
            parse_qualifier(qualifier@) is Some && !all ==> {
                let q = parse_qualifier(qualifier@)->0;
                &&& idx >= old(self).top().len() ==> r is None && final(self).members() == old(self).members()
                &&& idx < old(self).top().len() ==> {
                    let cid = old(self).top()[idx as int];
                    &&& r == Some(
                        if old(self).members()[cid].new_qualifier != q {
                            1usize
                        } else {
                            0usize
                        },
                    )
                    &&& requalified(old(self).members(), final(self).members(), seq![cid], q)
                }
            },
    {
        let nq = match Qualifier::parse(qualifier) {
            Some(q) => q,
            None => {
                return None;
            },
        };
        let ghost rounds = self.rounds@;
        let ghost start = *self;
        let n = self.rounds.len();
        let top = copy_ids(&self.rounds[n - 1].clusters);
        let ghost before = self.clusters.members();
        if all {
            let mut cnt: usize = 0;
            let mut i: usize = 0;
            while i < top.len()
                invariant
                    self.clusters.wf(),
                    self.rounds@ == rounds,
                    self.clusters.cluster_list_spec() == old(self).all_clusters(),
                    top@ == old(self).top(),
                    top@.no_duplicates(),
                    forall|c: ClusterId| top@.contains(c) ==> before.contains_key(c),
                    before == old(self).members(),
                    start == *old(self),
                    start.wf(),
                    i <= top@.len(),
                    cnt == changed_count(top@.take(i as int), before, nq),
                    cnt <= i,
                    requalified(before, self.clusters.members(), top@.take(i as int), nq),
                decreases top@.len() - i,
            {
                let cid = top[i];
                let ghost mid = self.clusters.members();
                proof {
                    assert(top@.take(i + 1).drop_last() =~= top@.take(i as int));
                    assert(top@.contains(cid));
                    if top@.take(i as int).contains(cid) {
                        let k = choose|k: int| 0 <= k < i && top@.take(i as int)[k] == cid;
                        assert(top@[k] == top@[i as int]);
                    }
                    assert(mid[cid] == before[cid]);
                }
                if self.clusters.set_qualifier(cid, nq) {
                    cnt = cnt + 1;
                }
                proof {
                    let m2 = self.clusters.members();
                    let s2 = top@.take(i + 1);
                    assert forall|c: ClusterId| #[trigger] m2.contains_key(c) implies m2[c] == if s2.contains(c) {
                        (Members { new_qualifier: nq, ..before[c] })
                    } else {
                        before[c]
                    } by {
                        if c == cid {
                            assert(s2[i as int] == cid);
                        } else {
                            if s2.contains(c) {
                                let k = choose|k: int| 0 <= k < s2.len() && s2[k] == c;
                                assert(top@.take(i as int)[k] == c);
                            }
                            if top@.take(i as int).contains(c) {
                                let k = choose|k: int| 0 <= k < i && top@.take(i as int)[k] == c;
                                assert(s2[k] == c);
                            }
                        }
                    }
                    assert(m2.dom() =~= before.dom());
                }
                i = i + 1;
            }
            proof {
                assert(top@.take(i as int) =~= top@);
                lemma_changed_count_distinct(top@, before, nq);
                self.lemma_wf_after_store_change(start);
            }
            Some(cnt)
        } else {
            if idx >= top.len() {
                return None;
            }
            let cid = top[idx];
            proof {
                assert(top@.contains(cid));
            }
            proof {
                assert(self.rounds@[self.rounds@.len() - 1].clusters@.contains(cid));
                assert(before.contains_key(cid));
            }
            let changed = self.clusters.set_qualifier(cid, nq);
            proof {
                assert(self.clusters.members().dom() =~= before.dom());
                self.lemma_wf_after_store_change(start);
                let m2 = self.clusters.members();
                assert forall|c: ClusterId| #[trigger] m2.contains_key(c) implies m2[c] == if seq![
                    cid,
                ].contains(c) {
                    (Members { new_qualifier: nq, ..before[c] })
                } else {
                    before[c]
                } by {
                    if seq![cid].contains(c) {
                        assert(seq![cid][0] == c);
                    }
                    if c == cid {
                        assert(seq![cid][0] == c);
                    }
                }
                assert(m2.dom() =~= before.dom());
            }
            Some(if changed {
                1
            } else {
                0
            })
        }
    }
}

/// The clusters of `s` whose flag is set.
pub open spec fn flagged(s: Seq<ClusterId>, keep: Seq<bool>) -> Seq<ClusterId>
    decreases s.len(),
{
    if s.len() == 0 || keep.len() == 0 {
        Seq::empty()
    } else if keep.last() {
        flagged(s.drop_last(), keep.drop_last()).push(s.last())
    } else {
        flagged(s.drop_last(), keep.drop_last())
    }
}

pub open spec fn flagged_set(s: Seq<ClusterId>, keep: Seq<bool>) -> Set<ClusterId> {
    Set::new(|c: ClusterId| exists|k: int| 0 <= k < s.len() && k < keep.len() && s[k] == c && keep[k])
}

proof fn lemma_flagged_is_filter(s: Seq<ClusterId>, keep: Seq<bool>)
    requires
        s.no_duplicates(),
        s.len() == keep.len(),
    ensures
        flagged(s, keep) == s.filter(|c: ClusterId| flagged_set(s, keep).contains(c)),
    decreases s.len(),
{
    reveal(Seq::filter);
    let p = |c: ClusterId| flagged_set(s, keep).contains(c);
    if s.len() > 0 {
        let s1 = s.drop_last();
        let k1 = keep.drop_last();
        assert(s1.no_duplicates());
        lemma_flagged_is_filter(s1, k1);
        let p_prefix = |c: ClusterId| flagged_set(s1, k1).contains(c);
        assert forall|c: ClusterId| s1.contains(c) implies p_prefix(c) == p(c) by {
            let j = choose|j: int| 0 <= j < s1.len() && s1[j] == c;
            if p(c) {
                let k = choose|k: int| 0 <= k < s.len() && k < keep.len() && s[k] == c && keep[k];
                if k == s.len() - 1 {
                    assert(s[j] == s[k]);
                }
                assert(s1[k] == c && k1[k]);
            }
            if p_prefix(c) {
                let k = choose|k: int| 0 <= k < s1.len() && k < k1.len() && s1[k] == c && k1[k];
                assert(s[k] == c && keep[k]);
            }
        }
        lemma_filter_congruent(s1, p_prefix, p);
        let c = s.last();
        assert(p(c) == keep.last()) by {
            if keep.last() {
                assert(s[s.len() - 1] == c && keep[keep.len() - 1]);
            }
            if p(c) {
                let k = choose|k: int| 0 <= k < s.len() && k < keep.len() && s[k] == c && keep[k];
                assert(s[k] == s[s.len() - 1]);
            }
        }
    }
}

proof fn lemma_filter_congruent(s: Seq<ClusterId>, p: spec_fn(ClusterId) -> bool, q: spec_fn(ClusterId) -> bool)
    requires
        forall|c: ClusterId| s.contains(c) ==> p(c) == q(c),
    ensures
        s.filter(p) == s.filter(q),
    decreases s.len(),
{
    reveal(Seq::filter);
    if s.len() > 0 {
        let s1 = s.drop_last();
        assert forall|c: ClusterId| s1.contains(c) implies p(c) == q(c) by {
            let j = choose|j: int| 0 <= j < s1.len() && s1[j] == c;
            assert(s[j] == c);
            assert(s.contains(c));
        }
        lemma_filter_congruent(s1, p, q);
        assert(s.contains(s.last())) by {
            assert(s[s.len() - 1] == s.last());
        }
    }
}

/// A copy of a list of cluster ids.
pub fn copy_ids(v: &Vec<ClusterId>) -> (r: Vec<ClusterId>)
    ensures
        r@ == v@,
{
    let mut r: Vec<ClusterId> = Vec::new();
    let mut i: usize = 0;
    while i < v.len()
        invariant
            i <= v@.len(),
            r@ == v@.take(i as int),
        decreases v@.len() - i,
    {
        r.push(v[i]);
        proof {
            assert(r@ =~= v@.take(i + 1));
        }
        i = i + 1;
    }
    assert(r@ =~= v@);
    r
}

} // verus!

verus! {

/// Applying a filter that succeeds and then leaving its layer gives back the
/// layers that were there before, and so the same visible list and title.
pub proof fn lemma_apply_exit_round_trip(before: TitleMatch, applied: TitleMatch, exited: TitleMatch)
    requires
        applied.rounds().len() == before.rounds().len() + 1,
        applied.rounds().drop_last() == before.rounds(),
        exited.rounds() == applied.rounds().drop_last(),
    ensures
        exited.rounds() == before.rounds(),
        exited.top() == before.top(),
        exited.rounds().last().filtertype == before.rounds().last().filtertype,
        exited.rounds().last().op == before.rounds().last().op,
        exited.rounds().last().pattern == before.rounds().last().pattern,
{
}

/// After a count filter, every cluster that is kept passes the comparison with
/// the literal, and every cluster of the previous layer that is left out fails it.
pub proof fn lemma_count_filter(
    prev: Seq<ClusterId>,
    members: Map<ClusterId, Members>,
    op: FilterOp,
    value: Seq<char>,
)
    ensures
        forall|c: ClusterId|
            prev.filter(
                |d: ClusterId|
                    members.contains_key(d) && passes(members[d], FilterType::Count, op, value),
            ).contains(c) ==> members.contains_key(c) && crate::compare(
                op,
                members[c].size as int,
                crate::cluster::count_literal(value) as int,
            ),
        forall|c: ClusterId|
            prev.contains(c) && members.contains_key(c) && !prev.filter(
                |d: ClusterId|
                    members.contains_key(d) && passes(members[d], FilterType::Count, op, value),
            ).contains(c) ==> !crate::compare(
                op,
                members[c].size as int,
                crate::cluster::count_literal(value) as int,
            ),
{
    let p = |d: ClusterId| members.contains_key(d) && passes(members[d], FilterType::Count, op, value);
    assert forall|c: ClusterId| #[trigger] prev.filter(p).contains(c) <==> prev.contains(c) && p(c) by {
        lemma_filter_contains(prev, p, c);
    }
}

/// Setting qualifier `q` on every cluster of a visible list changes at most as
/// many clusters as the list holds; afterwards each of them has `q`, so setting
/// it again changes none.
pub proof fn lemma_set_qualifier_all(
    top: Seq<ClusterId>,
    before: Map<ClusterId, Members>,
    after: Map<ClusterId, Members>,
    q: Qualifier,
)
    requires
        requalified(before, after, top, q),
        forall|c: ClusterId| top.contains(c) ==> before.contains_key(c),
    ensures
        changed_count(top, before, q) <= top.len(),
        top.no_duplicates() ==> changed_count(top, before, q) == distinct_changed(top, before, q),
        forall|c: ClusterId| top.contains(c) ==> after[c].new_qualifier == q,
        changed_count(top, after, q) == 0,
{
    if top.no_duplicates() {
        lemma_changed_count_distinct(top, before, q);
    }
    lemma_changed_count_bound(top, before, q);
    assert forall|c: ClusterId| top.contains(c) implies after[c].new_qualifier == q by {
        assert(before.dom().contains(c));
        assert(after.contains_key(c));
    }
    lemma_changed_count_zero(top, top, after, q);
}

proof fn lemma_changed_count_bound(s: Seq<ClusterId>, m: Map<ClusterId, Members>, q: Qualifier)
    ensures
        changed_count(s, m, q) <= s.len(),
    decreases s.len(),
{
    if s.len() > 0 {
        lemma_changed_count_bound(s.drop_last(), m, q);
    }
}

proof fn lemma_changed_count_zero(
    s: Seq<ClusterId>,
    all: Seq<ClusterId>,
    m: Map<ClusterId, Members>,
    q: Qualifier,
)
    requires
        forall|c: ClusterId| all.contains(c) ==> m[c].new_qualifier == q,
        forall|k: int| 0 <= k < s.len() ==> all.contains(#[trigger] s[k]),
    ensures
        changed_count(s, m, q) == 0,
    decreases s.len(),
{
    if s.len() > 0 {
        assert forall|k: int| 0 <= k < s.drop_last().len() implies all.contains(
            #[trigger] s.drop_last()[k],
        ) by {
            assert(s.drop_last()[k] == s[k]);
        }
        lemma_changed_count_zero(s.drop_last(), all, m, q);
        assert(all.contains(s[s.len() - 1]));
    }
}

} // verus!
