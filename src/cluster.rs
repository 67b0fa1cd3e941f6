use crate::events::Events;
use crate::keyindex::{find_key, KeyIndex};
use crate::labels::Labels;
use crate::pattern::{inner_pattern, is_negated, regex_matches, regex_valid, split_negation, Pattern};
use crate::sorted::{insert_sorted, strictly_sorted};
use crate::text::{parse_decimal, parse_unsigned, split_fields, split_on, string_of, string_views};
use crate::{
    compare, parse_qualifier, ClusterId, FilterOp, FilterType, MessageId, Qualifier,
};
use vstd::prelude::*;
use vstd::std_specs::hash::group_hash_axioms;

verus! {

broadcast use group_hash_axioms;

/// The id of the cluster that gathers the outliers.
pub const CLUSTER_ID_FOR_OUTLIERS: ClusterId = 1_000_000;

/// Position of the event id among the fields of an outlier record.
pub const OUTLIER_MESSAGE_ID_INDEX: usize = 1;

/// A cluster as the clustering pass saved it; the score is given by the bits
/// of its `f32` value.
pub struct ClusterMember {
    pub cluster_id: ClusterId,
    pub cluster_size: usize,
    pub signature: Option<String>,
    pub score_bits: Option<u32>,
    pub events: Vec<MessageId>,
}

/// The output of the clustering pass.
pub struct SavedClusters {
    pub detector_id: i32,
    pub events_count: usize,
    pub clusters_count: usize,
    pub outlier_count: usize,
    pub clusters: Vec<ClusterMember>,
    pub outliers: Vec<String>,
}

impl SavedClusters {
    /// The ids of the saved clusters, sorted, without repeats.
    pub fn cluster_ids(&self) -> (r: Vec<ClusterId>)
        ensures
            strictly_sorted(r@),
            forall|c: ClusterId|
                #[trigger] r@.contains(c) <==> exists|k: int|
                    0 <= k < self.clusters@.len() && (#[trigger] self.clusters@[k]).cluster_id == c,
    {
        let mut r: Vec<ClusterId> = Vec::new();
        let mut i: usize = 0;
        while i < self.clusters.len()
            invariant
                i <= self.clusters@.len(),
                strictly_sorted(r@),
                forall|c: ClusterId|
                    #[trigger] r@.contains(c) <==> exists|k: int|
                        0 <= k < i && (#[trigger] self.clusters@[k]).cluster_id == c,
            decreases self.clusters@.len() - i,
        {
            let c = self.clusters[i].cluster_id;
            insert_sorted(&mut r, c);
            proof {
                assert forall|d: ClusterId| #[trigger]
                    r@.contains(d) <==> exists|k: int|
                        0 <= k < i + 1 && (#[trigger] self.clusters@[k]).cluster_id == d by {
                    if d == c {
                        assert(self.clusters@[i as int].cluster_id == d);
                    }
                    if exists|k: int| 0 <= k < i + 1 && (#[trigger] self.clusters@[k]).cluster_id == d {
                        let k = choose|k: int|
                            0 <= k < i + 1 && (#[trigger] self.clusters@[k]).cluster_id == d;
                        if k < i {
                        }
                    }
                }
            }
            i = i + 1;
        }
        r
    }

    /// Detector id and the counts of events, clusters and outliers.
    pub fn attributes(&self) -> (r: (i32, usize, usize, usize))
        ensures
            r == (self.detector_id, self.events_count, self.clusters_count, self.outlier_count),
    {
        (self.detector_id, self.events_count, self.clusters_count, self.outlier_count)
    }

    /// The outlier records.
    pub fn outliers(&self) -> (r: &Vec<String>)
        ensures
            r@ == self.outliers@,
    {
        &self.outliers
    }
}

/// The event ids of the outlier records: the field at the id position of each
/// record that has one.
pub open spec fn outlier_ids(outliers: Seq<Seq<char>>, d: char) -> Seq<Seq<char>>
    decreases outliers.len(),
{
    if outliers.len() == 0 {
        Seq::empty()
    } else {
        let p = outlier_ids(outliers.drop_last(), d);
        let f = split_on(outliers.last(), d);
        if f.len() > OUTLIER_MESSAGE_ID_INDEX {
            p.push(f[OUTLIER_MESSAGE_ID_INDEX as int])
        } else {
            p
        }
    }
}

pub open spec fn opt_view(s: Option<String>) -> Option<Seq<char>> {
    match s {
        Some(x) => Some(x@),
        None => None,
    }
}

/// A cluster of the session: what was loaded, its qualifiers and its stack of
/// event filters.
pub struct Members {
    pub id: ClusterId,
    pub size: usize,
    pub score_bits: u32,
    pub qualifier: Qualifier,
    pub new_qualifier: Qualifier,
    pub signature: Option<String>,
    pub event_ids: Vec<MessageId>,
    pub filtered_events: Vec<Vec<MessageId>>,
    pub filter: Vec<String>,
}

/// `m` is what loading makes of the saved cluster `s`: Suspicious where the
/// cluster is labeled, else Unknown.
pub open spec fn loaded_from(m: Members, s: ClusterMember, labeled: bool) -> bool {
    &&& m.id == s.cluster_id
    &&& m.size == s.cluster_size
    &&& m.score_bits == (match s.score_bits {
        Some(b) => b,
        None => 0u32,
    })
    &&& m.qualifier == (if labeled {
        Qualifier::Suspicious
    } else {
        Qualifier::Unknown
    })
    &&& m.new_qualifier == m.qualifier
    &&& opt_view(m.signature) == opt_view(s.signature)
    &&& string_views(m.event_ids@) == string_views(s.events@)
    &&& m.filtered_events@.len() == 0
    &&& m.filter@.len() == 0
}

/// `m` is the cluster that gathers the outlier records: one per record, with
/// no score, no signature, and Unknown whatever the labels say.
pub open spec fn outliers_member(m: Members, outliers: Seq<Seq<char>>, d: char) -> bool {
    &&& m.id == CLUSTER_ID_FOR_OUTLIERS
    &&& m.size == outliers.len()
    &&& m.score_bits == 0
    &&& m.qualifier == Qualifier::Unknown
    &&& m.new_qualifier == Qualifier::Unknown
    &&& m.signature is None
    &&& string_views(m.event_ids@) == outlier_ids(outliers, d)
    &&& m.filtered_events@.len() == 0
    &&& m.filter@.len() == 0
}

/// `k` is the last saved record of its cluster id.
pub open spec fn last_record(cs: Seq<ClusterMember>, k: int) -> bool {
    0 <= k < cs.len() && forall|j: int| k < j < cs.len() ==> (#[trigger] cs[j]).cluster_id != cs[k].cluster_id
}

proof fn lemma_last_record(cs: Seq<ClusterMember>, k: int)
    requires
        0 <= k < cs.len(),
    ensures
        exists|k2: int| last_record(cs, k2) && cs[k2].cluster_id == cs[k].cluster_id,
    decreases cs.len() - k,
{
    if !last_record(cs, k) {
        let j = choose|j: int| k < j < cs.len() && (#[trigger] cs[j]).cluster_id == cs[k].cluster_id;
        lemma_last_record(cs, j);
    }
}

/// What loading makes of the clustering pass's output: the list of cluster
/// ids (the saved ids sorted without repeats, then the outlier cluster if there
/// are outliers and its id is not among them), the clusters held (those
/// listed), each saved cluster from its last record unless the outlier cluster
/// takes its id, and the outlier cluster.
pub open spec fn built_from(
    list: Seq<ClusterId>,
    members: Map<ClusterId, Members>,
    saved: SavedClusters,
    labels: Labels,
    d: char,
) -> bool {
    &&& exists|ids: Seq<ClusterId>|
        {
            &&& strictly_sorted(ids)
            &&& forall|c: ClusterId|
                #[trigger] ids.contains(c) <==> exists|k: int|
                    0 <= k < saved.clusters@.len() && (#[trigger] saved.clusters@[k]).cluster_id == c
            &&& list == if saved.outliers@.len() > 0 && !ids.contains(CLUSTER_ID_FOR_OUTLIERS) {
                ids.push(CLUSTER_ID_FOR_OUTLIERS)
            } else {
                ids
            }
        }
    &&& forall|c: ClusterId| #[trigger] members.contains_key(c) <==> list.contains(c)
    &&& forall|k: int|
        last_record(saved.clusters@, k) && !(saved.outliers@.len() > 0
            && saved.clusters@[k].cluster_id == CLUSTER_ID_FOR_OUTLIERS) ==> loaded_from(
            members[(#[trigger] saved.clusters@[k]).cluster_id],
            saved.clusters@[k],
            labels.labeled(saved.clusters@[k].cluster_id),
        )
    &&& saved.outliers@.len() > 0 ==> outliers_member(
        members[CLUSTER_ID_FOR_OUTLIERS],
        string_views(saved.outliers@),
        d,
    )
}

/// The ids of the events of the held clusters.
pub open spec fn member_event_ids(members: Map<ClusterId, Members>) -> Set<Seq<char>> {
    Set::new(
        |id: Seq<char>|
            exists|c: ClusterId|
                members.contains_key(c) && string_views(members[c].event_ids@).contains(id),
    )
}

/// The ids of the events that loading gives the clusters: those of each last
/// record (unless the outlier cluster takes its id), and those of the outliers.
pub open spec fn saved_event_ids(saved: SavedClusters, d: char) -> Set<Seq<char>> {
    Set::new(
        |id: Seq<char>|
            (exists|k: int|
                last_record(saved.clusters@, k) && !(saved.outliers@.len() > 0
                    && saved.clusters@[k].cluster_id == CLUSTER_ID_FOR_OUTLIERS) && string_views(
                    saved.clusters@[k].events@,
                ).contains(id)) || (saved.outliers@.len() > 0 && outlier_ids(
                string_views(saved.outliers@),
                d,
            ).contains(id)),
    )
}

/// `m` and `o` agree on everything but their event filter stacks.
pub open spec fn same_record(m: Members, o: Members) -> bool {
    &&& m.id == o.id
    &&& m.size == o.size
    &&& m.score_bits == o.score_bits
    &&& m.qualifier == o.qualifier
    &&& m.new_qualifier == o.new_qualifier
    &&& m.signature == o.signature
    &&& m.event_ids == o.event_ids
}

/// The events that the cluster shows: the innermost event filter's result, or
/// all of its events.
pub open spec fn current_events(m: Members) -> Seq<Seq<char>> {
    if m.filtered_events@.len() > 0 {
        string_views(m.filtered_events@.last()@)
    } else {
        string_views(m.event_ids@)
    }
}

/// The number that a count filter compares with: the literal read as an
/// unsigned integer, zero where it is not one.
pub open spec fn count_literal(value: Seq<char>) -> nat {
    match parse_unsigned(value, usize::MAX as nat) {
        Some(n) => n,
        None => 0,
    }
}

/// The qualifier that a qualifier filter looks for: Unknown where the literal
/// names none.
pub open spec fn qualifier_literal(value: Seq<char>) -> Qualifier {
    match parse_qualifier(value) {
        Some(q) => q,
        None => Qualifier::Unknown,
    }
}

/// Whether cluster `m` passes the filter `ft op value`.
pub open spec fn passes(m: Members, ft: FilterType, op: FilterOp, value: Seq<char>) -> bool {
    match ft {
        FilterType::Count => compare(op, m.size as int, count_literal(value) as int),
        FilterType::Qualifier => m.new_qualifier == qualifier_literal(value),
        _ => false,
    }
}

/// Whether `re` matches the line of one of the events `ids` of `events`.
pub open spec fn some_event_matches(
    ids: Seq<Seq<char>>,
    p: Seq<char>,
    events: Map<Seq<char>, (Seq<char>, Seq<Seq<char>>)>,
) -> bool {
    exists|k: int|
        0 <= k < ids.len() && events.contains_key(#[trigger] ids[k]) && regex_matches(
            p,
            events[ids[k]].0,
        )
}

/// Whether event `id` is held and has token `t`.
pub open spec fn event_has_token(
    events: Map<Seq<char>, (Seq<char>, Seq<Seq<char>>)>,
    id: Seq<char>,
    t: Seq<char>,
) -> bool {
    events.contains_key(id) && events[id].1.contains(t)
}

/// Whether one of the first `n` events of `ids` has token `t`.
pub open spec fn event_prefix_has_token(
    ids: Seq<MessageId>,
    n: int,
    events: Map<Seq<char>, (Seq<char>, Seq<Seq<char>>)>,
    t: Seq<char>,
) -> bool {
    exists|q: int| 0 <= q < n && q < ids.len() && event_has_token(events, (#[trigger] ids[q])@, t)
}

/// Whether cluster `c` has an event with token `t`.
pub open spec fn cluster_has_token(
    members: Map<ClusterId, Members>,
    events: Map<Seq<char>, (Seq<char>, Seq<Seq<char>>)>,
    c: ClusterId,
    t: Seq<char>,
) -> bool {
    members.contains_key(c) && event_prefix_has_token(
        members[c].event_ids@,
        members[c].event_ids@.len() as int,
        events,
        t,
    )
}

pub open spec fn index_view(index: Seq<(String, Vec<ClusterId>)>) -> Seq<(Seq<char>, Seq<ClusterId>)> {
    index.map_values(|e: (String, Vec<ClusterId>)| (e.0@, e.1@))
}

/// Each token once, each with a non-empty sorted list of clusters without repeats.
pub open spec fn index_wf(index: Seq<(Seq<char>, Seq<ClusterId>)>) -> bool {
    &&& forall|a: int, b: int| 0 <= a < b < index.len() ==> index[a].0 != index[b].0
    &&& forall|a: int| 0 <= a < index.len() ==> strictly_sorted(#[trigger] index[a].1)
    &&& forall|a: int| 0 <= a < index.len() ==> (#[trigger] index[a]).1.len() > 0
}

/// Whether the index lists cluster `c` under token `t`.
pub open spec fn indexed(index: Seq<(Seq<char>, Seq<ClusterId>)>, t: Seq<char>, c: ClusterId) -> bool {
    exists|a: int| 0 <= a < index.len() && (#[trigger] index[a]).0 == t && index[a].1.contains(c)
}

proof fn lemma_prefix_step(
    ids: Seq<MessageId>,
    j: int,
    events: Map<Seq<char>, (Seq<char>, Seq<Seq<char>>)>,
    t: Seq<char>,
)
    requires
        0 <= j < ids.len(),
    ensures
        event_prefix_has_token(ids, j + 1, events, t) == (event_prefix_has_token(ids, j, events, t)
            || event_has_token(events, ids[j]@, t)),
{
    if event_prefix_has_token(ids, j + 1, events, t) {
        let q = choose|q: int|
            0 <= q < j + 1 && q < ids.len() && event_has_token(events, (#[trigger] ids[q])@, t);
        if q < j {
            assert(event_prefix_has_token(ids, j, events, t));
        }
    }
    if event_prefix_has_token(ids, j, events, t) {
        let q = choose|q: int|
            0 <= q < j && q < ids.len() && event_has_token(events, (#[trigger] ids[q])@, t);
        assert(event_prefix_has_token(ids, j + 1, events, t));
    }
    if event_has_token(events, ids[j]@, t) {
        assert(event_prefix_has_token(ids, j + 1, events, t));
    }
}

/// Adds cluster `c` under each of `tokens`.
fn add_event_tokens(index: &mut TokenIndex, tokens: &Vec<String>, c: ClusterId)
    requires
        old(index).wf(),
    ensures
        final(index).wf(),
        forall|u: Seq<char>, d: ClusterId|
            #[trigger] indexed(final(index).view(), u, d) <==> (indexed(
                old(index).view(),
                u,
                d,
            ) || (d == c && string_views(tokens@).contains(u))),
{
    let ghost start = index.view();
    let ghost tv = string_views(tokens@);
    let mut k: usize = 0;
    while k < tokens.len()
        invariant
            start == old(index).view(),
            tv == string_views(tokens@),
            k <= tokens@.len(),
            index.wf(),
            forall|u: Seq<char>, d: ClusterId|
                #[trigger] indexed(index.view(), u, d) <==> (indexed(start, u, d) || (d == c
                    && tv.take(k as int).contains(u))),
        decreases tokens@.len() - k,
    {
        let ghost mid = index.view();
        index.add(&tokens[k], c);
        proof {
            assert forall|u: Seq<char>, d: ClusterId|
                #[trigger] indexed(index.view(), u, d) <==> (indexed(start, u, d) || (d == c
                    && tv.take(k + 1).contains(u))) by {
                assert(indexed(mid, u, d) <==> (indexed(start, u, d) || (d == c && tv.take(
                    k as int,
                ).contains(u))));
                if tv.take(k + 1).contains(u) {
                    let q = choose|q: int| 0 <= q < k + 1 && #[trigger] tv.take(k + 1)[q] == u;
                    if q < k {
                        assert(tv.take(k as int)[q] == u);
                    } else {
                        assert(tv[q] == u);
                        assert(tokens@[q]@ == u);
                    }
                }
                if tv.take(k as int).contains(u) {
                    let q = choose|q: int| 0 <= q < k && #[trigger] tv.take(k as int)[q] == u;
                    assert(tv.take(k + 1)[q] == u);
                }
                if u == tokens@[k as int]@ {
                    assert(tv.take(k + 1)[k as int] == u);
                }
            }
        }
        k = k + 1;
    }
    proof {
        assert(tv.take(k as int) =~= tv);
    }
}

/// The token index: each token with the clusters that hold it, and the tokens
/// grouped by hash for lookup (a `HashMap` keyed by the token `String` would
/// have no specification in vstd; see `KeyIndex`).
pub struct TokenIndex {
    entries: Vec<(String, Vec<ClusterId>)>,
    names: Vec<String>,
    keys: KeyIndex,
}

impl TokenIndex {
    /// Each token with its clusters.
    pub closed spec fn view(&self) -> Seq<(Seq<char>, Seq<ClusterId>)> {
        index_view(self.entries@)
    }

    pub closed spec fn wf(&self) -> bool {
        &&& index_wf(index_view(self.entries@))
        &&& self.names@.len() == self.entries@.len()
        &&& forall|a: int| 0 <= a < self.names@.len() ==> (#[trigger] self.names@[a])@ == self.entries@[a].0@
        &&& self.keys.indexes(string_views(self.names@))
    }

    /// An index of no token.
    pub fn new() -> (r: Self)
        ensures
            r.wf(),
            r.view() == Seq::<(Seq<char>, Seq<ClusterId>)>::empty(),
    {
        let r = TokenIndex { entries: Vec::new(), names: Vec::new(), keys: KeyIndex::new() };
        assert(string_views(r.names@) =~= Seq::<Seq<char>>::empty());
        assert(index_view(r.entries@) =~= Seq::<(Seq<char>, Seq<ClusterId>)>::empty());
        r
    }

    /// The position of token `t`, if it is listed.
    fn position(&self, t: &str) -> (r: Option<usize>)
        requires
            self.wf(),
        ensures
            match r {
                Some(pos) => pos < self.entries@.len() && self.entries@[pos as int].0@ == t@,
                None => forall|a: int| 0 <= a < self.entries@.len() ==> (#[trigger] self.entries@[a]).0@ != t@,
            },
    {
        let r = find_key(&self.keys, &self.names, t);
        proof {
            if r is None {
                assert forall|a: int| 0 <= a < self.entries@.len() implies (#[trigger] self.entries@[a]).0@ != t@ by {
                    assert(self.names@[a]@ == self.entries@[a].0@);
                }
            } else {
                assert(self.names@[r->0 as int]@ == self.entries@[r->0 as int].0@);
            }
        }
        r
    }

    /// The clusters listed under token `t`.
    pub fn get(&self, t: &str) -> (r: Option<Vec<ClusterId>>)
        requires
            self.wf(),
        ensures
            match r {
                Some(v) => exists|a: int|
                    0 <= a < self.view().len() && (#[trigger] self.view()[a]).0 == t@
                        && self.view()[a].1 == v@,
                None => forall|a: int|
                    0 <= a < self.view().len() ==> (#[trigger] self.view()[a]).0 != t@,
            },
    {
        match self.position(t) {
            Some(pos) => {
                let v = crate::matcher::copy_ids(&self.entries[pos].1);
                assert(self.view()[pos as int].0 == t@);
                Some(v)
            },
            None => {
                proof {
                    assert forall|a: int| 0 <= a < self.view().len() implies (#[trigger] self.view()[a]).0 != t@ by {
                        assert(self.view()[a].0 == self.entries@[a].0@);
                    }
                }
                None
            },
        }
    }

    /// Lists cluster `c` under token `t`.
    pub fn add(&mut self, t: &String, c: ClusterId)
        requires
            old(self).wf(),
        ensures
            final(self).wf(),
            forall|u: Seq<char>, d: ClusterId|
                indexed(final(self).view(), u, d) <==> (indexed(old(self).view(), u, d) || (u == t@
                    && d == c)),
    {
        let ghost old_v = index_view(self.entries@);
        match self.position(t.as_str()) {
            Some(pos) => {
                let mut e = self.entries.remove(pos);
                assert(e == old(self).entries@[pos as int]);
                assert(strictly_sorted(old_v[pos as int].1));
                insert_sorted(&mut e.1, c);
                assert(e.1@.contains(c));
                self.entries.insert(pos, e);
                proof {
                    let nv = index_view(self.entries@);
                    assert forall|a: int| 0 <= a < nv.len() implies (#[trigger] nv[a]).1.len() > 0 by {
                        if a != pos {
                            assert(nv[a] == old_v[a]);
                        }
                    }
                    assert(self.entries@ =~= old(self).entries@.update(pos as int, e));
                    assert(nv =~= old_v.update(pos as int, (t@, e.1@)));
                    assert forall|a: int| 0 <= a < self.names@.len() implies (#[trigger] self.names@[a])@
                        == self.entries@[a].0@ by {
                        assert(old(self).names@[a]@ == old(self).entries@[a].0@);
                    }
                    assert forall|u: Seq<char>, d: ClusterId|
                        indexed(nv, u, d) <==> (indexed(old_v, u, d) || (u == t@ && d == c)) by {
                        if indexed(nv, u, d) {
                            let a = choose|a: int| 0 <= a < nv.len() && (#[trigger] nv[a]).0 == u && nv[a].1.contains(d);
                            if a != pos {
                                assert(old_v[a] == nv[a]);
                            } else if d != c {
                                assert(old_v[a].1.contains(d));
                            }
                        }
                        if indexed(old_v, u, d) {
                            let a = choose|a: int| 0 <= a < old_v.len() && (#[trigger] old_v[a]).0 == u && old_v[a].1.contains(d);
                            assert(nv[a].0 == u);
                            if a == pos {
                                assert(nv[a].1.contains(d));
                            }
                        }
                        if u == t@ && d == c {
                            assert(nv[pos as int].0 == u);
                            assert(nv[pos as int].1.contains(d));
                        }
                    }
                }
            },
            None => {
                let mut cs: Vec<ClusterId> = Vec::new();
                cs.push(c);
                let ghost entry = (t@, cs@);
                let ghost old_names = self.names@;
                self.entries.push((t.clone(), cs));
                self.keys.add(Ghost(string_views(self.names@)), t.as_str(), self.names.len());
                self.names.push(t.clone());
                proof {
                    let nv = index_view(self.entries@);
                    assert(nv =~= old_v.push(entry));
                    assert forall|a: int| 0 <= a < nv.len() implies (#[trigger] nv[a]).1.len() > 0 by {
                        if a < old_v.len() {
                            assert(nv[a] == old_v[a]);
                        }
                    }
                    assert(string_views(self.names@) =~= string_views(old_names).push(t@));
                    assert forall|a: int| 0 <= a < self.names@.len() implies (#[trigger] self.names@[a])@
                        == self.entries@[a].0@ by {
                        if a < old_names.len() {
                            assert(self.names@[a] == old_names[a]);
                            assert(old(self).names@[a]@ == old(self).entries@[a].0@);
                        }
                    }
                    assert forall|a: int| 0 <= a < old_v.len() implies old_v[a].0 != t@ by {
                        assert(old(self).entries@[a].0@ == old_v[a].0);
                    }
                    assert(strictly_sorted(entry.1));
                    assert forall|u: Seq<char>, d: ClusterId|
                        indexed(nv, u, d) <==> (indexed(old_v, u, d) || (u == t@ && d == c)) by {
                        if indexed(nv, u, d) {
                            let a = choose|a: int| 0 <= a < nv.len() && (#[trigger] nv[a]).0 == u && nv[a].1.contains(d);
                            if a < old_v.len() {
                                assert(old_v[a] == nv[a]);
                            } else {
                                assert(entry.1[0] == c);
                            }
                        }
                        if indexed(old_v, u, d) {
                            let a = choose|a: int| 0 <= a < old_v.len() && (#[trigger] old_v[a]).0 == u && old_v[a].1.contains(d);
                            assert(nv[a] == old_v[a]);
                        }
                        if u == t@ && d == c {
                            assert(nv[old_v.len() as int] == entry);
                            assert(entry.1[0] == d);
                        }
                    }
                }
            },
        }
    }
}

impl Members {
    /// Sets the pending qualifier; tells whether it changed.
    pub fn set_qualifier(&mut self, qualifier: Qualifier) -> (r: bool)
        ensures
            r == (old(self).new_qualifier != qualifier),
            *final(self) == (Members { new_qualifier: qualifier, ..*old(self) }),
    {
        if self.new_qualifier != qualifier {
            self.new_qualifier = qualifier;
            return true;
        }
        false
    }

    /// The signature of the cluster as loaded, whatever its length; shortening
    /// it for display is left to the caller.
    pub fn stored_signature(&self) -> (r: Option<&str>)
        ensures
            match r {
                Some(s) => self.signature matches Some(x) && x@ == s@,
                None => self.signature is None,
            },
    {
        match &self.signature {
            Some(s) => Some(s.as_str()),
            None => None,
        }
    }
}

/// A copy of a list of strings.
pub fn copy_strings(v: &Vec<String>) -> (r: Vec<String>)
    ensures
        string_views(r@) == string_views(v@),
{
    let mut r: Vec<String> = Vec::new();
    let mut i: usize = 0;
    while i < v.len()
        invariant
            i <= v@.len(),
            string_views(r@) == string_views(v@.take(i as int)),
        decreases v@.len() - i,
    {
        let ghost before = r@;
        r.push(v[i].clone());
        proof {
            assert(string_views(r@) =~= string_views(before).push(v@[i as int]@));
            assert(string_views(v@.take(i + 1)) =~= string_views(v@.take(i as int)).push(
                v@[i as int]@,
            ));
        }
        i = i + 1;
    }
    assert(v@.take(i as int) =~= v@);
    r
}

/// The event ids of the outlier records.
fn outlier_event_ids(outliers: &Vec<String>, d: char) -> (r: Vec<MessageId>)
    ensures
        string_views(r@) == outlier_ids(string_views(outliers@), d),
{
    let ghost ov = string_views(outliers@);
    let mut r: Vec<MessageId> = Vec::new();
    let mut i: usize = 0;
    while i < outliers.len()
        invariant
            i <= outliers@.len(),
            ov == string_views(outliers@),
            string_views(r@) == outlier_ids(ov.take(i as int), d),
        decreases outliers@.len() - i,
    {
        let fields = split_fields(outliers[i].as_str(), d);
        proof {
            assert(ov.take(i + 1).drop_last() =~= ov.take(i as int));
            assert(ov.take(i + 1).last() == outliers@[i as int]@);
        }
        if fields.len() > OUTLIER_MESSAGE_ID_INDEX {
            let id = string_of(fields[OUTLIER_MESSAGE_ID_INDEX].as_slice());
            let ghost before = r@;
            r.push(id);
            proof {
                assert(string_views(r@) =~= string_views(before).push(id@));
            }
        }
        i = i + 1;
    }
    assert(ov.take(i as int) =~= ov);
    r
}

/// The cluster store: every cluster by id, and the list of cluster ids.
pub struct Clusters {
    clusters: Vec<ClusterId>,
    outliers: Vec<String>,
    clusters_map: std::collections::HashMap<ClusterId, Members>,
    tokens_clusters: TokenIndex,
}

impl Clusters {
    /// The ids of all clusters, in display order.
    pub closed spec fn cluster_list_spec(&self) -> Seq<ClusterId> {
        self.clusters@
    }

    /// Every cluster by id.
    pub closed spec fn members(&self) -> Map<ClusterId, Members> {
        self.clusters_map@
    }

    pub closed spec fn wf(&self) -> bool {
        &&& self.clusters@.no_duplicates()
        &&& forall|c: ClusterId| #[trigger]
            self.clusters_map@.contains_key(c) <==> self.clusters@.contains(c)
        &&& forall|c: ClusterId| #[trigger]
            self.clusters_map@.contains_key(c) ==> self.clusters_map@[c].id == c
        &&& self.tokens_clusters.wf()
    }

    /// Every listed cluster is held, and only those; the list has no repeats.
    pub proof fn lemma_wf(&self)
        requires
            self.wf(),
        ensures
            self.cluster_list_spec().no_duplicates(),
            forall|c: ClusterId| #[trigger]
                self.members().contains_key(c) <==> self.cluster_list_spec().contains(c),
    {
    }

    /// Builds the clusters from the clustering pass's output. A cluster that
    /// carries a label starts Suspicious, any other Unknown. Outlier records,
    /// if any, form one more cluster under the reserved id, listed last.
    pub fn new(saved: SavedClusters, labels: &Labels, delimiter: char) -> (r: Self)
        ensures
            r.wf(),
            built_from(r.cluster_list_spec(), r.members(), saved, *labels, delimiter),
            member_event_ids(r.members()) == saved_event_ids(saved, delimiter),
    {
        let ghost s = saved;
        let r = Self::build(saved, labels, delimiter);
        proof {
            r.lemma_wf();
            let m = r.members();
            let cs = s.clusters@;
            let o = CLUSTER_ID_FOR_OUTLIERS;
            let outl = s.outliers@.len() > 0;
            assert forall|id: Seq<char>|
                member_event_ids(m).contains(id) <==> saved_event_ids(s, delimiter).contains(id) by {
                if member_event_ids(m).contains(id) {
                    let c = choose|c: ClusterId|
                        m.contains_key(c) && string_views(m[c].event_ids@).contains(id);
                    if c == o && outl {
                    } else {
                        assert(r.cluster_list_spec().contains(c));
                        let ids = choose|ids: Seq<ClusterId>|
                            {
                                &&& strictly_sorted(ids)
                                &&& forall|c: ClusterId|
                                    #[trigger] ids.contains(c) <==> exists|k: int|
                                        0 <= k < cs.len() && (#[trigger] cs[k]).cluster_id == c
                                &&& r.cluster_list_spec() == if outl && !ids.contains(o) {
                                    ids.push(o)
                                } else {
                                    ids
                                }
                            };
                        if outl && !ids.contains(o) {
                            let q = choose|q: int|
                                0 <= q < r.cluster_list_spec().len() && r.cluster_list_spec()[q] == c;
                            if q < ids.len() {
                                assert(ids[q] == c);
                            }
                        }
                        assert(ids.contains(c));
                        let k = choose|k: int| 0 <= k < cs.len() && (#[trigger] cs[k]).cluster_id == c;
                        lemma_last_record(cs, k);
                        let k2 = choose|k2: int| last_record(cs, k2) && cs[k2].cluster_id == c;
                        assert(loaded_from(m[cs[k2].cluster_id], cs[k2], labels.labeled(c)));
                    }
                }
                if saved_event_ids(s, delimiter).contains(id) {
                    if exists|k: int|
                        last_record(cs, k) && !(outl && cs[k].cluster_id == o) && string_views(
                            cs[k].events@,
                        ).contains(id) {
                        let k = choose|k: int|
                            last_record(cs, k) && !(outl && cs[k].cluster_id == o) && string_views(
                                cs[k].events@,
                            ).contains(id);
                        let c = cs[k].cluster_id;
                        assert(loaded_from(m[c], cs[k], labels.labeled(c)));
                        let ids = choose|ids: Seq<ClusterId>|
                            {
                                &&& strictly_sorted(ids)
                                &&& forall|c: ClusterId|
                                    #[trigger] ids.contains(c) <==> exists|k: int|
                                        0 <= k < cs.len() && (#[trigger] cs[k]).cluster_id == c
                                &&& r.cluster_list_spec() == if outl && !ids.contains(o) {
                                    ids.push(o)
                                } else {
                                    ids
                                }
                            };
                        assert(ids.contains(c));
                        let q = choose|q: int| 0 <= q < ids.len() && ids[q] == c;
                        assert(r.cluster_list_spec()[q] == c);
                        assert(m.contains_key(c));
                    } else {
                        assert(outl);
                        let ids = choose|ids: Seq<ClusterId>|
                            {
                                &&& strictly_sorted(ids)
                                &&& forall|c: ClusterId|
                                    #[trigger] ids.contains(c) <==> exists|k: int|
                                        0 <= k < cs.len() && (#[trigger] cs[k]).cluster_id == c
                                &&& r.cluster_list_spec() == if outl && !ids.contains(o) {
                                    ids.push(o)
                                } else {
                                    ids
                                }
                            };
                        if !ids.contains(o) {
                            assert(r.cluster_list_spec()[r.cluster_list_spec().len() - 1] == o);
                        } else {
                            let q = choose|q: int| 0 <= q < ids.len() && ids[q] == o;
                            assert(r.cluster_list_spec()[q] == o);
                        }
                        assert(m.contains_key(o));
                    }
                }
            }
            assert(member_event_ids(m) =~= saved_event_ids(s, delimiter));
        }
        r
    }

    fn build(saved: SavedClusters, labels: &Labels, delimiter: char) -> (r: Self)
        ensures
            r.wf(),
            built_from(r.cluster_list_spec(), r.members(), saved, *labels, delimiter),
    {
        let ids = saved.cluster_ids();
        let mut clusters = ids;
        let mut map: std::collections::HashMap<ClusterId, Members> =
            std::collections::HashMap::new();
        let ghost sc = saved.clusters@;
        let mut i: usize = 0;
        while i < saved.clusters.len()
            invariant
                i <= sc.len(),
                sc == saved.clusters@,
                forall|c: ClusterId|
                    #[trigger] map@.contains_key(c) <==> exists|k: int|
                        0 <= k < i && (#[trigger] sc[k]).cluster_id == c,
                forall|c: ClusterId| #[trigger] map@.contains_key(c) ==> map@[c].id == c,
                forall|k: int|
                    0 <= k < i && (forall|j: int|
                        k < j < i ==> (#[trigger] sc[j]).cluster_id != sc[k].cluster_id)
                        ==> loaded_from(
                        map@[(#[trigger] sc[k]).cluster_id],
                        sc[k],
                        labels.labeled(sc[k].cluster_id),
                    ),
            decreases sc.len() - i,
        {
            let m = &saved.clusters[i];
            let qualifier = if labels.is_labeled(m.cluster_id) {
                Qualifier::Suspicious
            } else {
                Qualifier::Unknown
            };
            let signature = match &m.signature {
                Some(s) => Some(s.clone()),
                None => None,
            };
            let score_bits = match m.score_bits {
                Some(b) => b,
                None => 0,
            };
            let member = Members {
                id: m.cluster_id,
                size: m.cluster_size,
                score_bits,
                qualifier,
                new_qualifier: qualifier,
                signature,
                event_ids: copy_strings(&m.events),
                filtered_events: Vec::new(),
                filter: Vec::new(),
            };
            let ghost old_map = map@;
            map.insert(m.cluster_id, member);
            proof {
                let c = sc[i as int].cluster_id;
                assert forall|d: ClusterId| #[trigger]
                    map@.contains_key(d) <==> exists|k: int|
                        0 <= k < i + 1 && (#[trigger] sc[k]).cluster_id == d by {
                    if d == c {
                        assert(sc[i as int].cluster_id == d);
                    }
                    if exists|k: int| 0 <= k < i + 1 && (#[trigger] sc[k]).cluster_id == d {
                        let k = choose|k: int| 0 <= k < i + 1 && (#[trigger] sc[k]).cluster_id == d;
                        if k < i {
                            assert(old_map.contains_key(d));
                        }
                    }
                }
                assert forall|k: int|
                    0 <= k < i + 1 && (forall|j: int|
                        k < j < i + 1 ==> (#[trigger] sc[j]).cluster_id != sc[k].cluster_id)
                        implies loaded_from(
                    map@[(#[trigger] sc[k]).cluster_id],
                    sc[k],
                    labels.labeled(sc[k].cluster_id),
                ) by {
                    if k < i {
                        assert(sc[i as int].cluster_id != sc[k].cluster_id);
                        assert(forall|j: int|
                            k < j < i ==> (#[trigger] sc[j]).cluster_id != sc[k].cluster_id);
                    }
                }
            }
            i = i + 1;
        }
        let ghost sorted_ids = clusters@;
        let outliers = saved.outliers;
        if outliers.len() > 0 {
            let event_ids = outlier_event_ids(&outliers, delimiter);
            let member = Members {
                id: CLUSTER_ID_FOR_OUTLIERS,
                size: outliers.len(),
                score_bits: 0,
                qualifier: Qualifier::Unknown,
                new_qualifier: Qualifier::Unknown,
                signature: None,
                event_ids,
                filtered_events: Vec::new(),
                filter: Vec::new(),
            };
            map.insert(CLUSTER_ID_FOR_OUTLIERS, member);
            if !crate::sorted::contains_id(&clusters, CLUSTER_ID_FOR_OUTLIERS) {
                clusters.push(CLUSTER_ID_FOR_OUTLIERS);
            }
        }
        let r = Clusters {
            clusters,
            outliers,
            clusters_map: map,
            tokens_clusters: TokenIndex::new(),
        };
        proof {
            assert(strictly_sorted(sorted_ids));
            assert(sorted_ids.no_duplicates());
            assert forall|c: ClusterId| #[trigger]
                r.clusters_map@.contains_key(c) <==> r.clusters@.contains(c) by {
                if c == CLUSTER_ID_FOR_OUTLIERS && r.outliers@.len() > 0 {
                    if !sorted_ids.contains(c) {
                        assert(r.clusters@[r.clusters@.len() - 1] == c);
                    }
                } else if r.outliers@.len() > 0 && !sorted_ids.contains(CLUSTER_ID_FOR_OUTLIERS) {
                    if r.clusters@.contains(c) {
                        let k = choose|k: int| 0 <= k < r.clusters@.len() && r.clusters@[k] == c;
                        assert(sorted_ids[k] == c);
                    }
                    if sorted_ids.contains(c) {
                        let k = choose|k: int| 0 <= k < sorted_ids.len() && sorted_ids[k] == c;
                        assert(r.clusters@[k] == c);
                    }
                }
            }
            if r.outliers@.len() > 0 && !sorted_ids.contains(CLUSTER_ID_FOR_OUTLIERS) {
                assert forall|a: int, b: int|
                    0 <= a < b < r.clusters@.len() implies r.clusters@[a] != r.clusters@[b] by {
                    if b == r.clusters@.len() - 1 {
                        assert(sorted_ids[a] == r.clusters@[a]);
                    }
                }
            }
        }
        r
    }

    /// Every event id of every cluster, cluster by cluster in list order.
    pub fn event_ids(&self) -> (r: Vec<String>)
        requires
            self.wf(),
        ensures
            forall|id: Seq<char>|
                string_views(r@).contains(id) <==> exists|c: ClusterId|
                    #[trigger] self.members().contains_key(c) && string_views(
                        self.members()[c].event_ids@,
                    ).contains(id),
    {
        let mut r: Vec<String> = Vec::new();
        let mut i: usize = 0;
        while i < self.clusters.len()
            invariant
                self.wf(),
                i <= self.clusters@.len(),
                forall|id: Seq<char>|
                    string_views(r@).contains(id) <==> exists|k: int|
                        0 <= k < i && string_views(
                            self.clusters_map@[(#[trigger] self.clusters@[k])].event_ids@,
                        ).contains(id),
            decreases self.clusters@.len() - i,
        {
            let c = self.clusters[i];
            assert(self.clusters@.contains(c));
            let m = self.clusters_map.get(&c).unwrap();
            assert(*m == self.clusters_map@[c]);
            assert(self.clusters@[i as int] == c);
            let mut more = copy_strings(&m.event_ids);
            let ghost before = r@;
            let ghost added = more@;
            r.append(&mut more);
            proof {
                assert(string_views(r@) =~= string_views(before) + string_views(added));
                assert forall|id: Seq<char>|
                    string_views(r@).contains(id) <==> exists|k: int|
                        0 <= k < i + 1 && string_views(
                            self.clusters_map@[(#[trigger] self.clusters@[k])].event_ids@,
                        ).contains(id) by {
                    if string_views(r@).contains(id) {
                        let q = choose|q: int|
                            0 <= q < string_views(r@).len() && string_views(r@)[q] == id;
                        if q >= before.len() {
                            assert(string_views(added)[q - before.len()] == id);
                            assert(string_views(m.event_ids@)[q - before.len()] == id);
                            assert(string_views(
                                self.clusters_map@[self.clusters@[i as int]].event_ids@,
                            ).contains(id));
                        } else {
                            assert(string_views(before)[q] == id);
                            assert(string_views(before).contains(id));
                        }
                    }
                    if exists|k: int|
                        0 <= k < i + 1 && string_views(
                            self.clusters_map@[(#[trigger] self.clusters@[k])].event_ids@,
                        ).contains(id) {
                        let k = choose|k: int|
                            0 <= k < i + 1 && string_views(
                                self.clusters_map@[(#[trigger] self.clusters@[k])].event_ids@,
                            ).contains(id);
                        if k == i {
                            assert(string_views(m.event_ids@).contains(id));
                            let q = choose|q: int|
                                0 <= q < string_views(added).len() && string_views(added)[q]
                                    == id;
                            assert(string_views(r@)[before.len() + q] == id);
                        } else {
                            assert(string_views(before).contains(id));
                            let q = choose|q: int|
                                0 <= q < string_views(before).len() && string_views(before)[q]
                                    == id;
                            assert(string_views(r@)[q] == id);
                        }
                    }
                }
            }
            i = i + 1;
        }
        proof {
            assert forall|id: Seq<char>|
                string_views(r@).contains(id) <==> exists|c: ClusterId|
                    #[trigger] self.members().contains_key(c) && string_views(
                        self.members()[c].event_ids@,
                    ).contains(id) by {
                if string_views(r@).contains(id) {
                    let k = choose|k: int|
                        0 <= k < i && string_views(
                            self.clusters_map@[(#[trigger] self.clusters@[k])].event_ids@,
                        ).contains(id);
                    assert(self.clusters@.contains(self.clusters@[k]));
                    assert(self.members().contains_key(self.clusters@[k]));
                }
                if exists|c: ClusterId|
                    #[trigger] self.members().contains_key(c) && string_views(
                        self.members()[c].event_ids@,
                    ).contains(id) {
                    let c = choose|c: ClusterId|
                        #[trigger] self.members().contains_key(c) && string_views(
                            self.members()[c].event_ids@,
                        ).contains(id);
                    assert(self.clusters@.contains(c));
                    let k = choose|k: int| 0 <= k < self.clusters@.len() && self.clusters@[k] == c;
                    assert(string_views(
                        self.clusters_map@[(#[trigger] self.clusters@[k])].event_ids@,
                    ).contains(id));
                }
            }
        }
        r
    }

    /// The token index: each token with the clusters that hold it.
    pub closed spec fn token_index(&self) -> Seq<(Seq<char>, Seq<ClusterId>)> {
        self.tokens_clusters.view()
    }

    /// Rebuilds the token index from the events: each token maps to the
    /// clusters, sorted and without repeats, with an event that has the token.
    pub fn init_event_tokens(&mut self, events: &Events)
        requires
            old(self).wf(),
        ensures
            final(self).wf(),
            final(self).cluster_list_spec() == old(self).cluster_list_spec(),
            final(self).members() == old(self).members(),
            index_wf(final(self).token_index()),
            forall|a: int|
                0 <= a < final(self).token_index().len() ==> (#[trigger] final(self).token_index()[a]).1.len() > 0,
            forall|t: Seq<char>, c: ClusterId|
                indexed(final(self).token_index(), t, c) <==> #[trigger] cluster_has_token(
                    old(self).members(),
                    events.view(),
                    c,
                    t,
                ),
    {
        let mut index = TokenIndex::new();
        let ghost members = self.clusters_map@;
        let ghost ev = events.view();
        let mut i: usize = 0;
        while i < self.clusters.len()
            invariant
                self.wf(),
                members == self.clusters_map@,
                ev == events.view(),
                i <= self.clusters@.len(),
                index.wf(),
                forall|t: Seq<char>, c: ClusterId|
                    #[trigger] indexed(index.view(), t, c) <==> (cluster_has_token(
                        members,
                        ev,
                        c,
                        t,
                    ) && exists|k: int| 0 <= k < i && #[trigger] self.clusters@[k] == c),
            decreases self.clusters@.len() - i,
        {
            let c = self.clusters[i];
            assert(self.clusters@.contains(c));
            let m = self.clusters_map.get(&c).unwrap();
            assert(*m == members[c]);
            let ghost start = index.view();
            let mut j: usize = 0;
            while j < m.event_ids.len()
                invariant
                    self.wf(),
                        members == self.clusters_map@,
                    ev == events.view(),
                    members.contains_key(c),
                    *m == members[c],
                    j <= m.event_ids@.len(),
                    index.wf(),
                    forall|t: Seq<char>, d: ClusterId|
                        #[trigger] indexed(index.view(), t, d) <==> (indexed(start, t, d) || (
                        d == c && event_prefix_has_token(m.event_ids@, j as int, ev, t))),
                decreases m.event_ids@.len() - j,
            {
                let ghost id = m.event_ids@[j as int]@;
                let ghost mid = index.view();
                match events.tokens(&m.event_ids[j]) {
                    Some(tokens) => {
                        add_event_tokens(&mut index, tokens, c);
                        proof {
                            assert forall|t: Seq<char>, d: ClusterId|
                                #[trigger] indexed(index.view(), t, d) <==> (indexed(
                                    start,
                                    t,
                                    d,
                                ) || (d == c && event_prefix_has_token(
                                    m.event_ids@,
                                    j + 1,
                                    ev,
                                    t,
                                ))) by {
                                lemma_prefix_step(m.event_ids@, j as int, ev, t);
                                assert(indexed(mid, t, d) <==> (indexed(start, t, d) || (d == c
                                    && event_prefix_has_token(m.event_ids@, j as int, ev, t))));
                            }
                        }
                    },
                    None => {
                        proof {
                            assert forall|t: Seq<char>, d: ClusterId|
                                #[trigger] indexed(index.view(), t, d) <==> (indexed(
                                    start,
                                    t,
                                    d,
                                ) || (d == c && event_prefix_has_token(
                                    m.event_ids@,
                                    j + 1,
                                    ev,
                                    t,
                                ))) by {
                                lemma_prefix_step(m.event_ids@, j as int, ev, t);
                            }
                        }
                    },
                }
                j = j + 1;
            }
            proof {
                assert forall|t: Seq<char>, d: ClusterId|
                    #[trigger] indexed(index.view(), t, d) <==> (cluster_has_token(
                        members,
                        ev,
                        d,
                        t,
                    ) && exists|k: int| 0 <= k < i + 1 && #[trigger] self.clusters@[k] == d) by {
                    assert(indexed(start, t, d) <==> (cluster_has_token(members, ev, d, t)
                        && exists|k: int| 0 <= k < i && #[trigger] self.clusters@[k] == d));
                    if d == c {
                        assert(self.clusters@[i as int] == d);
                    } else if exists|k: int| 0 <= k < i + 1 && #[trigger] self.clusters@[k] == d {
                        let k = choose|k: int| 0 <= k < i + 1 && #[trigger] self.clusters@[k] == d;
                        assert(k < i);
                    }
                }
            }
            i = i + 1;
        }
        proof {
            assert forall|t: Seq<char>, c: ClusterId|
                indexed(index.view(), t, c) <==> #[trigger] cluster_has_token(
                    members,
                    ev,
                    c,
                    t,
                ) by {
                if cluster_has_token(members, ev, c, t) {
                    assert(self.clusters@.contains(c));
                    let k = choose|k: int| 0 <= k < self.clusters@.len() && self.clusters@[k] == c;
                    assert(self.clusters@[k] == c);
                }
            }
        }
        self.tokens_clusters = index;
    }

    /// The clusters listed under token `t` in the token index.
    pub fn token_clusters(&self, t: &str) -> (r: Option<Vec<ClusterId>>)
        requires
            self.wf(),
        ensures
            match r {
                Some(v) => exists|a: int|
                    0 <= a < self.token_index().len() && (#[trigger] self.token_index()[a]).0 == t@
                        && self.token_index()[a].1 == v@,
                None => forall|a: int|
                    0 <= a < self.token_index().len() ==> (#[trigger] self.token_index()[a]).0 != t@,
            },
    {
        let r = self.tokens_clusters.get(t);
        proof {
            if r is Some {
                let a = choose|a: int|
                    0 <= a < self.tokens_clusters.view().len() && (
                    #[trigger] self.tokens_clusters.view()[a]).0 == t@
                        && self.tokens_clusters.view()[a].1 == r->0@;
                assert(self.token_index()[a] == self.tokens_clusters.view()[a]);
            }
        }
        r
    }

    /// Number of clusters.
    pub fn len(&self) -> (r: usize)
        ensures
            r == self.cluster_list_spec().len(),
    {
        self.clusters.len()
    }

    /// Number of events of cluster `cluster_id`; zero for an unknown cluster.
    pub fn size(&self, cluster_id: ClusterId) -> (r: usize)
        ensures
            r == if self.members().contains_key(cluster_id) {
                self.members()[cluster_id].size
            } else {
                0
            },
    {
        match self.clusters_map.get(&cluster_id) {
            Some(m) => m.size,
            None => 0,
        }
    }

    /// Whether there is no cluster.
    pub fn is_empty(&self) -> (r: bool)
        ensures
            r == (self.cluster_list_spec().len() == 0),
    {
        self.clusters.len() == 0
    }

    /// The cluster `cluster_id`, if it exists.
    pub fn get(&self, cluster_id: ClusterId) -> (r: Option<&Members>)
        ensures
            match r {
                Some(m) => self.members().contains_key(cluster_id) && *m == self.members()[cluster_id],
                None => !self.members().contains_key(cluster_id),
            },
    {
        self.clusters_map.get(&cluster_id)
    }

    /// Empties the event filter stack of cluster `cluster_id`.
    pub fn clear_filter(&mut self, cluster_id: ClusterId)
        requires
            old(self).wf(),
        ensures
            final(self).wf(),
            final(self).cluster_list_spec() == old(self).cluster_list_spec(),
            final(self).members().dom() == old(self).members().dom(),
            forall|c: ClusterId|
                #[trigger] final(self).members().contains_key(c) && c != cluster_id
                    ==> final(self).members()[c] == old(self).members()[c],
            old(self).members().contains_key(cluster_id) ==> {
                let m = final(self).members()[cluster_id];
                let o = old(self).members()[cluster_id];
                &&& m.filtered_events@.len() == 0
                &&& m.filter@.len() == 0
                &&& m.id == o.id
                &&& m.size == o.size
                &&& m.score_bits == o.score_bits
                &&& m.qualifier == o.qualifier
                &&& m.new_qualifier == o.new_qualifier
                &&& m.signature == o.signature
                &&& m.event_ids == o.event_ids
            },
    {
        match self.clusters_map.remove(&cluster_id) {
            Some(m) => {
                let mut m = m;
                m.filtered_events = Vec::new();
                m.filter = Vec::new();
                self.clusters_map.insert(cluster_id, m);
                proof {
                    assert(self.clusters_map@.dom() =~= old(self).clusters_map@.dom());
                }
            },
            None => {},
        }
    }

    /// The ids of all clusters, in display order.
    pub fn cluster_list(&self) -> (r: &Vec<ClusterId>)
        ensures
            r@ == self.cluster_list_spec(),
    {
        &self.clusters
    }

    /// The clusters of `clusters`, in order, that pass `ft op value`: a count
    /// filter compares the cluster's size with the literal read as an integer
    /// (zero if it is not one); a qualifier filter keeps the clusters whose
    /// pending qualifier the literal names (Unknown if it names none). Other
    /// kinds keep nothing.
    pub fn filter_clusters(
        &self,
        clusters: &[ClusterId],
        ft: FilterType,
        op: FilterOp,
        value: &str,
    ) -> (r: Vec<ClusterId>)
        ensures
            r@ == clusters@.filter(
                |c: ClusterId|
                    self.members().contains_key(c) && passes(self.members()[c], ft, op, value@),
            ),
    {
        let count: usize = match parse_decimal(value, usize::MAX as u64) {
            Some(n) => n as usize,
            None => 0,
        };
        assert(count as nat == count_literal(value@));
        let qualifier = match Qualifier::parse(value) {
            Some(q) => q,
            None => Qualifier::Unknown,
        };
        let ghost pred = |c: ClusterId|
            self.members().contains_key(c) && passes(self.members()[c], ft, op, value@);
        let mut r: Vec<ClusterId> = Vec::new();
        let mut i: usize = 0;
        while i < clusters.len()
            invariant
                i <= clusters@.len(),
                count as nat == count_literal(value@),
                qualifier == qualifier_literal(value@),
                pred == (|c: ClusterId|
                    self.members().contains_key(c) && passes(self.members()[c], ft, op, value@)),
                r@ == clusters@.take(i as int).filter(pred),
            decreases clusters@.len() - i,
        {
            let cid = clusters[i];
            proof {
                assert(clusters@.take(i + 1).drop_last() =~= clusters@.take(i as int));
                reveal(Seq::filter);
            }
            match self.clusters_map.get(&cid) {
                Some(c) => {
                    let matched = match ft {
                        FilterType::Count => op.holds(c.size, count),
                        FilterType::Qualifier => c.new_qualifier == qualifier,
                        _ => false,
                    };
                    if matched {
                        r.push(cid);
                    }
                },
                None => {},
            }
            i = i + 1;
        }
        assert(clusters@.take(i as int) =~= clusters@);
        r
    }

    /// The clusters of `clusters`, in order, with an event whose line matches
    /// `pattern`; fails on a pattern that does not compile.
    pub fn regex_match(&self, clusters: &[ClusterId], pattern: &str, events: &Events) -> (r: Result<
        Vec<ClusterId>,
        regex::Error,
    >)
        ensures
            r is Err <==> !regex_valid(pattern@),
            r matches Ok(v) ==> v@ == clusters@.filter(
                |c: ClusterId|
                    self.members().contains_key(c) && some_event_matches(
                        string_views(self.members()[c].event_ids@),
                        pattern@,
                        events.view(),
                    ),
            ),
    {
        let re = match Pattern::new(pattern) {
            Ok(re) => re,
            Err(e) => {
                return Err(e);
            },
        };
        let ghost pred = |c: ClusterId|
            self.members().contains_key(c) && some_event_matches(
                string_views(self.members()[c].event_ids@),
                pattern@,
                events.view(),
            );
        let mut r: Vec<ClusterId> = Vec::new();
        let mut i: usize = 0;
        while i < clusters.len()
            invariant
                re.view() == pattern@,
                i <= clusters@.len(),
                pred == (|c: ClusterId|
                    self.members().contains_key(c) && some_event_matches(
                        string_views(self.members()[c].event_ids@),
                        pattern@,
                        events.view(),
                    )),
                r@ == clusters@.take(i as int).filter(pred),
            decreases clusters@.len() - i,
        {
            let cid = clusters[i];
            proof {
                assert(clusters@.take(i + 1).drop_last() =~= clusters@.take(i as int));
                reveal(Seq::filter);
            }
            match self.clusters_map.get(&cid) {
                Some(c) => {
                    let hit = events.any_match(&re, &c.event_ids);
                    proof {
                        let ids = string_views(c.event_ids@);
                        if hit {
                            let k = choose|k: int|
                                0 <= k < c.event_ids@.len() && events.view().contains_key(
                                    (#[trigger] c.event_ids@[k])@,
                                ) && regex_matches(re.view(), events.view()[c.event_ids@[k]@].0);
                            assert(ids[k] == c.event_ids@[k]@);
                        } else {
                            assert forall|k: int|
                                0 <= k < ids.len() && events.view().contains_key(
                                    #[trigger] ids[k],
                                ) implies !regex_matches(pattern@, events.view()[ids[k]].0) by {
                                assert(ids[k] == c.event_ids@[k]@);
                            }
                        }
                    }
                    if hit {
                        r.push(cid);
                    }
                },
                None => {},
            }
            i = i + 1;
        }
        assert(clusters@.take(i as int) =~= clusters@);
        Ok(r)
    }

    /// The events of cluster `cluster_id` that `pattern` selects among those it
    /// shows: the ones whose line matches, or with a leading `!` the others.
    /// `None` for an unknown cluster or a bare `!`; fails on a pattern that does
    /// not compile. Nothing is changed: `set_filtered` records the result.
    pub fn regex_match_in_this_cluster(
        &self,
        cluster_id: ClusterId,
        pattern: &str,
        events: &Events,
    ) -> (r: Result<Option<Vec<MessageId>>, regex::Error>)
        ensures
            pattern@ == seq!['!'] ==> r matches Ok(None),
            pattern@ != seq!['!'] ==> (r is Err <==> !regex_valid(inner_pattern(pattern@))),
            pattern@ != seq!['!'] && regex_valid(inner_pattern(pattern@)) ==> (r matches Ok(None)
                <==> !self.members().contains_key(cluster_id)),
            r matches Ok(Some(v)) ==> string_views(v@) == current_events(
                self.members()[cluster_id],
            ).filter(
                |id: Seq<char>|
                    (events.view().contains_key(id) && regex_matches(
                        inner_pattern(pattern@),
                        events.view()[id].0,
                    )) != is_negated(pattern@),
            ),
    {
        let (negate, inner) = split_negation(pattern);
        if negate && inner.unicode_len() == 0 {
            assert(pattern@ =~= seq!['!']);
            return Ok(None);
        }
        proof {
            if pattern@ == seq!['!'] {
                assert(inner@.len() == 0);
            }
        }
        let re = match Pattern::new(inner) {
            Ok(re) => re,
            Err(e) => {
                return Err(e);
            },
        };
        let c = match self.clusters_map.get(&cluster_id) {
            Some(c) => c,
            None => {
                return Ok(None);
            },
        };
        let base: &Vec<MessageId> = if c.filtered_events.len() > 0 {
            &c.filtered_events[c.filtered_events.len() - 1]
        } else {
            &c.event_ids
        };
        let ghost pred = |id: Seq<char>|
            (events.view().contains_key(id) && regex_matches(
                inner_pattern(pattern@),
                events.view()[id].0,
            )) != is_negated(pattern@);
        let mut r: Vec<MessageId> = Vec::new();
        let mut i: usize = 0;
        while i < base.len()
            invariant
                re.view() == inner_pattern(pattern@),
                negate == is_negated(pattern@),
                i <= base@.len(),
                pred == (|id: Seq<char>|
                    (events.view().contains_key(id) && regex_matches(
                        inner_pattern(pattern@),
                        events.view()[id].0,
                    )) != is_negated(pattern@)),
                string_views(r@) == string_views(base@.take(i as int)).filter(pred),
            decreases base@.len() - i,
        {
            let id = &base[i];
            proof {
                assert(string_views(base@.take(i + 1)).drop_last() =~= string_views(
                    base@.take(i as int),
                ));
                assert(string_views(base@.take(i + 1)).last() == id@);
                reveal(Seq::filter);
            }
            let hit = match events.get_message(id) {
                Some(content) => re.matches(content),
                None => false,
            };
            let ghost before = r@;
            if hit != negate {
                r.push(id.clone());
                proof {
                    assert(string_views(r@) =~= string_views(before).push(id@));
                }
            }
            i = i + 1;
        }
        assert(base@.take(i as int) =~= base@);
        Ok(Some(r))
    }

    /// Records `matched` as the innermost event filter of cluster `cluster_id`,
    /// produced by `pattern`.
    pub fn set_filtered(&mut self, cluster_id: ClusterId, matched: Vec<MessageId>, pattern: &str)
        requires
            old(self).wf(),
        ensures
            final(self).wf(),
            final(self).cluster_list_spec() == old(self).cluster_list_spec(),
            final(self).members().dom() == old(self).members().dom(),
            forall|c: ClusterId|
                #[trigger] final(self).members().contains_key(c) && c != cluster_id
                    ==> final(self).members()[c] == old(self).members()[c],
            old(self).members().contains_key(cluster_id) ==> {
                let m = final(self).members()[cluster_id];
                let o = old(self).members()[cluster_id];
                &&& m.filtered_events@ == o.filtered_events@.push(matched)
                &&& string_views(m.filter@) == string_views(o.filter@).push(pattern@)
                &&& m.id == o.id
                &&& m.size == o.size
                &&& m.score_bits == o.score_bits
                &&& m.qualifier == o.qualifier
                &&& m.new_qualifier == o.new_qualifier
                &&& m.signature == o.signature
                &&& m.event_ids == o.event_ids
            },
    {
        match self.clusters_map.remove(&cluster_id) {
            Some(m) => {
                let mut m = m;
                let ghost before = m.filter@;
                m.filter.push(pattern.to_owned());
                m.filtered_events.push(matched);
                proof {
                    assert(string_views(m.filter@) =~= string_views(before).push(pattern@));
                }
                self.clusters_map.insert(cluster_id, m);
                proof {
                    assert(self.clusters_map@.dom() =~= old(self).clusters_map@.dom());
                }
            },
            None => {},
        }
    }

    /// Sets the pending qualifier of cluster `cid`; tells whether it changed.
    pub fn set_qualifier(&mut self, cid: ClusterId, qualifier: Qualifier) -> (r: bool)
        requires
            old(self).wf(),
        ensures
            final(self).wf(),
            final(self).cluster_list_spec() == old(self).cluster_list_spec(),
            r == (old(self).members().contains_key(cid) && old(self).members()[cid].new_qualifier
                != qualifier),
            final(self).members() == if old(self).members().contains_key(cid) {
                old(self).members().insert(
                    cid,
                    (Members { new_qualifier: qualifier, ..old(self).members()[cid] }),
                )
            } else {
                old(self).members()
            },
    {
        match self.clusters_map.remove(&cid) {
            Some(m) => {
                let mut m = m;
                let changed = m.set_qualifier(qualifier);
                self.clusters_map.insert(cid, m);
                proof {
                    assert(self.clusters_map@ =~= old(self).clusters_map@.insert(
                        cid,
                        (Members { new_qualifier: qualifier, ..old(self).clusters_map@[cid] }),
                    ));
                }
                changed
            },
            None => {
                false
            },
        }
    }
}

} // verus!
