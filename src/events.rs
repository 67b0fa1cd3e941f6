use crate::config::{feature_columns, key_position, Config};
use crate::parser::{tokenize, tokens_of};
use crate::pattern::{regex_matches, Pattern};
use crate::keyindex::{find_key, KeyIndex};
use crate::text::{split_fields, split_on, string_of, string_views};
use crate::MessageId;
use vstd::prelude::*;

verus! {

/// One event record: its id, its raw line and the tokens of its feature fields.
pub struct Message {
    pub id: MessageId,
    pub content: String,
    pub tokens: Vec<String>,
}

/// What the store keeps of an event: its raw line and its tokens.
pub type EventEntry = (Seq<char>, Seq<Seq<char>>);

pub open spec fn entry_of(m: Message) -> EventEntry {
    (m.content@, string_views(m.tokens@))
}

/// The events of `ms` by id.
pub open spec fn map_of(ms: Seq<Message>) -> Map<Seq<char>, EventEntry>
    decreases ms.len(),
{
    if ms.len() == 0 {
        Map::empty()
    } else {
        map_of(ms.drop_last()).insert(ms.last().id@, entry_of(ms.last()))
    }
}

pub open spec fn ids_unique(ms: Seq<Message>) -> bool {
    forall|i: int, j: int| 0 <= i < j < ms.len() ==> ms[i].id@ != ms[j].id@
}

/// The tokens of the feature fields of a record, field after field.
pub open spec fn record_tokens(fields: Seq<Seq<char>>, features: Seq<usize>) -> Seq<Seq<char>>
    decreases features.len(),
{
    if features.len() == 0 {
        Seq::empty()
    } else {
        let f = features.last() as int;
        record_tokens(fields, features.drop_last()) + if f < fields.len() {
            tokens_of(fields[f])
        } else {
            Seq::empty()
        }
    }
}

/// The layout of the event lines.
pub struct Schema {
    pub delimiter: char,
    pub column_len: usize,
    pub key_idx: usize,
    pub features: Seq<usize>,
}

/// Whether a record is kept: it has exactly the schema's columns and its key
/// is one of `ids`.
pub open spec fn accepts(fields: Seq<Seq<char>>, s: Schema, ids: Set<Seq<char>>) -> bool {
    fields.len() == s.column_len && s.key_idx < fields.len() && ids.contains(fields[s.key_idx as int])
}

/// The events that `lines` give, by id; a later line with the same id
/// replaces an earlier one.
pub open spec fn load(lines: Seq<Seq<char>>, s: Schema, ids: Set<Seq<char>>) -> Map<
    Seq<char>,
    EventEntry,
>
    decreases lines.len(),
{
    if lines.len() == 0 {
        Map::empty()
    } else {
        let m = load(lines.drop_last(), s, ids);
        let f = split_on(lines.last(), s.delimiter);
        if accepts(f, s, ids) {
            m.insert(f[s.key_idx as int], (lines.last(), record_tokens(f, s.features)))
        } else {
            m
        }
    }
}

/// Number of lines without exactly the schema's columns.
pub open spec fn count_skipped(lines: Seq<Seq<char>>, s: Schema) -> nat
    decreases lines.len(),
{
    if lines.len() == 0 {
        0
    } else {
        let f = split_on(lines.last(), s.delimiter);
        count_skipped(lines.drop_last(), s) + if f.len() == s.column_len && s.key_idx < f.len() {
            0nat
        } else {
            1nat
        }
    }
}

/// Number of lines with the schema's columns whose key is not one of `ids`.
pub open spec fn count_not_found(lines: Seq<Seq<char>>, s: Schema, ids: Set<Seq<char>>) -> nat
    decreases lines.len(),
{
    if lines.len() == 0 {
        0
    } else {
        let f = split_on(lines.last(), s.delimiter);
        count_not_found(lines.drop_last(), s, ids) + if f.len() == s.column_len && s.key_idx
            < f.len() && !ids.contains(f[s.key_idx as int]) {
            1nat
        } else {
            0nat
        }
    }
}

/// The schema that a configuration with key column `key_idx` describes.
pub open spec fn schema_of(cfg: &Config, key_idx: usize) -> Schema {
    Schema {
        delimiter: cfg.delimiter,
        column_len: cfg.format@.len() as usize,
        key_idx,
        features: feature_columns(cfg.format@),
    }
}

/// Why the events could not be loaded.
#[derive(Debug, Clone, Copy, PartialEq, Eq, Structural)]
pub enum EventsError {
    /// No column has the alias of the key column.
    KeyFieldMissing,
}

/// The event store: the events of the clusters, by id.
pub struct Events {
    events: Vec<Message>,
    ids: Vec<MessageId>,
    index: KeyIndex,
    skipped: usize,
    not_found: usize,
}

/// `ids` lists the ids of `ms` in order, and `index` groups them.
pub open spec fn ids_indexed(ms: Seq<Message>, ids: Seq<MessageId>, index: KeyIndex) -> bool {
    &&& ids_unique(ms)
    &&& ids.len() == ms.len()
    &&& forall|i: int| 0 <= i < ms.len() ==> (#[trigger] ids[i])@ == ms[i].id@
    &&& index.indexes(string_views(ids))
}

/// The position of the event with id `id`, if any.
fn locate(ms: &Vec<Message>, ids: &Vec<MessageId>, index: &KeyIndex, id: &str) -> (r: Option<usize>)
    requires
        ids_indexed(ms@, ids@, *index),
    ensures
        match r {
            Some(k) => k < ms@.len() && ms@[k as int].id@ == id@,
            None => forall|k: int| 0 <= k < ms@.len() ==> (#[trigger] ms@[k]).id@ != id@,
        },
{
    let r = find_key(index, ids, id);
    proof {
        if r is None {
            assert forall|k: int| 0 <= k < ms@.len() implies (#[trigger] ms@[k]).id@ != id@ by {
                assert(ids@[k]@ == ms@[k].id@);
            }
        }
    }
    r
}

proof fn lemma_map_of_lookup(ms: Seq<Message>, i: int)
    requires
        ids_unique(ms),
        0 <= i < ms.len(),
    ensures
        map_of(ms).contains_key(ms[i].id@),
        map_of(ms)[ms[i].id@] == entry_of(ms[i]),
    decreases ms.len(),
{
    if i < ms.len() - 1 {
        assert(ms.drop_last()[i] == ms[i]);
        lemma_map_of_lookup(ms.drop_last(), i);
    }
}

proof fn lemma_map_of_domain(ms: Seq<Message>, id: Seq<char>)
    ensures
        map_of(ms).contains_key(id) <==> exists|i: int| 0 <= i < ms.len() && (#[trigger] ms[i]).id@ == id,
    decreases ms.len(),
{
    if ms.len() > 0 {
        lemma_map_of_domain(ms.drop_last(), id);
        if map_of(ms).contains_key(id) {
            if id == ms.last().id@ {
                assert(ms[ms.len() - 1].id@ == id);
            } else {
                let i = choose|i: int|
                    0 <= i < ms.drop_last().len() && (#[trigger] ms.drop_last()[i]).id@ == id;
                assert(ms[i] == ms.drop_last()[i]);
            }
        }
        if exists|i: int| 0 <= i < ms.len() && (#[trigger] ms[i]).id@ == id {
            let i = choose|i: int| 0 <= i < ms.len() && (#[trigger] ms[i]).id@ == id;
            if i < ms.len() - 1 {
                assert(ms.drop_last()[i] == ms[i]);
            }
        }
    }
}

proof fn lemma_map_of_push(ms: Seq<Message>, m: Message)
    ensures
        map_of(ms.push(m)) == map_of(ms).insert(m.id@, entry_of(m)),
{
    assert(ms.push(m).drop_last() =~= ms);
}

proof fn lemma_map_of_update(ms: Seq<Message>, i: int, m: Message)
    requires
        ids_unique(ms),
        0 <= i < ms.len(),
        ms[i].id@ == m.id@,
    ensures
        map_of(ms.update(i, m)) == map_of(ms).insert(m.id@, entry_of(m)),
        ids_unique(ms.update(i, m)),
    decreases ms.len(),
{
    let ms2 = ms.update(i, m);
    if i == ms.len() - 1 {
        assert(ms2.drop_last() =~= ms.drop_last());
        assert(map_of(ms2) =~= map_of(ms).insert(m.id@, entry_of(m)));
    } else {
        assert(ms2.drop_last() =~= ms.drop_last().update(i, m));
        lemma_map_of_update(ms.drop_last(), i, m);
        assert(ms.last().id@ != m.id@);
        assert(map_of(ms2) =~= map_of(ms).insert(m.id@, entry_of(m)));
    }
}

impl Events {
    /// The events by id.
    pub closed spec fn view(&self) -> Map<Seq<char>, EventEntry> {
        map_of(self.events@)
    }

    #[verifier::type_invariant]
    spec fn wf(&self) -> bool {
        ids_indexed(self.events@, self.ids@, self.index)
    }

    /// Loads the events of `lines` whose key is among `event_ids`, tokenizing
    /// their feature fields. A line with the wrong number of columns, or whose
    /// key is not asked for, is skipped and counted. Fails where the key column
    /// is not among the columns.
    pub fn new(cfg: &Config, lines: Vec<String>, event_ids: Vec<MessageId>) -> (r: Result<
        Self,
        EventsError,
    >)
        ensures
            r is Err <==> key_position(cfg.format@, cfg.key_column@) is None,
            r matches Ok(e) ==> {
                let s = schema_of(cfg, key_position(cfg.format@, cfg.key_column@)->0);
                let ids = string_views(event_ids@).to_set();
                &&& e.view() == load(string_views(lines@), s, ids)
                &&& e.skipped_count() == count_skipped(string_views(lines@), s)
                &&& e.not_found_count() == count_not_found(string_views(lines@), s, ids)
            },
    {
        let key_idx = match cfg.key_field() {
            Some(k) => k,
            None => {
                return Err(EventsError::KeyFieldMissing);
            },
        };
        let features = cfg.features();
        let column_len = cfg.column_len();
        let delimiter = cfg.delimiter();
        let ghost schema = schema_of(cfg, key_idx);
        let ghost ids = string_views(event_ids@).to_set();
        let ghost lv = string_views(lines@);
        let mut wanted = KeyIndex::new();
        let mut w: usize = 0;
        assert(string_views(event_ids@.take(0)) =~= Seq::<Seq<char>>::empty());
        while w < event_ids.len()
            invariant
                w <= event_ids@.len(),
                wanted.indexes(string_views(event_ids@.take(w as int))),
            decreases event_ids@.len() - w,
        {
            proof {
                assert(string_views(event_ids@.take(w + 1)) =~= string_views(
                    event_ids@.take(w as int),
                ).push(event_ids@[w as int]@));
            }
            wanted.add(Ghost(string_views(event_ids@.take(w as int))), event_ids[w].as_str(), w);
            w = w + 1;
        }
        assert(event_ids@.take(w as int) =~= event_ids@);
        let mut events: Vec<Message> = Vec::new();
        let mut known: Vec<MessageId> = Vec::new();
        let mut index = KeyIndex::new();
        assert(string_views(known@) =~= Seq::<Seq<char>>::empty());
        let mut skipped: usize = 0;
        let mut not_found: usize = 0;
        let mut i: usize = 0;
        let n = lines.len();
        while i < n
            invariant
                n == lines@.len(),
                i <= n,
                lv == string_views(lines@),
                schema == schema_of(cfg, key_idx),
                schema.key_idx == key_idx,
                schema.column_len == column_len,
                schema.delimiter == delimiter,
                schema.features == features@,
                ids == string_views(event_ids@).to_set(),
                wanted.indexes(string_views(event_ids@)),
                ids_indexed(events@, known@, index),
                map_of(events@) == load(lv.take(i as int), schema, ids),
                skipped == count_skipped(lv.take(i as int), schema),
                not_found == count_not_found(lv.take(i as int), schema, ids),
                skipped <= i,
                not_found <= i,
            decreases n - i,
        {
            let line = lines[i].clone();
            let ghost lview = lines@[i as int]@;
            assert(line@ == lview);
            let fields = split_fields(line.as_str(), delimiter);
            let ghost fv = fields@.map_values(|f: Vec<char>| f@);
            proof {
                assert(lv.take(i + 1).drop_last() =~= lv.take(i as int));
                assert(lv.take(i + 1).last() == lview);
            }
            if fields.len() != column_len || key_idx >= fields.len() {
                skipped = skipped + 1;
            } else {
                let key = string_of(fields[key_idx].as_slice());
                let asked = find_key(&wanted, &event_ids, key.as_str());
                proof {
                    let ev = string_views(event_ids@);
                    if asked is Some {
                        assert(ev[asked->0 as int] == key@);
                        assert(ev.contains(key@));
                    } else if ev.contains(key@) {
                        let q = choose|q: int| 0 <= q < ev.len() && ev[q] == key@;
                        assert(event_ids@[q]@ == key@);
                    }
                }
                if asked.is_none() {
                    not_found = not_found + 1;
                } else {
                    let tokens = feature_tokens(&fields, &features);
                    let msg = Message { id: key, content: line, tokens };
                    let ghost before = events@;
                    let ghost before_known = known@;
                    match locate(&events, &known, &index, msg.id.as_str()) {
                        Some(k) => {
                            proof {
                                lemma_map_of_update(before, k as int, msg);
                            }
                            events.set(k, msg);
                            proof {
                                assert forall|a: int| 0 <= a < events@.len() implies (
                                #[trigger] known@[a])@ == events@[a].id@ by {
                                    if a != k {
                                        assert(events@[a] == before[a]);
                                    }
                                }
                            }
                        },
                        None => {
                            proof {
                                lemma_map_of_push(before, msg);
                                assert forall|a: int, b: int|
                                    0 <= a < b < before.len() + 1 implies before.push(
                                    msg,
                                )[a].id@ != before.push(msg)[b].id@ by {
                                    if b == before.len() {
                                        assert(before[a].id@ != msg.id@);
                                    }
                                }
                            }
                            let id_copy = msg.id.clone();
                            index.add(Ghost(string_views(known@)), id_copy.as_str(), known.len());
                            known.push(id_copy);
                            events.push(msg);
                            proof {
                                assert(string_views(known@) =~= string_views(before_known).push(
                                    msg.id@,
                                ));
                                assert forall|a: int| 0 <= a < events@.len() implies (
                                #[trigger] known@[a])@ == events@[a].id@ by {
                                    if a < before.len() {
                                        assert(known@[a] == before_known[a]);
                                        assert(events@[a] == before[a]);
                                    }
                                }
                            }
                        },
                    }
                }
            }
            i = i + 1;
        }
        proof {
            assert(lv.take(n as int) =~= lv);
        }
        Ok(Events { events, ids: known, index, skipped, not_found })
    }

    /// Whether the store holds no event.
    pub fn is_empty(&self) -> (r: bool)
        ensures
            r == (self.view().dom().len() == 0),
    {
        proof {
            use_type_invariant(self);
        }
        proof {
            lemma_map_of_size(self.events@);
        }
        self.events.len() == 0
    }

    /// Number of events held.
    pub fn len(&self) -> (r: usize)
        ensures
            r == self.view().dom().len(),
    {
        proof {
            use_type_invariant(self);
        }
        proof {
            lemma_map_of_size(self.events@);
        }
        self.events.len()
    }

    /// Number of lines skipped at load for having the wrong number of columns.
    pub closed spec fn skipped_count(&self) -> nat {
        self.skipped as nat
    }

    /// Number of lines skipped at load for a key that was not asked for.
    pub closed spec fn not_found_count(&self) -> nat {
        self.not_found as nat
    }

    /// Number of lines skipped at load for having the wrong number of columns.
    pub fn skipped(&self) -> (r: usize)
        ensures
            r == self.skipped_count(),
    {
        self.skipped
    }

    /// Number of lines skipped at load for a key that was not asked for.
    pub fn not_found(&self) -> (r: usize)
        ensures
            r == self.not_found_count(),
    {
        self.not_found
    }

    /// The tokens of event `message_id`, if it is held.
    pub fn tokens(&self, message_id: &MessageId) -> (r: Option<&Vec<String>>)
        ensures
            r is Some <==> self.view().contains_key(message_id@),
            r matches Some(t) ==> string_views(t@) == self.view()[message_id@].1,
    {
        proof {
            use_type_invariant(self);
        }
        proof {
            lemma_map_of_domain(self.events@, message_id@);
        }
        match locate(&self.events, &self.ids, &self.index, message_id.as_str()) {
            Some(k) => {
                proof {
                    lemma_map_of_lookup(self.events@, k as int);
                }
                Some(&self.events[k].tokens)
            },
            None => None,
        }
    }

    /// The raw line of event `message_id`, if it is held.
    pub fn get_message(&self, message_id: &MessageId) -> (r: Option<&str>)
        ensures
            r is Some <==> self.view().contains_key(message_id@),
            r matches Some(t) ==> t@ == self.view()[message_id@].0,
    {
        proof {
            use_type_invariant(self);
        }
        proof {
            lemma_map_of_domain(self.events@, message_id@);
        }
        match locate(&self.events, &self.ids, &self.index, message_id.as_str()) {
            Some(k) => {
                proof {
                    lemma_map_of_lookup(self.events@, k as int);
                }
                Some(self.events[k].content.as_str())
            },
            None => None,
        }
    }

    /// Whether `re` matches the line of some held event of `event_ids`.
    pub fn any_match(&self, re: &Pattern, event_ids: &Vec<MessageId>) -> (r: bool)
        ensures
            r == exists|k: int|
                0 <= k < event_ids@.len() && self.view().contains_key(
                    (#[trigger] event_ids@[k])@,
                ) && regex_matches(re.view(), self.view()[event_ids@[k]@].0),
    {
        proof {
            use_type_invariant(self);
        }
        let mut i: usize = 0;
        while i < event_ids.len()
            invariant
                i <= event_ids@.len(),
                forall|k: int|
                    0 <= k < i ==> !(self.view().contains_key((#[trigger] event_ids@[k])@)
                        && regex_matches(re.view(), self.view()[event_ids@[k]@].0)),
            decreases event_ids@.len() - i,
        {
            match self.get_message(&event_ids[i]) {
                Some(content) => {
                    if re.matches(content) {
                        return true;
                    }
                },
                None => {},
            }
            i = i + 1;
        }
        false
    }

    /// The ids of `event_ids`, in order, of held events whose line `re` matches.
    pub fn regex_match(&self, re: &Pattern, event_ids: &[MessageId]) -> (r: Vec<String>)
        ensures
            string_views(r@) == string_views(event_ids@).filter(
                |id: Seq<char>|
                    self.view().contains_key(id) && regex_matches(re.view(), self.view()[id].0),
            ),
    {
        proof {
            use_type_invariant(self);
        }
        let ghost pred = |id: Seq<char>|
            self.view().contains_key(id) && regex_matches(re.view(), self.view()[id].0);
        let mut r: Vec<String> = Vec::new();
        let mut i: usize = 0;
        while i < event_ids.len()
            invariant
                i <= event_ids@.len(),
                pred == (|id: Seq<char>|
                    self.view().contains_key(id) && regex_matches(re.view(), self.view()[id].0)),
                string_views(r@) == string_views(event_ids@.take(i as int)).filter(pred),
            decreases event_ids@.len() - i,
        {
            let id = &event_ids[i];
            proof {
                assert(string_views(event_ids@.take(i + 1)) =~= string_views(
                    event_ids@.take(i as int),
                ).push(id@));
                reveal(Seq::filter);
                assert(string_views(event_ids@.take(i + 1)).drop_last() =~= string_views(
                    event_ids@.take(i as int),
                ));
            }
            let ghost before = r@;
            match self.get_message(id) {
                Some(content) => {
                    if re.matches(content) {
                        r.push(id.clone());
                        proof {
                            assert(string_views(r@) =~= string_views(before).push(id@));
                        }
                    }
                },
                None => {},
            }
            i = i + 1;
        }
        proof {
            assert(event_ids@.take(i as int) =~= event_ids@);
        }
        r
    }
}

proof fn lemma_map_of_size(ms: Seq<Message>)
    requires
        ids_unique(ms),
    ensures
        map_of(ms).dom().len() == ms.len(),
        map_of(ms).dom().finite(),
    decreases ms.len(),
{
    if ms.len() > 0 {
        let p = ms.drop_last();
        assert(ids_unique(p));
        lemma_map_of_size(p);
        lemma_map_of_domain(p, ms.last().id@);
        if map_of(p).contains_key(ms.last().id@) {
            let i = choose|i: int| 0 <= i < p.len() && (#[trigger] p[i]).id@ == ms.last().id@;
            assert(ms[i] == p[i]);
        }
        assert(map_of(ms).dom() =~= map_of(p).dom().insert(ms.last().id@));
    }
}

/// The tokens of the feature fields of a record, field after field.
fn feature_tokens(fields: &Vec<Vec<char>>, features: &Vec<usize>) -> (r: Vec<String>)
    ensures
        string_views(r@) == record_tokens(fields@.map_values(|f: Vec<char>| f@), features@),
{
    let ghost fv = fields@.map_values(|f: Vec<char>| f@);
    let mut r: Vec<String> = Vec::new();
    let mut i: usize = 0;
    while i < features.len()
        invariant
            i <= features@.len(),
            fv == fields@.map_values(|f: Vec<char>| f@),
            string_views(r@) == record_tokens(fv, features@.take(i as int)),
        decreases features@.len() - i,
    {
        let f = features[i];
        proof {
            assert(features@.take(i + 1).drop_last() =~= features@.take(i as int));
            assert(features@.take(i + 1).last() == f);
        }
        if f < fields.len() {
            let mut ts = tokenize(&fields[f]);
            let ghost before = r@;
            let ghost tv = ts@;
            r.append(&mut ts);
            proof {
                assert(string_views(r@) =~= string_views(before) + string_views(tv));
                assert(fv[f as int] == fields@[f as int]@);
                assert(string_views(r@) =~= record_tokens(fv, features@.take(i + 1)));
            }
        } else {
            proof {
                assert(string_views(r@) =~= record_tokens(fv, features@.take(i + 1)));
            }
        }
        i = i + 1;
    }
    assert(features@.take(i as int) =~= features@);
    r
}

} // verus!
