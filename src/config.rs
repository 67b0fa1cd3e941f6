use crate::text::str_eq;
use crate::EventType;
use vstd::prelude::*;

verus! {

/// The data type of one column of the event source.
#[derive(Debug, Clone, Copy, PartialEq, Eq, Structural)]
pub enum ColumnType {
    Datetime,
    Enum,
    Float64,
    Int64,
    Ipaddr,
    Utf8,
    Binary,
}

/// One column of the event source.
pub struct ColumnFormat {
    pub data_type: ColumnType,
    /// Whether the column has a positive weight, which makes it a feature
    /// whose text is tokenized.
    pub is_feature: bool,
    pub format: Option<String>,
    pub alias: String,
}

/// The session configuration: where the inputs are and how events are laid out.
pub struct Config {
    pub event_type: EventType,
    pub time_column: usize,
    pub format: Vec<ColumnFormat>,
    pub input_log: String,
    pub input_clusters: String,
    pub input_labels: String,
    pub tidb: String,
    pub key_column: String,
    pub delimiter: char,
}

/// The field delimiter used when the configuration names none.
pub fn default_delimiter() -> (r: char)
    ensures
        r == ',',
{
    ','
}

/// The key column used when the configuration names none.
pub fn default_keycolumn() -> (r: String)
    ensures
        r@ == "uid"@,
{
    "uid".to_owned()
}

/// The positions of the feature columns, in increasing order.
pub open spec fn feature_columns(f: Seq<ColumnFormat>) -> Seq<usize>
    decreases f.len(),
{
    if f.len() == 0 {
        Seq::empty()
    } else if f.last().is_feature {
        feature_columns(f.drop_last()).push((f.len() - 1) as usize)
    } else {
        feature_columns(f.drop_last())
    }
}

/// The position of the first column whose alias is `key`, if any.
pub open spec fn key_position(f: Seq<ColumnFormat>, key: Seq<char>) -> Option<usize>
    decreases f.len(),
{
    if f.len() == 0 {
        None
    } else {
        match key_position(f.drop_last(), key) {
            Some(i) => Some(i),
            None => if f.last().alias@ == key {
                Some((f.len() - 1) as usize)
            } else {
                None
            },
        }
    }
}

impl Config {
    pub fn event_type(&self) -> (r: EventType)
        ensures
            r == self.event_type,
    {
        self.event_type
    }

    pub fn clusters(&self) -> (r: &str)
        ensures
            r@ == self.input_clusters@,
    {
        self.input_clusters.as_str()
    }

    /// Number of columns of an event record.
    pub fn column_len(&self) -> (r: usize)
        ensures
            r == self.format@.len(),
    {
        self.format.len()
    }

    pub fn delimiter(&self) -> (r: char)
        ensures
            r == self.delimiter,
    {
        self.delimiter
    }

    pub fn events(&self) -> (r: &str)
        ensures
            r@ == self.input_log@,
    {
        self.input_log.as_str()
    }

    /// The positions of the columns whose text is tokenized.
    pub fn features(&self) -> (r: Vec<usize>)
        ensures
            r@ == feature_columns(self.format@),
    {
        let mut r: Vec<usize> = Vec::new();
        let mut i: usize = 0;
        while i < self.format.len()
            invariant
                i <= self.format@.len(),
                r@ == feature_columns(self.format@.take(i as int)),
            decreases self.format@.len() - i,
        {
            proof {
                assert(self.format@.take(i + 1).drop_last() =~= self.format@.take(i as int));
            }
            if self.format[i].is_feature {
                r.push(i);
            }
            i = i + 1;
        }
        assert(self.format@.take(i as int) =~= self.format@);
        r
    }

    /// The position of the key column.
    pub fn key_field(&self) -> (r: Option<usize>)
        ensures
            r == key_position(self.format@, self.key_column@),
    {
        let mut i: usize = 0;
        while i < self.format.len()
            invariant
                i <= self.format@.len(),
                key_position(self.format@.take(i as int), self.key_column@) is None,
            decreases self.format@.len() - i,
        {
            proof {
                assert(self.format@.take(i + 1).drop_last() =~= self.format@.take(i as int));
            }
            if str_eq(self.format[i].alias.as_str(), self.key_column.as_str()) {
                proof {
                    lemma_key_position_extends(self.format@, i + 1, self.key_column@);
                }
                return Some(i);
            }
            i = i + 1;
        }
        assert(self.format@.take(i as int) =~= self.format@);
        None
    }

    /// The timestamp format of the time column, where that column is a date.
    pub open spec fn time_format_spec(&self) -> Option<Seq<char>> {
        if self.time_column < self.format@.len() && self.format@[self.time_column as int].data_type
            == ColumnType::Datetime {
            match self.format@[self.time_column as int].format {
                Some(f) => Some(f@),
                None => None,
            }
        } else {
            None
        }
    }

    /// The timestamp format of the time column, where that column is a date.
    pub fn time_format(&self) -> (r: Option<&str>)
        ensures
            match r {
                Some(s) => self.time_format_spec() == Some(s@),
                None => self.time_format_spec() is None,
            },
    {
        if self.time_column < self.format.len() {
            let c = &self.format[self.time_column];
            if c.data_type == ColumnType::Datetime {
                match &c.format {
                    Some(f) => Some(f.as_str()),
                    None => None,
                }
            } else {
                None
            }
        } else {
            None
        }
    }

    pub fn labels(&self) -> (r: &str)
        ensures
            r@ == self.input_labels@,
    {
        self.input_labels.as_str()
    }

    pub fn tidb(&self) -> (r: &str)
        ensures
            r@ == self.tidb@,
    {
        self.tidb.as_str()
    }
}

proof fn lemma_key_position_extends(f: Seq<ColumnFormat>, n: int, key: Seq<char>)
    requires
        0 <= n <= f.len(),
        key_position(f.take(n), key) is Some,
    ensures
        key_position(f, key) == key_position(f.take(n), key),
    decreases f.len() - n,
{
    if n < f.len() {
        assert(f.take(n + 1).drop_last() =~= f.take(n));
        lemma_key_position_extends(f, n + 1, key);
    } else {
        assert(f.take(n) =~= f);
    }
}

} // verus!
