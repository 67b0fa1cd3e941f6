//! Triage of precomputed clusters of log events: the stores of clusters,
//! events, labels and rule catalogs, the token extraction that indexes them,
//! and the navigation engine with its stack of filter layers.

pub mod cli;
pub mod cluster;
pub mod config;
pub mod events;
pub mod keyindex;
pub mod labels;
pub mod matcher;
pub mod parser;
pub mod pattern;
pub mod sorted;
pub mod text;
pub mod tidb;

use crate::text::str_eq;
use vstd::prelude::*;

verus! {

/// Identifier of a cluster.
pub type ClusterId = usize;

/// Identifier of a rule catalog.
pub type TidbId = u32;

/// Identifier of a rule within a catalog.
pub type RuleId = u32;

/// A rule of a catalog: (catalog id, rule id).
pub type PatternId = (TidbId, RuleId);

/// Identifier of one event record.
pub type MessageId = String;

/// The kind of data source that the events come from.
#[derive(Debug, Clone, Copy, PartialEq, Eq, Structural)]
pub enum EventType {
    Csv,
    Log,
    Packet,
}

impl Default for EventType {
    fn default() -> (r: Self)
        ensures
            r == EventType::Csv,
    {
        EventType::Csv
    }
}

pub open spec fn event_type_name(t: EventType) -> Seq<char> {
    match t {
        EventType::Csv => "csv"@,
        EventType::Log => "log"@,
        EventType::Packet => "packet"@,
    }
}

pub open spec fn parse_event_type(s: Seq<char>) -> Option<EventType> {
    if s == "csv"@ {
        Some(EventType::Csv)
    } else if s == "log"@ {
        Some(EventType::Log)
    } else if s == "packet"@ {
        Some(EventType::Packet)
    } else {
        None
    }
}

impl EventType {
    /// The lower-case name of the kind.
    pub fn name(&self) -> (r: String)
        ensures
            r@ == event_type_name(*self),
    {
        match self {
            EventType::Csv => "csv".to_owned(),
            EventType::Log => "log".to_owned(),
            EventType::Packet => "packet".to_owned(),
        }
    }

    /// The kind named by `s`, if any.
    pub fn parse(s: &str) -> (r: Option<EventType>)
        ensures
            r == parse_event_type(s@),
    {
        if str_eq(s, "csv") {
            Some(EventType::Csv)
        } else if str_eq(s, "log") {
            Some(EventType::Log)
        } else if str_eq(s, "packet") {
            Some(EventType::Packet)
        } else {
            None
        }
    }
}

/// The triage verdict on a cluster, in display order.
#[derive(Debug, Clone, Copy, PartialEq, Eq, Structural, Hash, PartialOrd, Ord)]
pub enum Qualifier {
    Benign,
    Unknown,
    Suspicious,
    Mixed,
}

/// Number of qualifiers.
pub const MAX_QUALIFIERS: usize = 4;

impl Default for Qualifier {
    fn default() -> (r: Self)
        ensures
            r == Qualifier::Unknown,
    {
        Qualifier::Unknown
    }
}

/// Position of a qualifier in display order.
pub open spec fn qualifier_rank(q: Qualifier) -> nat {
    match q {
        Qualifier::Benign => 0,
        Qualifier::Unknown => 1,
        Qualifier::Suspicious => 2,
        Qualifier::Mixed => 3,
    }
}

pub open spec fn qualifier_name(q: Qualifier) -> Seq<char> {
    match q {
        Qualifier::Benign => "benign"@,
        Qualifier::Unknown => "unknown"@,
        Qualifier::Suspicious => "suspicious"@,
        Qualifier::Mixed => "mixed"@,
    }
}

pub open spec fn parse_qualifier(s: Seq<char>) -> Option<Qualifier> {
    if s == "benign"@ {
        Some(Qualifier::Benign)
    } else if s == "suspicious"@ {
        Some(Qualifier::Suspicious)
    } else if s == "unknown"@ {
        Some(Qualifier::Unknown)
    } else if s == "mixed"@ {
        Some(Qualifier::Mixed)
    } else {
        None
    }
}

impl Qualifier {
    /// The lower-case name of the qualifier.
    pub fn name(&self) -> (r: String)
        ensures
            r@ == qualifier_name(*self),
    {
        match self {
            Qualifier::Benign => "benign".to_owned(),
            Qualifier::Unknown => "unknown".to_owned(),
            Qualifier::Suspicious => "suspicious".to_owned(),
            Qualifier::Mixed => "mixed".to_owned(),
        }
    }

    /// The qualifier named by `s`, if any.
    pub fn parse(s: &str) -> (r: Option<Qualifier>)
        ensures
            r == parse_qualifier(s@),
    {
        if str_eq(s, "benign") {
            Some(Qualifier::Benign)
        } else if str_eq(s, "suspicious") {
            Some(Qualifier::Suspicious)
        } else if str_eq(s, "unknown") {
            Some(Qualifier::Unknown)
        } else if str_eq(s, "mixed") {
            Some(Qualifier::Mixed)
        } else {
            None
        }
    }

    /// Position of the qualifier in display order.
    pub fn rank(&self) -> (r: usize)
        ensures
            r == qualifier_rank(*self),
    {
        match self {
            Qualifier::Benign => 0,
            Qualifier::Unknown => 1,
            Qualifier::Suspicious => 2,
            Qualifier::Mixed => 3,
        }
    }
}

/// The qualifiers in display order.
pub fn ordered_qualifiers() -> (r: Vec<Qualifier>)
    ensures
        r@ == seq![
            Qualifier::Benign,
            Qualifier::Unknown,
            Qualifier::Suspicious,
            Qualifier::Mixed,
        ],
{
    let r = vec![Qualifier::Benign, Qualifier::Unknown, Qualifier::Suspicious, Qualifier::Mixed];
    assert(r@ =~= seq![
        Qualifier::Benign,
        Qualifier::Unknown,
        Qualifier::Suspicious,
        Qualifier::Mixed,
    ]);
    r
}

/// The names of the qualifiers in display order.
pub fn qualifiers_header() -> (r: Vec<String>)
    ensures
        r.len() == MAX_QUALIFIERS,
        forall|i: int|
            0 <= i < MAX_QUALIFIERS ==> #[trigger] r@[i]@ == qualifier_name(
                ordered_qualifiers_spec()[i],
            ),
{
    let qs = ordered_qualifiers();
    let mut r: Vec<String> = Vec::new();
    let mut i: usize = 0;
    while i < qs.len()
        invariant
            qs@ == ordered_qualifiers_spec(),
            i <= qs.len(),
            r.len() == i,
            forall|k: int| 0 <= k < i ==> #[trigger] r@[k]@ == qualifier_name(qs@[k]),
        decreases qs.len() - i,
    {
        r.push(qs[i].name());
        i = i + 1;
    }
    r
}

pub open spec fn ordered_qualifiers_spec() -> Seq<Qualifier> {
    seq![Qualifier::Benign, Qualifier::Unknown, Qualifier::Suspicious, Qualifier::Mixed]
}

/// How many clusters carry each qualifier, in display order.
pub struct QualifierCount {
    pub count: [usize; 4],
}

impl Default for QualifierCount {
    fn default() -> (r: Self)
        ensures
            forall|i: int| 0 <= i < MAX_QUALIFIERS ==> r.count@[i] == 0,
    {
        QualifierCount { count: [0, 0, 0, 0] }
    }
}

impl QualifierCount {
    /// The count for `q`.
    pub fn get(&self, q: Qualifier) -> (r: usize)
        ensures
            r == self.count@[qualifier_rank(q) as int],
    {
        self.count[q.rank()]
    }

    /// Counts one more cluster under `q`.
    pub fn add(&mut self, q: Qualifier)
        requires
            old(self).count@[qualifier_rank(q) as int] < usize::MAX,
        ensures
            final(self).count@ == old(self).count@.update(
                qualifier_rank(q) as int,
                (old(self).count@[qualifier_rank(q) as int] + 1) as usize,
            ),
    {
        let k = q.rank();
        self.count[k] = self.count[k] + 1;
    }
}

/// A comparison operator of a numeric filter.
#[derive(Clone, Copy, Debug, PartialEq, Eq, Structural)]
pub enum FilterOp {
    L,
    LE,
    G,
    GE,
    EQ,
    NE,
}

impl Default for FilterOp {
    fn default() -> (r: Self)
        ensures
            r == FilterOp::EQ,
    {
        FilterOp::EQ
    }
}

pub open spec fn filter_op_symbol(op: FilterOp) -> Seq<char> {
    match op {
        FilterOp::L => "<"@,
        FilterOp::G => ">"@,
        FilterOp::LE => "<="@,
        FilterOp::GE => ">="@,
        FilterOp::EQ => "="@,
        FilterOp::NE => "<>"@,
    }
}

pub open spec fn parse_filter_op(s: Seq<char>) -> Option<FilterOp> {
    if s == "<"@ {
        Some(FilterOp::L)
    } else if s == "<="@ {
        Some(FilterOp::LE)
    } else if s == ">"@ {
        Some(FilterOp::G)
    } else if s == ">="@ {
        Some(FilterOp::GE)
    } else if s == "="@ {
        Some(FilterOp::EQ)
    } else if s == "<>"@ {
        Some(FilterOp::NE)
    } else {
        None
    }
}

/// Whether `a op b` holds.
pub open spec fn compare(op: FilterOp, a: int, b: int) -> bool {
    match op {
        FilterOp::L => a < b,
        FilterOp::LE => a <= b,
        FilterOp::G => a > b,
        FilterOp::GE => a >= b,
        FilterOp::EQ => a == b,
        FilterOp::NE => a != b,
    }
}

impl FilterOp {
    /// The operator as written in a command.
    pub fn symbol(&self) -> (r: String)
        ensures
            r@ == filter_op_symbol(*self),
    {
        match self {
            FilterOp::L => "<".to_owned(),
            FilterOp::G => ">".to_owned(),
            FilterOp::LE => "<=".to_owned(),
            FilterOp::GE => ">=".to_owned(),
            FilterOp::EQ => "=".to_owned(),
            FilterOp::NE => "<>".to_owned(),
        }
    }

    /// The operator written as `s`, if any.
    pub fn parse(s: &str) -> (r: Option<FilterOp>)
        ensures
            r == parse_filter_op(s@),
    {
        if str_eq(s, "<") {
            Some(FilterOp::L)
        } else if str_eq(s, "<=") {
            Some(FilterOp::LE)
        } else if str_eq(s, ">") {
            Some(FilterOp::G)
        } else if str_eq(s, ">=") {
            Some(FilterOp::GE)
        } else if str_eq(s, "=") {
            Some(FilterOp::EQ)
        } else if str_eq(s, "<>") {
            Some(FilterOp::NE)
        } else {
            None
        }
    }

    /// Whether `a op b` holds.
    pub fn holds(&self, a: usize, b: usize) -> (r: bool)
        ensures
            r == compare(*self, a as int, b as int),
    {
        match self {
            FilterOp::L => a < b,
            FilterOp::LE => a <= b,
            FilterOp::G => a > b,
            FilterOp::GE => a >= b,
            FilterOp::EQ => a == b,
            FilterOp::NE => a != b,
        }
    }
}

/// What a filter round selects by.
#[derive(Copy, Clone, Debug, PartialEq, Eq, Structural)]
pub enum FilterType {
    NoFilter,
    Auto,
    Count,
    IPaddr,
    Label,
    Qualifier,
    Regex,
    Score,
    LabelScore,
    Sort,
    Status,
    Time,
    Token,
}

impl Default for FilterType {
    fn default() -> (r: Self)
        ensures
            r == FilterType::NoFilter,
    {
        FilterType::NoFilter
    }
}

/// An order for listing clusters.
#[derive(Debug, Clone, Copy, PartialEq, Eq, Structural)]
pub enum SortType {
    Alphabet,
    Count,
    Score,
}

impl SortType {
    /// The name of the order.
    pub fn name(&self) -> (r: String)
        ensures
            r@ == match *self {
                SortType::Alphabet => "Alphabet"@,
                SortType::Count => "Count"@,
                SortType::Score => "Score"@,
            },
    {
        match self {
            SortType::Alphabet => "Alphabet".to_owned(),
            SortType::Count => "Count".to_owned(),
            SortType::Score => "Score".to_owned(),
        }
    }
}

/// One display setting and its new value.
#[derive(Debug, Clone, Copy, PartialEq, Eq, Structural)]
pub enum ConfigType {
    SamplesCount(usize),
    Reverse(bool),
    Samples(bool),
    Signature(bool),
    Tokens(bool),
}

/// Number of sample events shown unless set otherwise.
pub const DEFAULT_SAMPLES_DISPLAY_COUNT: usize = 30;

/// The display settings of a session.
pub struct CliConf {
    pub samples_count: usize,
    pub csv_fields: Vec<usize>,
    pub show_samples: bool,
    pub reverse: bool,
    pub show_signature: bool,
    pub show_tokens: bool,
}

impl Default for CliConf {
    fn default() -> (r: Self)
        ensures
            r.samples_count == DEFAULT_SAMPLES_DISPLAY_COUNT,
            r.csv_fields@.len() == 0,
            r.show_samples,
            !r.reverse,
            r.show_signature,
            r.show_tokens,
    {
        CliConf {
            samples_count: DEFAULT_SAMPLES_DISPLAY_COUNT,
            csv_fields: Vec::new(),
            show_samples: true,
            reverse: false,
            show_signature: true,
            show_tokens: true,
        }
    }
}

impl CliConf {
    /// Number of sample events to show.
    pub fn samples_count(&self) -> (r: usize)
        ensures
            r == self.samples_count,
    {
        self.samples_count
    }

    pub fn is_show_samples_on(&self) -> (r: bool)
        ensures
            r == self.show_samples,
    {
        self.show_samples
    }

    pub fn is_show_signature_on(&self) -> (r: bool)
        ensures
            r == self.show_signature,
    {
        self.show_signature
    }

    pub fn is_reverse_on(&self) -> (r: bool)
        ensures
            r == self.reverse,
    {
        self.reverse
    }

    /// Applies one setting; the others stay as they were.
    pub fn set(&mut self, x: ConfigType)
        ensures
            final(self).csv_fields == old(self).csv_fields,
            final(self).samples_count == (match x {
                ConfigType::SamplesCount(n) => n,
                _ => old(self).samples_count,
            }),
            final(self).reverse == (match x {
                ConfigType::Reverse(b) => b,
                _ => old(self).reverse,
            }),
            final(self).show_samples == (match x {
                ConfigType::Samples(b) => b,
                _ => old(self).show_samples,
            }),
            final(self).show_signature == (match x {
                ConfigType::Signature(b) => b,
                _ => old(self).show_signature,
            }),
            final(self).show_tokens == (match x {
                ConfigType::Tokens(b) => b,
                _ => old(self).show_tokens,
            }),
    {
        match x {
            ConfigType::SamplesCount(n) => self.samples_count = n,
            ConfigType::Reverse(b) => self.reverse = b,
            ConfigType::Samples(b) => self.show_samples = b,
            ConfigType::Signature(b) => self.show_signature = b,
            ConfigType::Tokens(b) => self.show_tokens = b,
        }
    }
}

} // verus!
