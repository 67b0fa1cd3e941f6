use labeler::cli::{clamp_cursor, do_goto, CliCmd};
use labeler::cluster::{ClusterMember, Clusters, SavedClusters, CLUSTER_ID_FOR_OUTLIERS};
use labeler::config::{ColumnFormat, ColumnType, Config};
use labeler::events::Events;
use labeler::labels::{EventLabels, Labels};
use labeler::matcher::{parse_pattern_id, LoadError, MatchError, TitleMatch};
use labeler::tidb::{ComplexRules, TiKind, TiRules};
use labeler::{
    ordered_qualifiers, qualifiers_header, CliConf, ConfigType, EventType, FilterOp, FilterType,
    Qualifier, QualifierCount, SortType,
};

fn member(id: usize, size: usize, events: &[&str]) -> ClusterMember {
    ClusterMember {
        cluster_id: id,
        cluster_size: size,
        signature: Some(format!("sig{}", id)),
        score_bits: Some((id as f32).to_bits()),
        events: events.iter().map(|s| s.to_string()).collect(),
    }
}

fn saved(outliers: &[&str]) -> SavedClusters {
    SavedClusters {
        detector_id: 1,
        events_count: 62,
        clusters_count: 3,
        outlier_count: outliers.len(),
        clusters: vec![
            member(3, 50, &["e5", "e6"]),
            member(1, 10, &["e1", "e2"]),
            member(2, 2, &["e3", "e4"]),
        ],
        outliers: outliers.iter().map(|s| s.to_string()).collect(),
    }
}

fn config() -> Config {
    let col = |alias: &str, feature: bool| ColumnFormat {
        data_type: ColumnType::Utf8,
        is_feature: feature,
        format: None,
        alias: alias.to_string(),
    };
    Config {
        event_type: EventType::Log,
        time_column: 0,
        format: vec![col("uid", false), col("msg", true)],
        input_log: String::new(),
        input_clusters: String::new(),
        input_labels: String::new(),
        tidb: String::new(),
        key_column: "uid".to_string(),
        delimiter: ',',
    }
}

fn event_lines() -> Vec<String> {
    [
        "e1,GET index page",
        "e2,GET login page",
        "e3,POST upload form",
        "e4,DELETE account",
        "e5,GET image file",
        "e6,POST comment",
        "o1,strange outlier",
    ]
    .iter()
    .map(|s| s.to_string())
    .collect()
}

fn labels() -> Labels {
    let events: EventLabels = vec![
        (2, vec![("e3".to_string(), vec![(7, 1, 0)])]),
        (3, vec![("e5".to_string(), vec![(7, 2, 0)])]),
        (CLUSTER_ID_FOR_OUTLIERS, vec![("o1".to_string(), vec![(9, 9, 0)])]),
    ];
    Labels::new(vec![], events)
}

fn catalogs() -> Vec<ComplexRules> {
    vec![ComplexRules {
        id: 7,
        name: "web".to_string(),
        description: None,
        kind: TiKind::Url,
        version: "1".to_string(),
        patterns: vec![TiRules {
            rule_id: 1,
            name: "upload".to_string(),
            description: None,
            references: None,
            samples: None,
            signatures: None,
        }],
    }]
}

fn session() -> TitleMatch {
    TitleMatch::new(&config(), labels(), saved(&["x,o1,y"]), event_lines(), catalogs())
        .ok()
        .unwrap()
}

fn visible(t: &TitleMatch) -> Vec<usize> {
    t.visible().clone()
}

#[test]
fn outliers_form_one_more_cluster() {
    let l = labels();
    let c = Clusters::new(saved(&["a,o1,b", "a,o2", "nofield"]), &l, ',');
    assert_eq!(c.cluster_list(), &vec![1, 2, 3, CLUSTER_ID_FOR_OUTLIERS]);
    assert_eq!(c.len(), 4);
    assert!(!c.is_empty());
    let o = c.get(CLUSTER_ID_FOR_OUTLIERS).unwrap();
    assert_eq!(o.size, 3);
    assert_eq!(o.id, 1_000_000);
    assert_eq!(o.event_ids, vec!["o1", "o2"]);
    // labeled, but not seeded from the labels
    assert_eq!(o.qualifier, Qualifier::Unknown);
    assert_eq!(o.score_bits, 0);
    assert!(o.signature.is_none());
    assert_eq!(c.size(CLUSTER_ID_FOR_OUTLIERS), 3);
}

#[test]
fn no_outliers_no_extra_cluster() {
    let l = labels();
    let c = Clusters::new(saved(&[]), &l, ',');
    assert_eq!(c.cluster_list(), &vec![1, 2, 3]);
    assert!(c.get(CLUSTER_ID_FOR_OUTLIERS).is_none());
    assert_eq!(c.size(CLUSTER_ID_FOR_OUTLIERS), 0);
}

#[test]
fn labeled_clusters_start_suspicious() {
    let l = labels();
    let c = Clusters::new(saved(&[]), &l, ',');
    assert_eq!(c.get(1).unwrap().qualifier, Qualifier::Unknown);
    assert_eq!(c.get(2).unwrap().qualifier, Qualifier::Suspicious);
    assert_eq!(c.get(2).unwrap().new_qualifier, Qualifier::Suspicious);
    assert_eq!(c.get(3).unwrap().stored_signature(), Some("sig3"));
    assert_eq!(c.get(3).unwrap().score_bits, 3.0f32.to_bits());
    let mut all = c.event_ids();
    all.sort();
    assert_eq!(all, vec!["e1", "e2", "e3", "e4", "e5", "e6"]);
}

#[test]
fn count_and_qualifier_filters() {
    let l = labels();
    let c = Clusters::new(saved(&["x,o1"]), &l, ',');
    let all = c.cluster_list().clone();
    assert_eq!(c.filter_clusters(&all, FilterType::Count, FilterOp::G, "5"), vec![1, 3]);
    assert_eq!(c.filter_clusters(&all, FilterType::Count, FilterOp::LE, "2"), vec![2, CLUSTER_ID_FOR_OUTLIERS]);
    assert_eq!(c.filter_clusters(&all, FilterType::Count, FilterOp::EQ, "10"), vec![1]);
    assert_eq!(c.filter_clusters(&all, FilterType::Count, FilterOp::NE, "10"), vec![2, 3, CLUSTER_ID_FOR_OUTLIERS]);
    assert_eq!(c.filter_clusters(&all, FilterType::Count, FilterOp::L, "10"), vec![2, CLUSTER_ID_FOR_OUTLIERS]);
    assert_eq!(c.filter_clusters(&all, FilterType::Count, FilterOp::GE, "50"), vec![3]);
    // an unreadable literal counts as zero
    assert_eq!(c.filter_clusters(&all, FilterType::Count, FilterOp::G, "many"), all);
    assert_eq!(c.filter_clusters(&all, FilterType::Qualifier, FilterOp::EQ, "suspicious"), vec![2, 3]);
    // an unknown qualifier name looks for Unknown
    assert_eq!(
        c.filter_clusters(&all, FilterType::Qualifier, FilterOp::EQ, "weird"),
        vec![1, CLUSTER_ID_FOR_OUTLIERS]
    );
    assert_eq!(c.filter_clusters(&all, FilterType::Label, FilterOp::EQ, "1"), Vec::<usize>::new());
    // input order is kept, unknown ids dropped
    assert_eq!(c.filter_clusters(&[3, 99, 1], FilterType::Count, FilterOp::G, "5"), vec![3, 1]);
}

#[test]
fn cluster_regex_and_event_filters() {
    let l = labels();
    let mut c = Clusters::new(saved(&[]), &l, ',');
    let ids = c.event_ids();
    let ev = Events::new(&config(), event_lines(), ids).ok().unwrap();
    let all = c.cluster_list().clone();
    assert_eq!(c.regex_match(&all, "GET", &ev).ok().unwrap(), vec![1, 3]);
    assert!(c.regex_match(&all, "[", &ev).is_err());
    assert_eq!(
        c.regex_match_in_this_cluster(1, "login", &ev).ok().unwrap(),
        Some(vec!["e2".to_string()])
    );
    assert_eq!(
        c.regex_match_in_this_cluster(1, "!login", &ev).ok().unwrap(),
        Some(vec!["e1".to_string()])
    );
    assert_eq!(c.regex_match_in_this_cluster(1, "!", &ev).ok().unwrap(), None);
    assert_eq!(c.regex_match_in_this_cluster(42, "x", &ev).ok().unwrap(), None);
    assert!(c.regex_match_in_this_cluster(1, "!(", &ev).is_err());
    c.set_filtered(1, vec!["e2".to_string()], "login");
    assert_eq!(c.get(1).unwrap().filter, vec!["login"]);
    // the next filter works on the innermost result
    assert_eq!(
        c.regex_match_in_this_cluster(1, "index", &ev).ok().unwrap(),
        Some(Vec::<String>::new())
    );
    c.clear_filter(1);
    assert!(c.get(1).unwrap().filtered_events.is_empty());
    assert!(c.get(1).unwrap().filter.is_empty());
}

#[test]
fn token_index_lists_clusters_per_token() {
    let l = labels();
    let mut c = Clusters::new(saved(&[]), &l, ',');
    let ids = c.event_ids();
    let ev = Events::new(&config(), event_lines(), ids).ok().unwrap();
    c.init_event_tokens(&ev);
    assert_eq!(c.token_clusters("get"), Some(vec![1, 3]));
    assert_eq!(c.token_clusters("post"), Some(vec![2, 3]));
    assert_eq!(c.token_clusters("account"), Some(vec![2]));
    assert_eq!(c.token_clusters("nothing"), None);
}

#[test]
fn set_qualifier_reports_changes() {
    let l = labels();
    let mut c = Clusters::new(saved(&[]), &l, ',');
    assert!(c.set_qualifier(1, Qualifier::Benign));
    assert!(!c.set_qualifier(1, Qualifier::Benign));
    assert!(!c.set_qualifier(77, Qualifier::Benign));
    let m = c.get(1).unwrap();
    assert_eq!(m.new_qualifier, Qualifier::Benign);
    assert_eq!(m.qualifier, Qualifier::Unknown);
}

#[test]
fn end_to_end_count_filter() {
    let mut t = session();
    assert_eq!(t.layers().len(), 1);
    assert_eq!(visible(&t), vec![1, 2, 3, CLUSTER_ID_FOR_OUTLIERS]);
    assert_eq!(t.count_clusters(), 4);
    assert_eq!(t.filter_by(FilterType::Count, FilterOp::GE, "10"), Some(2));
    assert_eq!(visible(&t), vec![1, 3]);
    assert_eq!(t.layers().len(), 2);
    assert_eq!(t.layers()[1].pattern, ">= 10");
}

#[test]
fn apply_then_exit_restores_the_previous_layer() {
    let mut t = session();
    assert_eq!(t.filter_by(FilterType::Count, FilterOp::G, "1"), Some(3));
    let before = visible(&t);
    let before_pattern = t.layers().last().unwrap().pattern.clone();
    assert_eq!(t.filter_by(FilterType::Qualifier, FilterOp::EQ, "suspicious"), Some(2));
    assert_eq!(t.layers().last().unwrap().pattern, "suspicious");
    assert!(t.remove_filter().is_ok());
    assert_eq!(visible(&t), before);
    assert_eq!(t.layers().last().unwrap().pattern, before_pattern);
    assert!(t.remove_filter().is_ok());
    assert!(matches!(t.remove_filter(), Err(MatchError::BaseLayer)));
    assert_eq!(t.layers().len(), 1);
    assert_eq!(t.layers()[0].pattern, "Clusters");
}

#[test]
fn count_filter_keeps_exactly_the_larger_clusters() {
    let mut t = session();
    let prior = visible(&t);
    t.filter_by(FilterType::Count, FilterOp::G, "5");
    let kept = visible(&t);
    let (store, _, _, _) = t.stores();
    for c in prior {
        assert_eq!(kept.contains(&c), store.size(c) > 5);
    }
}

#[test]
fn empty_filter_result_leaves_the_stack() {
    let mut t = session();
    assert_eq!(t.filter_by(FilterType::Count, FilterOp::G, "1000"), None);
    assert_eq!(t.layers().len(), 1);
}

#[test]
fn qualifier_on_all_visible_clusters() {
    let mut t = session();
    t.filter_by(FilterType::Count, FilterOp::G, "1");
    let n = visible(&t).len();
    let changed = t.set_qualifier(0, "benign", true).unwrap();
    assert!(changed <= n);
    assert_eq!(changed, 3);
    let (store, _, _, _) = t.stores();
    for c in visible(&t) {
        assert_eq!(store.get(c).unwrap().new_qualifier, Qualifier::Benign);
    }
    assert_eq!(t.set_qualifier(0, "benign", true), Some(0));
    assert_eq!(t.set_qualifier(0, "bogus", true), None);
}

#[test]
fn qualifier_on_one_cluster() {
    let mut t = session();
    assert_eq!(t.set_qualifier(1, "mixed", false), Some(1));
    assert_eq!(t.set_qualifier(1, "mixed", false), Some(0));
    assert_eq!(t.set_qualifier(9, "mixed", false), None);
    let (store, _, _, _) = t.stores();
    assert_eq!(store.get(2).unwrap().new_qualifier, Qualifier::Mixed);
    assert_eq!(store.get(1).unwrap().new_qualifier, Qualifier::Unknown);
}

#[test]
fn label_filter_keeps_visible_order() {
    let mut t = session();
    assert_eq!(t.filter_by_label(FilterType::Label, FilterOp::EQ, Some("7")), Some(2));
    assert_eq!(visible(&t), vec![2, 3]);
    assert_eq!(t.layers().last().unwrap().pattern, "7");
    assert!(t.remove_filter().is_ok());
    assert_eq!(t.filter_by_label(FilterType::Label, FilterOp::EQ, None), Some(3));
    assert_eq!(visible(&t), vec![2, 3, CLUSTER_ID_FOR_OUTLIERS]);
    assert_eq!(t.layers().last().unwrap().pattern, "All");
    assert_eq!(t.filter_by_label(FilterType::Label, FilterOp::EQ, Some("7:2")), Some(1));
    assert_eq!(visible(&t), vec![3]);
    assert_eq!(t.filter_by_label(FilterType::Label, FilterOp::EQ, Some("8")), None);
}

#[test]
fn pattern_ids() {
    assert_eq!(parse_pattern_id(None), (0, 0));
    assert_eq!(parse_pattern_id(Some("7")), (7, 0));
    assert_eq!(parse_pattern_id(Some("7:3")), (7, 3));
    assert_eq!(parse_pattern_id(Some("x:3")), (0, 3));
    assert_eq!(parse_pattern_id(Some(":")), (0, 0));
    assert_eq!(parse_pattern_id(Some("99999999999:1")), (0, 1));
}

#[test]
fn regex_filter_and_negation() {
    let mut t = session();
    assert_eq!(t.filter_by_regex("GET").ok().unwrap(), Some(2));
    assert_eq!(visible(&t), vec![1, 3]);
    assert!(t.remove_filter().is_ok());
    assert_eq!(t.filter_by_regex("!GET").ok().unwrap(), Some(2));
    assert_eq!(visible(&t), vec![2, CLUSTER_ID_FOR_OUTLIERS]);
    assert_eq!(t.layers().last().unwrap().pattern, "GET");
    assert_eq!(t.filter_by_regex("!").ok().unwrap(), None);
    assert_eq!(t.filter_by_regex("nomatch").ok().unwrap(), None);
    assert!(t.filter_by_regex("(").is_err());
    assert_eq!(t.layers().len(), 2);
}

#[test]
fn flags_select_visible_clusters() {
    let mut t = session();
    assert_eq!(t.filter_by_flags(FilterType::Score, FilterOp::G, "> 1.5", &vec![false, true, true, false]), Some(2));
    assert_eq!(visible(&t), vec![2, 3]);
    assert_eq!(t.filter_by_flags(FilterType::Score, FilterOp::G, "> 9", &vec![true]), None);
    assert_eq!(t.filter_by_flags(FilterType::Score, FilterOp::G, "> 9", &vec![false, false]), None);
    assert_eq!(t.layers().len(), 2);
}

#[test]
fn event_filters_of_a_visible_cluster() {
    let mut t = session();
    assert_eq!(t.filter_event(FilterType::Regex, Some("login"), Some(0)).ok(), Some(1));
    let (store, _, _, _) = t.stores();
    assert_eq!(store.get(1).unwrap().filtered_events, vec![vec!["e2".to_string()]]);
    assert!(matches!(
        t.filter_event(FilterType::Regex, Some("("), Some(0)),
        Err(MatchError::InvalidPattern(_))
    ));
    assert!(matches!(
        t.filter_event(FilterType::Regex, Some("x"), Some(10)),
        Err(MatchError::ClusterNotFound(10))
    ));
    assert_eq!(t.filter_event(FilterType::NoFilter, None, Some(0)).ok(), Some(0));
    let (store, _, _, _) = t.stores();
    assert!(store.get(1).unwrap().filtered_events.is_empty());
    assert_eq!(t.filter_event(FilterType::Regex, Some("x"), None).ok(), Some(0));
}

#[test]
fn find_and_name_lookups() {
    let mut t = session();
    assert_eq!(t.find_cluster(3), Some(2));
    assert_eq!(t.find_cluster(77), None);
    t.filter_by(FilterType::Count, FilterOp::GE, "10");
    assert_eq!(t.find_cluster(3), Some(1));
    assert_eq!(t.find_cluster(2), None);
    assert_eq!(t.get_label_name(7, 1), Some("upload"));
    assert_eq!(t.get_label_name(7, 2), Some("web"));
    assert_eq!(t.get_label_name(9, 9), None);
    assert_eq!(t.get_tidb_name(7), Some("web"));
    assert_eq!(t.get_tidb_name(9), None);
    assert_eq!(t.statistics(), (3, 3, 0));
}

#[test]
fn session_load_errors() {
    let mut cfg = config();
    cfg.event_type = EventType::Packet;
    assert!(matches!(
        TitleMatch::new(&cfg, labels(), saved(&[]), event_lines(), vec![]),
        Err(LoadError::UnsupportedEventType)
    ));
    let empty = SavedClusters {
        detector_id: 0,
        events_count: 0,
        clusters_count: 0,
        outlier_count: 0,
        clusters: vec![],
        outliers: vec![],
    };
    assert!(matches!(
        TitleMatch::new(&config(), labels(), empty, event_lines(), vec![]),
        Err(LoadError::NoClusters)
    ));
    let mut nokey = config();
    nokey.key_column = "id".to_string();
    assert!(matches!(
        TitleMatch::new(&nokey, labels(), saved(&[]), event_lines(), vec![]),
        Err(LoadError::KeyFieldMissing)
    ));
    assert!(matches!(
        TitleMatch::new(&config(), labels(), saved(&[]), vec!["zz,nothing here".to_string()], vec![]),
        Err(LoadError::NoEvents)
    ));
}

#[test]
fn cursor_moves() {
    assert_eq!(do_goto(CliCmd::GoNext, None, false), 0);
    assert_eq!(do_goto(CliCmd::GoNext, Some(3), false), 4);
    assert_eq!(do_goto(CliCmd::GoPrev, Some(3), false), 2);
    assert_eq!(do_goto(CliCmd::GoPrev, Some(0), false), 0);
    assert_eq!(do_goto(CliCmd::GoNext, Some(3), true), 2);
    assert_eq!(do_goto(CliCmd::GoPrev, Some(3), true), 4);
    assert_eq!(do_goto(CliCmd::GoNext, Some(usize::MAX), false), usize::MAX);
    assert_eq!(clamp_cursor(None, 5), 0);
    assert_eq!(clamp_cursor(Some(2), 5), 2);
    assert_eq!(clamp_cursor(Some(9), 5), 4);
    assert_eq!(clamp_cursor(Some(9), 0), 0);
}

#[test]
fn qualifier_names_and_order() {
    assert_eq!(Qualifier::parse("benign"), Some(Qualifier::Benign));
    assert_eq!(Qualifier::parse("suspicious"), Some(Qualifier::Suspicious));
    assert_eq!(Qualifier::parse("unknown"), Some(Qualifier::Unknown));
    assert_eq!(Qualifier::parse("mixed"), Some(Qualifier::Mixed));
    assert_eq!(Qualifier::parse("Benign"), None);
    assert_eq!(Qualifier::default(), Qualifier::Unknown);
    assert_eq!(Qualifier::Mixed.name(), "mixed");
    assert!(Qualifier::Benign < Qualifier::Unknown && Qualifier::Suspicious < Qualifier::Mixed);
    assert_eq!(qualifiers_header(), vec!["benign", "unknown", "suspicious", "mixed"]);
    assert_eq!(ordered_qualifiers(), vec![Qualifier::Benign, Qualifier::Unknown, Qualifier::Suspicious, Qualifier::Mixed]);
    let mut count = QualifierCount::default();
    count.add(Qualifier::Mixed);
    count.add(Qualifier::Mixed);
    assert_eq!(count.get(Qualifier::Mixed), 2);
    assert_eq!(count.get(Qualifier::Benign), 0);
}

#[test]
fn operators_and_kinds() {
    for (s, op) in [("<", FilterOp::L), ("<=", FilterOp::LE), (">", FilterOp::G), (">=", FilterOp::GE), ("=", FilterOp::EQ), ("<>", FilterOp::NE)] {
        assert_eq!(FilterOp::parse(s), Some(op));
        assert_eq!(op.symbol(), s);
    }
    assert_eq!(FilterOp::parse("=="), None);
    assert_eq!(FilterOp::default(), FilterOp::EQ);
    assert!(FilterOp::NE.holds(1, 2));
    assert!(!FilterOp::GE.holds(1, 2));
    assert_eq!(FilterType::default(), FilterType::NoFilter);
    assert_eq!(EventType::parse("packet"), Some(EventType::Packet));
    assert_eq!(EventType::parse("json"), None);
    assert_eq!(EventType::Log.name(), "log");
    assert_eq!(EventType::default(), EventType::Csv);
    assert_eq!(SortType::Score.name(), "Score");
}

#[test]
fn display_settings() {
    let mut c = CliConf::default();
    assert_eq!(c.samples_count(), 30);
    assert!(c.is_show_samples_on());
    assert!(c.is_show_signature_on());
    assert!(!c.is_reverse_on());
    c.set(ConfigType::Reverse(true));
    c.set(ConfigType::SamplesCount(5));
    c.set(ConfigType::Samples(false));
    c.set(ConfigType::Signature(false));
    c.set(ConfigType::Tokens(false));
    assert!(c.is_reverse_on());
    assert_eq!(c.samples_count(), 5);
    assert!(!c.is_show_samples_on());
    assert!(!c.is_show_signature_on());
    assert!(!c.show_tokens);
}

fn cmd(s: &str) -> (CliCmd, Option<String>) {
    labeler::cli::parse_command(s)
}

#[test]
fn command_lines() {
    assert_eq!(cmd(""), (CliCmd::GoNext, None));
    assert_eq!(cmd("   "), (CliCmd::GoNext, None));
    assert_eq!(cmd(" b "), (CliCmd::GoPrev, None));
    assert_eq!(cmd("p"), (CliCmd::GoPrev, None));
    assert_eq!(cmd("?"), (CliCmd::Help, None));
    assert_eq!(cmd("12"), (CliCmd::Jump, Some("12".to_string())));
    assert_eq!(cmd("#42"), (CliCmd::ClusterID, Some("42".to_string())));
    assert_eq!(cmd("#x"), (CliCmd::Undefined, None));
    assert_eq!(cmd("/x"), (CliCmd::Exit, None));
    assert_eq!(cmd("/q"), (CliCmd::QuitProgram, None));
    assert_eq!(cmd("/help"), (CliCmd::Help, None));
    assert_eq!(cmd("/status"), (CliCmd::Status, None));
    assert_eq!(cmd("/save force"), (CliCmd::Save(true), None));
    assert_eq!(cmd("/event clear"), (CliCmd::Event(FilterType::NoFilter, FilterOp::EQ), None));
    assert_eq!(
        cmd("/event regex !GET"),
        (CliCmd::Event(FilterType::Regex, FilterOp::EQ), Some("!GET".to_string()))
    );
    assert_eq!(
        cmd("/filter count >= 10"),
        (CliCmd::Filter(FilterType::Count, FilterOp::GE), Some("10".to_string()))
    );
    assert_eq!(cmd("/filter count >= ten"), (CliCmd::Undefined, None));
    assert_eq!(cmd("/filter count => 10"), (CliCmd::Undefined, None));
    assert_eq!(
        cmd("/filter score <> 0.5"),
        (CliCmd::Filter(FilterType::Score, FilterOp::NE), Some("0.5".to_string()))
    );
    assert_eq!(cmd("/filter label"), (CliCmd::Filter(FilterType::Label, FilterOp::EQ), None));
    assert_eq!(
        cmd("/filter label 7:3"),
        (CliCmd::Filter(FilterType::Label, FilterOp::EQ), Some("7:3".to_string()))
    );
    assert_eq!(
        cmd("/filter qualifier mixed"),
        (CliCmd::Filter(FilterType::Qualifier, FilterOp::EQ), Some("mixed".to_string()))
    );
    assert_eq!(cmd("/filter qualifier odd"), (CliCmd::Undefined, None));
    assert_eq!(cmd("/set benign"), (CliCmd::SetQualifier(false), Some("benign".to_string())));
    assert_eq!(cmd("/set unknown all"), (CliCmd::SetQualifier(true), Some("unknown".to_string())));
    assert_eq!(cmd("/set reverse on"), (CliCmd::SetConfig(ConfigType::Reverse(true)), None));
    assert_eq!(cmd("/set samples off"), (CliCmd::SetConfig(ConfigType::Samples(false)), None));
    assert_eq!(cmd("/set samplescount 7"), (CliCmd::SetConfig(ConfigType::SamplesCount(7)), None));
    assert_eq!(cmd("/set samplescount many"), (CliCmd::Undefined, None));
    assert_eq!(cmd("/set csvstyle on"), (CliCmd::Undefined, None));
    // words past the third are joined into one argument
    assert_eq!(
        cmd("/filter count   >   5 6"),
        (CliCmd::Undefined, None)
    );
    assert_eq!(cmd("/frobnicate"), (CliCmd::Undefined, None));
}

#[test]
fn white_space_matches_std() {
    for u in 0u32..=0x10FFFF {
        if let Some(c) = char::from_u32(u) {
            assert_eq!(labeler::cli::is_whitespace(c), c.is_whitespace(), "{:x}", u);
        }
    }
}

#[test]
fn event_filter_stack_records_patterns() {
    let mut t = session();
    assert_eq!(t.filter_event(FilterType::Regex, Some("!login"), Some(0)).ok(), Some(1));
    let (store, _, _, _) = t.stores();
    assert_eq!(store.get(1).unwrap().filter, vec!["!login"]);
    assert_eq!(t.filter_event(FilterType::Regex, Some("!"), Some(0)).ok(), Some(0));
    assert_eq!(t.filter_event(FilterType::Regex, Some("x"), Some(99)).is_err(), true);
    let (store, _, _, _) = t.stores();
    assert_eq!(store.get(1).unwrap().filter.len(), 1);
    assert_eq!(t.filter_event(FilterType::NoFilter, None, Some(0)).ok(), Some(0));
    let (store, _, _, _) = t.stores();
    assert!(store.get(1).unwrap().filter.is_empty());
    assert_eq!(store.get(1).unwrap().size, 10);
}
