use labeler::config::{default_delimiter, default_keycolumn, ColumnFormat, ColumnType, Config};
use labeler::events::{Events, EventsError};
use labeler::labels::{pack_pattern_id, EventLabels, Labels, RepresentativeLabels};
use labeler::pattern::Pattern;
use labeler::tidb::{catalog_name, label_name, ComplexRules, TiKind, TiRules};
use labeler::EventType;

fn column(alias: &str, feature: bool) -> ColumnFormat {
    ColumnFormat {
        data_type: ColumnType::Utf8,
        is_feature: feature,
        format: None,
        alias: alias.to_string(),
    }
}

fn config() -> Config {
    Config {
        event_type: EventType::Csv,
        time_column: 0,
        format: vec![
            ColumnFormat {
                data_type: ColumnType::Datetime,
                is_feature: false,
                format: Some("%Y".to_string()),
                alias: "time".to_string(),
            },
            column("uid", false),
            column("msg", true),
            column("agent", true),
        ],
        input_log: "events.csv".to_string(),
        input_clusters: "clusters.json".to_string(),
        input_labels: "labels.json".to_string(),
        tidb: "tidb/*".to_string(),
        key_column: "uid".to_string(),
        delimiter: ',',
    }
}

fn lines(v: &[&str]) -> Vec<String> {
    v.iter().map(|s| s.to_string()).collect()
}

fn ids(v: &[&str]) -> Vec<String> {
    v.iter().map(|s| s.to_string()).collect()
}

fn labels() -> Labels {
    let representative: RepresentativeLabels = vec![
        (1, vec![(7, 3, 4, 1.5f32.to_bits())]),
        (2, vec![(1, 1, 1, 0)]),
        (1, vec![(9, 9, 9, 0)]),
    ];
    let events: EventLabels = vec![
        (
            1,
            vec![
                ("m1".to_string(), vec![(7, 3, 0), (2, 5, 0)]),
                ("m2".to_string(), vec![(7, 3, 0)]),
            ],
        ),
        (3, vec![("m9".to_string(), vec![(7, 1, 0)])]),
        (4, vec![("m1".to_string(), vec![])]),
    ];
    Labels::new(representative, events)
}

#[test]
fn config_defaults_and_columns() {
    assert_eq!(default_delimiter(), ',');
    assert_eq!(default_keycolumn(), "uid");
    let cfg = config();
    assert_eq!(cfg.features(), vec![2, 3]);
    assert_eq!(cfg.key_field(), Some(1));
    assert_eq!(cfg.column_len(), 4);
    assert_eq!(cfg.time_format(), Some("%Y"));
    assert_eq!(cfg.clusters(), "clusters.json");
    assert_eq!(cfg.events(), "events.csv");
    assert_eq!(cfg.labels(), "labels.json");
    assert_eq!(cfg.tidb(), "tidb/*");
    assert_eq!(cfg.delimiter(), ',');
    assert_eq!(cfg.event_type(), EventType::Csv);
    let mut other = config();
    other.time_column = 2;
    assert_eq!(other.time_format(), None);
    other.key_column = "nope".to_string();
    assert_eq!(other.key_field(), None);
}

#[test]
fn events_load_keeps_asked_records_with_the_right_width() {
    let cfg = config();
    let ev = Events::new(
        &cfg,
        lines(&[
            "t,e1,Hello World,Mozilla",
            "t,e2,short",
            "t,e3,Other Text,curl",
            "t,e4,Not Asked,curl",
            "t,e1,Second Version,wget",
        ]),
        ids(&["e1", "e2", "e3"]),
    )
    .ok()
    .unwrap();
    assert_eq!(ev.len(), 2);
    assert!(!ev.is_empty());
    assert_eq!(ev.skipped(), 1);
    assert_eq!(ev.not_found(), 1);
    // a later line with the same id replaces the earlier one
    assert_eq!(ev.get_message(&"e1".to_string()), Some("t,e1,Second Version,wget"));
    assert_eq!(
        ev.tokens(&"e1".to_string()).unwrap(),
        &vec!["second".to_string(), "version".to_string(), "wget".to_string()]
    );
    assert_eq!(
        ev.tokens(&"e3".to_string()).unwrap(),
        &vec!["other".to_string(), "text".to_string(), "curl".to_string()]
    );
    assert!(ev.tokens(&"e2".to_string()).is_none());
    assert!(ev.get_message(&"e4".to_string()).is_none());
}

#[test]
fn events_load_fails_without_key_column() {
    let mut cfg = config();
    cfg.key_column = "missing".to_string();
    let r = Events::new(&cfg, lines(&["t,e1,x,y"]), ids(&["e1"]));
    assert!(matches!(r, Err(EventsError::KeyFieldMissing)));
}

#[test]
fn events_regex_match_keeps_order_of_the_candidates() {
    let cfg = config();
    let ev = Events::new(
        &cfg,
        lines(&["t,e1,GET index,curl", "t,e2,POST form,curl", "t,e3,GET image,wget"]),
        ids(&["e1", "e2", "e3"]),
    )
    .ok()
    .unwrap();
    let re = Pattern::new("GET").ok().unwrap();
    let found = ev.regex_match(&re, &ids(&["e3", "e2", "e1", "zz"]));
    assert_eq!(found, vec!["e3", "e1"]);
    assert!(ev.any_match(&re, &ids(&["e2", "e3"])));
    assert!(!ev.any_match(&re, &ids(&["e2", "zz"])));
}

#[test]
fn invalid_regex_is_refused() {
    assert!(Pattern::new("(unclosed").is_err());
    let re = Pattern::new("a+b").ok().unwrap();
    assert!(re.matches("xxaaab"));
    assert!(!re.matches("ba"));
}

#[test]
fn packed_keys_order_catalog_first_then_rule() {
    assert_eq!(pack_pattern_id((1, 2)), (1u64 << 32) | 2);
    assert_eq!(pack_pattern_id((0, u32::MAX)), u32::MAX as u64);
    let pairs = [(0u32, 0u32), (0, 5), (1, 0), (1, u32::MAX), (2, 1), (u32::MAX, 0), (u32::MAX, u32::MAX)];
    for a in pairs.iter() {
        for b in pairs.iter() {
            assert_eq!(pack_pattern_id(*a).cmp(&pack_pattern_id(*b)), a.cmp(b));
        }
    }
}

#[test]
fn labeled_clusters_and_lookup() {
    let l = labels();
    assert!(l.is_labeled(1));
    assert!(l.is_labeled(3));
    // a record with no labels does not make its cluster labeled
    assert!(!l.is_labeled(4));
    assert!(!l.is_labeled(2));
}

#[test]
fn find_clusters_with_wildcards() {
    let l = labels();
    assert_eq!(l.find_clusters(7, 3), vec![1]);
    assert_eq!(l.find_clusters(7, 0), vec![1, 3]);
    assert_eq!(l.find_clusters(0, 5), vec![1]);
    assert_eq!(l.find_clusters(0, 0), vec![1, 3]);
    assert_eq!(l.find_clusters(8, 0), Vec::<usize>::new());
}

#[test]
fn event_labels_are_counted_and_sorted_by_key() {
    let l = labels();
    assert_eq!(l.get_event_labels(1), Some(vec![((2, 5), 1), ((7, 3), 2)]));
    assert_eq!(l.get_event_labels(3), Some(vec![((7, 1), 1)]));
    assert_eq!(l.get_event_labels(4), None);
    assert_eq!(l.get_event_labels(99), None);
}

#[test]
fn representative_labels_come_from_the_first_record() {
    let l = labels();
    assert_eq!(l.get_representative_labels(1), Some(vec![(7, 3, 4, 1.5f32.to_bits())]));
    assert_eq!(l.get_representative_labels(2), Some(vec![(1, 1, 1, 0)]));
    assert_eq!(l.get_representative_labels(3), None);
}

#[test]
fn label_statistics() {
    // clusters 1 and 3 are labeled; m1, m2, m9 are distinct events; 3 records
    assert_eq!(labels().statistics(), (2, 3, 3));
}

fn rule(id: u32, name: &str) -> TiRules {
    TiRules {
        rule_id: id,
        name: name.to_string(),
        description: None,
        references: None,
        samples: None,
        signatures: None,
    }
}

fn catalog(id: u32, name: &str, rules: Vec<TiRules>) -> ComplexRules {
    ComplexRules {
        id,
        name: name.to_string(),
        description: None,
        kind: TiKind::Token,
        version: "1".to_string(),
        patterns: rules,
    }
}

#[test]
fn rule_names_fall_back_to_the_catalog() {
    let c = catalog(7, "web", vec![rule(3, "sqli"), rule(3, "dup"), rule(4, "xss")]);
    assert_eq!(c.get_label_name(7, 3), Some("sqli"));
    assert_eq!(c.get_label_name(7, 4), Some("xss"));
    assert_eq!(c.get_label_name(7, 9), Some("web"));
    assert_eq!(c.get_label_name(8, 3), None);
    assert_eq!(c.name(), "web");
    assert_eq!(c.id(), 7);
    assert_eq!(c.patterns[0].name(), "sqli");
    assert_eq!(TiKind::default(), TiKind::Ip);
}

#[test]
fn catalogs_are_searched_in_order() {
    let cs = vec![
        catalog(1, "first", vec![rule(1, "a")]),
        catalog(2, "second", vec![rule(5, "b")]),
        catalog(2, "shadowed", vec![rule(6, "c")]),
    ];
    assert_eq!(label_name(&cs, 2, 5), Some("b"));
    assert_eq!(label_name(&cs, 2, 6), Some("second"));
    assert_eq!(label_name(&cs, 3, 1), None);
    assert_eq!(catalog_name(&cs, 2), Some("second"));
    assert_eq!(catalog_name(&cs, 9), None);
}
