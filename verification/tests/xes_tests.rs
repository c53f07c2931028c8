use xes::{
    log_to_bytes, parse_attribute, parse_document, parse_log, parse_logs, parse_trace, write_log,
    Attribute, Event, Extension, Log, MarkupEvent, Trace, XesError, XmlElement,
};
use xes::text::{check_double_lexeme, join_features, parse_i64, render_i64, split_features};

fn elem(tag: &str, attrs: &[(&str, &str)], children: Vec<XmlElement>) -> XmlElement {
    XmlElement {
        tag: tag.to_string(),
        attributes: attrs
            .iter()
            .map(|(k, v)| (k.to_string(), v.to_string()))
            .collect(),
        children,
    }
}

fn entry(k: &str, v: Attribute) -> (String, Attribute) {
    (k.to_string(), v)
}

#[test]
fn concrete_scenario() {
    let text = "<log version=\"1.0\" features=\"nested-attributes\">\
                <string key=\"concept:name\" value=\"example\"/>\
                <trace><event><long key=\"amount\" value=\"42\"/></event></trace></log>";
    let logs = parse_document(text).unwrap();
    assert_eq!(logs.len(), 1);
    let log = &logs[0];
    assert_eq!(log.version, "1.0");
    assert_eq!(log.features, vec!["nested-attributes".to_string()]);
    assert!(log.extensions.is_empty());
    assert_eq!(
        log.attributes,
        vec![entry("concept:name", Attribute::String("example".to_string()))]
    );
    assert_eq!(log.traces.len(), 1);
    assert!(log.traces[0].attributes.is_empty());
    assert_eq!(log.traces[0].events.len(), 1);
    assert_eq!(
        log.traces[0].events[0].attributes,
        vec![entry("amount", Attribute::Long(42))]
    );
    assert!(log.events.is_empty());
}

#[test]
fn duplicate_keys_last_write_wins() {
    let node = elem(
        "list",
        &[("key", "outer")],
        vec![
            elem("string", &[("key", "k"), ("value", "first")], vec![]),
            elem("string", &[("key", "k"), ("value", "second")], vec![]),
        ],
    );
    let (key, value) = parse_attribute(&node).unwrap();
    assert_eq!(key, "outer");
    assert_eq!(
        value,
        Attribute::List(vec![entry("k", Attribute::String("second".to_string()))])
    );
}

#[test]
fn event_order_is_preserved() {
    let trace = elem(
        "trace",
        &[],
        vec![
            elem("event", &[], vec![elem("long", &[("key", "n"), ("value", "1")], vec![])]),
            elem("event", &[], vec![elem("long", &[("key", "n"), ("value", "2")], vec![])]),
            elem("event", &[], vec![elem("long", &[("key", "n"), ("value", "3")], vec![])]),
        ],
    );
    let t = parse_trace(&trace).unwrap();
    let ns: Vec<i64> = t
        .events
        .iter()
        .map(|e| match e.attributes[0].1 {
            Attribute::Long(n) => n,
            _ => panic!("expected a long"),
        })
        .collect();
    assert_eq!(ns, vec![1, 2, 3]);

    // Reserializing keeps the order.
    let log = Log {
        version: "1.0".to_string(),
        features: vec!["x".to_string()],
        extensions: vec![],
        attributes: vec![],
        traces: vec![t],
        events: vec![],
    };
    let bytes = log_to_bytes(&log);
    let text = String::from_utf8(bytes).unwrap();
    let back = parse_document(&text).unwrap();
    let ns2: Vec<i64> = back[0].traces[0]
        .events
        .iter()
        .map(|e| match e.attributes[0].1 {
            Attribute::Long(n) => n,
            _ => panic!("expected a long"),
        })
        .collect();
    assert_eq!(ns2, vec![1, 2, 3]);
}

#[test]
fn multi_log_document() {
    let root = elem(
        "root",
        &[],
        vec![
            elem(
                "log",
                &[("version", "1.0"), ("features", "a")],
                vec![elem("string", &[("key", "which"), ("value", "one")], vec![])],
            ),
            elem(
                "log",
                &[("version", "2.0"), ("features", "b")],
                vec![elem("string", &[("key", "which"), ("value", "two")], vec![])],
            ),
        ],
    );
    let logs = parse_logs(&root).unwrap();
    assert_eq!(logs.len(), 2);
    assert_eq!(logs[0].version, "1.0");
    assert_eq!(
        logs[0].attributes,
        vec![entry("which", Attribute::String("one".to_string()))]
    );
    assert_eq!(logs[1].version, "2.0");
    assert_eq!(
        logs[1].attributes,
        vec![entry("which", Attribute::String("two".to_string()))]
    );
}

#[test]
fn nested_lists() {
    let text = "<log version=\"1.0\" features=\"nested-attributes\">\
                <list key=\"outer\">\
                  <list key=\"inner\">\
                    <long key=\"depth\" value=\"2\"/>\
                  </list>\
                  <boolean key=\"flag\" value=\"true\"/>\
                </list></log>";
    let logs = parse_document(text).unwrap();
    let expected = Attribute::List(vec![
        entry(
            "inner",
            Attribute::List(vec![entry("depth", Attribute::Long(2))]),
        ),
        entry("flag", Attribute::Boolean(true)),
    ]);
    assert_eq!(logs[0].attributes, vec![entry("outer", expected)]);
}

#[test]
fn missing_version_is_fatal() {
    let text = "<log features=\"a\"/>";
    let err = parse_document(text).unwrap_err();
    assert_eq!(err, XesError::MissingAttribute("version".to_string()));
}

#[test]
fn missing_features_is_fatal() {
    let text = "<log version=\"1.0\"/>";
    let err = parse_document(text).unwrap_err();
    assert_eq!(err, XesError::MissingAttribute("features".to_string()));
}

#[test]
fn malformed_xml_is_fatal() {
    let err = parse_document("<log version=\"1.0\"").unwrap_err();
    assert_eq!(err, XesError::MalformedXml);
}

#[test]
fn document_without_logs_is_empty() {
    let logs = parse_document("<notalog/>").unwrap();
    assert!(logs.is_empty());
}

#[test]
fn full_round_trip_through_bytes() {
    let log = Log {
        version: "2.0".to_string(),
        features: vec!["nested-attributes".to_string(), "x".to_string()],
        extensions: vec![Extension {
            name: "Concept".to_string(),
            prefix: "concept".to_string(),
            uri: "http://example.org/concept".to_string(),
        }],
        attributes: vec![
            entry("concept:name", Attribute::String("a log".to_string())),
            entry("count", Attribute::Long(-7)),
            entry("ratio", Attribute::Double("1.25".to_string())),
            entry("when", Attribute::DateTime("2024-01-01T00:00:00".to_string())),
            entry("ok", Attribute::Boolean(false)),
            entry("id", Attribute::ID("abc-123".to_string())),
            entry(
                "bag",
                Attribute::List(vec![entry("leaf", Attribute::Long(1))]),
            ),
        ],
        traces: vec![Trace {
            attributes: vec![entry("case", Attribute::String("c1".to_string()))],
            events: vec![
                Event {
                    attributes: vec![entry("n", Attribute::Long(1))],
                },
                Event {
                    attributes: vec![entry("n", Attribute::Long(2))],
                },
            ],
        }],
        events: vec![Event {
            attributes: vec![entry("loose", Attribute::Boolean(true))],
        }],
    };
    let bytes = log_to_bytes(&log);
    let text = String::from_utf8(bytes).unwrap();
    let back = parse_document(&text).unwrap();
    assert_eq!(back.len(), 1);
    assert_eq!(back[0], log);
}

#[test]
fn datetime_round_trips_under_one_tag() {
    // The reader recognizes `datetime`, and the writer emits the same tag,
    // so a DateTime attribute survives the round trip.
    let log = Log {
        version: "1.0".to_string(),
        features: vec!["f".to_string()],
        extensions: vec![],
        attributes: vec![entry("t", Attribute::DateTime("2020-02-02".to_string()))],
        traces: vec![],
        events: vec![],
    };
    let text = String::from_utf8(log_to_bytes(&log)).unwrap();
    assert!(text.contains("<datetime"));
    let back = parse_document(&text).unwrap();
    assert_eq!(back[0], log);
}

#[test]
fn unrecognized_tag_is_fatal() {
    let node = elem("frobnicate", &[("key", "k"), ("value", "v")], vec![]);
    let err = parse_attribute(&node).unwrap_err();
    assert_eq!(err, XesError::UnrecognizedTag("frobnicate".to_string()));

    // A `list` carrying a `value` has no scalar interpretation either.
    let node = elem("list", &[("key", "k"), ("value", "v")], vec![]);
    let err = parse_attribute(&node).unwrap_err();
    assert_eq!(err, XesError::UnrecognizedTag("list".to_string()));
}

#[test]
fn missing_key_is_fatal() {
    let node = elem("string", &[("value", "v")], vec![]);
    let err = parse_attribute(&node).unwrap_err();
    assert_eq!(err, XesError::MissingAttribute("key".to_string()));
}

#[test]
fn scalar_lexical_errors() {
    let node = elem("long", &[("key", "k"), ("value", "12x")], vec![]);
    assert_eq!(
        parse_attribute(&node).unwrap_err(),
        XesError::ScalarLexical("12x".to_string())
    );
    let node = elem("double", &[("key", "k"), ("value", "1.2.3")], vec![]);
    assert_eq!(
        parse_attribute(&node).unwrap_err(),
        XesError::ScalarLexical("1.2.3".to_string())
    );
    let node = elem("boolean", &[("key", "k"), ("value", "True")], vec![]);
    assert_eq!(
        parse_attribute(&node).unwrap_err(),
        XesError::ScalarLexical("True".to_string())
    );
}

#[test]
fn extension_missing_field_is_fatal() {
    let root = elem(
        "log",
        &[("version", "1.0"), ("features", "f")],
        vec![elem("extension", &[("name", "n"), ("uri", "u")], vec![])],
    );
    let err = parse_log(&root).unwrap_err();
    assert_eq!(err, XesError::MissingAttribute("prefix".to_string()));
}

#[test]
fn extensions_are_collected() {
    let text = "<log version=\"1.0\" features=\"f\">\
                <extension name=\"Concept\" prefix=\"concept\" uri=\"http://x/c\"/>\
                <extension name=\"Time\" prefix=\"time\" uri=\"http://x/t\"/></log>";
    let logs = parse_document(text).unwrap();
    assert_eq!(
        logs[0].extensions,
        vec![
            Extension {
                name: "Concept".to_string(),
                prefix: "concept".to_string(),
                uri: "http://x/c".to_string()
            },
            Extension {
                name: "Time".to_string(),
                prefix: "time".to_string(),
                uri: "http://x/t".to_string()
            },
        ]
    );
}

#[test]
fn integer_parsing_matches_the_grammar() {
    assert_eq!(parse_i64("0"), Some(0));
    assert_eq!(parse_i64("+42"), Some(42));
    assert_eq!(parse_i64("-42"), Some(-42));
    assert_eq!(parse_i64("007"), Some(7));
    assert_eq!(parse_i64("9223372036854775807"), Some(i64::MAX));
    assert_eq!(parse_i64("-9223372036854775808"), Some(i64::MIN));
    assert_eq!(parse_i64("9223372036854775808"), None);
    assert_eq!(parse_i64("-9223372036854775809"), None);
    assert_eq!(parse_i64("000000000000000000000000001"), Some(1));
    assert_eq!(parse_i64(""), None);
    assert_eq!(parse_i64("+"), None);
    assert_eq!(parse_i64("4 2"), None);
    assert_eq!(parse_i64("12x"), None);
}

#[test]
fn integer_rendering_is_decimal() {
    assert_eq!(render_i64(0), "0");
    assert_eq!(render_i64(42), "42");
    assert_eq!(render_i64(-42), "-42");
    assert_eq!(render_i64(i64::MAX), "9223372036854775807");
    assert_eq!(render_i64(i64::MIN), "-9223372036854775808");
}

#[test]
fn double_lexemes_match_the_grammar() {
    for ok in [
        "0", "1.5", "-1.5", "+1.5", ".5", "5.", "1e3", "1.5e-3", "2E+10", "inf", "INF",
        "Infinity", "-infinity", "nan", "NaN",
    ] {
        assert!(check_double_lexeme(ok), "{ok} should be accepted");
        assert!(ok.parse::<f64>().is_ok(), "{ok} rejected by the reference");
    }
    for bad in ["", ".", "1.2.3", "1e", "e5", "--1", "1 ", " 1", "0x10", "1e5.5", "infx"] {
        assert!(!check_double_lexeme(bad), "{bad} should be rejected");
        assert!(bad.parse::<f64>().is_err(), "{bad} accepted by the reference");
    }
}

#[test]
fn features_split_and_trim() {
    let fs = split_features(" a , b-c ,d ");
    assert_eq!(fs, vec!["a".to_string(), "b-c".to_string(), "d".to_string()]);
    let joined = join_features(&fs);
    assert_eq!(joined, "a,b-c,d");
    let back = split_features(&joined);
    assert_eq!(back, fs);

    assert_eq!(split_features(""), vec!["".to_string()]);
    assert_eq!(split_features("x"), vec!["x".to_string()]);
}

#[test]
fn write_log_emits_balanced_markup() {
    let log = Log {
        version: "1.0".to_string(),
        features: vec!["f".to_string()],
        extensions: vec![],
        attributes: vec![entry("k", Attribute::Long(5))],
        traces: vec![],
        events: vec![],
    };
    let mut events: Vec<MarkupEvent> = Vec::new();
    write_log(&log, &mut events);
    assert_eq!(events.len(), 4);
    match &events[0] {
        MarkupEvent::Start { tag, attributes } => {
            assert_eq!(tag, "log");
            assert_eq!(
                attributes,
                &vec![
                    ("version".to_string(), "1.0".to_string()),
                    ("features".to_string(), "f".to_string())
                ]
            );
        }
        _ => panic!("expected a start tag"),
    }
    match &events[1] {
        MarkupEvent::Start { tag, attributes } => {
            assert_eq!(tag, "long");
            assert_eq!(
                attributes,
                &vec![
                    ("key".to_string(), "k".to_string()),
                    ("value".to_string(), "5".to_string())
                ]
            );
        }
        _ => panic!("expected a start tag"),
    }
    assert_eq!(events[2], MarkupEvent::End { tag: "long".to_string() });
    assert_eq!(events[3], MarkupEvent::End { tag: "log".to_string() });
}

#[test]
fn log_new_starts_empty() {
    let log = Log::new("1.0".to_string(), vec!["f".to_string()]);
    assert_eq!(log.version, "1.0");
    assert_eq!(log.features, vec!["f".to_string()]);
    assert!(log.extensions.is_empty());
    assert!(log.attributes.is_empty());
    assert!(log.traces.is_empty());
    assert!(log.events.is_empty());
}

#[test]
fn xml_escaping_survives_the_round_trip() {
    let log = Log {
        version: "1.0".to_string(),
        features: vec!["f".to_string()],
        extensions: vec![],
        attributes: vec![entry(
            "text",
            Attribute::String("a<b & \"c\"".to_string()),
        )],
        traces: vec![],
        events: vec![],
    };
    let text = String::from_utf8(log_to_bytes(&log)).unwrap();
    let back = parse_document(&text).unwrap();
    assert_eq!(back[0], log);
}
