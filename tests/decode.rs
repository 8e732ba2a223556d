use strconf::config::Config;
use strconf::decode::DecodeError;
use strconf::event::Event;
use strconf::value::{Shape, Value};

fn s(text: &str) -> Event {
    Event::Scalar(text.to_string())
}

fn text(t: &str) -> Value {
    Value::from(t.to_string())
}

/// A rendering of a value in which dictionary order does not count.
fn canon(v: &Value) -> String {
    match v {
        Value::String(t) => format!("{:?}", t),
        Value::List(items) => {
            let parts: Vec<String> = items.iter().map(canon).collect();
            format!("[{}]", parts.join(","))
        }
        Value::Dict(entries) => {
            let mut parts: Vec<String> = entries
                .iter()
                .map(|(k, v)| format!("{:?}:{}", k, canon(v)))
                .collect();
            parts.sort();
            format!("{{{}}}", parts.join(","))
        }
    }
}

fn canon_config(c: Config) -> String {
    canon(&Value::from(c))
}

#[test]
fn decodes_nested_document() {
    let events = vec![
        Event::MapStart(Some(2)),
        s("x"),
        Event::SeqStart(Some(2)),
        s("a"),
        s("b"),
        Event::End,
        s("y"),
        Event::MapStart(None),
        s("z"),
        s("c"),
        Event::End,
        Event::End,
    ];
    let c = Config::decode(&events).unwrap();
    assert_eq!(canon_config(c), r#"{"x":["a","b"],"y":{"z":"c"}}"#);
}

#[test]
fn duplicate_key_at_root_is_named() {
    let events = vec![Event::MapStart(Some(2)), s("a"), s("1"), s("a"), s("2"), Event::End];
    match Config::decode(&events) {
        Err(DecodeError::DuplicateKey(k)) => assert_eq!(k, "a"),
        other => panic!("unexpected {:?}", other),
    }
}

#[test]
fn duplicate_key_in_nested_map_is_named() {
    let events = vec![
        Event::MapStart(None),
        s("a"),
        Event::MapStart(None),
        s("b"),
        s("1"),
        s("b"),
        s("2"),
        Event::End,
        Event::End,
    ];
    match Config::decode(&events) {
        Err(DecodeError::DuplicateKey(k)) => assert_eq!(k, "b"),
        other => panic!("unexpected {:?}", other),
    }
    match Value::decode(&events) {
        Err(DecodeError::DuplicateKey(k)) => assert_eq!(k, "b"),
        other => panic!("unexpected {:?}", other),
    }
}

#[test]
fn duplicate_key_inside_list_is_named() {
    let events = vec![
        Event::SeqStart(None),
        Event::MapStart(None),
        s("k"),
        s("1"),
        s("k"),
        s("1"),
        Event::End,
        Event::End,
    ];
    match Value::decode(&events) {
        Err(DecodeError::DuplicateKey(k)) => assert_eq!(k, "k"),
        other => panic!("unexpected {:?}", other),
    }
}

#[test]
fn list_root_is_not_a_config() {
    let events = vec![Event::SeqStart(Some(3)), s("1"), s("2"), s("3"), Event::End];
    match Config::decode(&events) {
        Err(DecodeError::NotAMap(shape)) => assert_eq!(shape, Shape::List),
        other => panic!("unexpected {:?}", other),
    }
    assert!(Value::decode(&events).is_ok());
}

#[test]
fn string_root_is_not_a_config() {
    let events = vec![s("hello")];
    match Config::decode(&events) {
        Err(DecodeError::NotAMap(shape)) => assert_eq!(shape, Shape::String),
        other => panic!("unexpected {:?}", other),
    }
}

#[test]
fn list_order_survives_a_full_cycle() {
    let events = vec![
        Event::MapStart(None),
        s("k"),
        Event::SeqStart(None),
        s("first"),
        s("second"),
        s("third"),
        Event::End,
        Event::End,
    ];
    let c = Config::decode(&events).unwrap();
    let again = Config::decode(&c.encode()).unwrap();
    let entries = again.entries();
    assert_eq!(entries.len(), 1);
    assert_eq!(entries[0].0, "k");
    match &entries[0].1 {
        Value::List(items) => {
            let got: Vec<String> = items.iter().map(canon).collect();
            assert_eq!(got, vec!["\"first\"", "\"second\"", "\"third\""]);
        }
        other => panic!("unexpected {:?}", other),
    }
}

#[test]
fn empty_containers_round_trip_and_differ() {
    let empty_map = Config::decode(&vec![Event::MapStart(Some(0)), Event::End]).unwrap();
    assert_eq!(empty_map.entries().len(), 0);
    let again = Config::decode(&empty_map.encode()).unwrap();
    assert_eq!(again.entries().len(), 0);

    let empty_list = Value::decode(&vec![Event::SeqStart(None), Event::End]).unwrap();
    assert_eq!(canon(&empty_list), "[]");
    let events = empty_list.encode();
    assert!(matches!(events[0], Event::SeqStart(Some(0))));
    assert_eq!(canon(&Value::decode(&events).unwrap()), "[]");

    let with_both = vec![
        Event::MapStart(None),
        s("m"),
        Event::MapStart(None),
        Event::End,
        s("l"),
        Event::SeqStart(None),
        Event::End,
        Event::End,
    ];
    let c = Config::decode(&with_both).unwrap();
    assert_eq!(canon_config(c), r#"{"l":[],"m":{}}"#);
    assert!(Config::decode(&vec![Event::SeqStart(None), Event::End]).is_err());
    assert!(Config::decode(&vec![]).is_err());
}

#[test]
fn value_round_trip_keeps_everything() {
    let v = Value::from(vec![
        text("one"),
        Value::Dict(vec![
            ("b".to_string(), text("2")),
            ("a".to_string(), Value::from(vec![text("x"), Value::from(Vec::new())])),
        ]),
        Value::Dict(Vec::new()),
    ]);
    let back = Value::decode(&v.encode()).unwrap();
    assert_eq!(canon(&back), canon(&v));
    assert_eq!(canon(&back), r#"["one",{"a":["x",[]],"b":"2"},{}]"#);
}

#[test]
fn encode_gives_exact_events() {
    let v = Value::Dict(vec![(
        "k".to_string(),
        Value::from(vec![text("p"), text("q")]),
    )]);
    let events = v.encode();
    assert_eq!(events.len(), 7);
    assert!(matches!(events[0], Event::MapStart(Some(1))));
    assert!(matches!(&events[1], Event::Scalar(t) if t == "k"));
    assert!(matches!(events[2], Event::SeqStart(Some(2))));
    assert!(matches!(&events[3], Event::Scalar(t) if t == "p"));
    assert!(matches!(&events[4], Event::Scalar(t) if t == "q"));
    assert!(matches!(events[5], Event::End));
    assert!(matches!(events[6], Event::End));
}

#[test]
fn size_hints_do_not_matter() {
    let events = vec![Event::SeqStart(Some(usize::MAX)), s("a"), Event::End];
    assert_eq!(canon(&Value::decode(&events).unwrap()), r#"["a"]"#);
    let events = vec![Event::MapStart(Some(usize::MAX)), s("a"), s("b"), Event::End];
    assert_eq!(canon_config(Config::decode(&events).unwrap()), r#"{"a":"b"}"#);
}

#[test]
fn malformed_streams_are_refused() {
    let cases: Vec<Vec<Event>> = vec![
        vec![],
        vec![Event::End],
        vec![Event::MapStart(None), s("a")],
        vec![Event::MapStart(None), s("a"), s("b")],
        vec![Event::MapStart(None), Event::SeqStart(None), Event::End, s("b"), Event::End],
        vec![Event::SeqStart(None), s("a")],
        vec![s("a"), s("b")],
        vec![Event::MapStart(None), Event::End, Event::End],
    ];
    for events in cases {
        assert!(matches!(Value::decode(&events), Err(DecodeError::Malformed)));
        assert!(matches!(Config::decode(&events), Err(DecodeError::Malformed)));
    }
}

#[test]
fn from_entries_refuses_the_first_repeated_key() {
    let entries = vec![
        ("a".to_string(), text("1")),
        ("b".to_string(), text("2")),
        ("b".to_string(), text("3")),
        ("a".to_string(), text("4")),
    ];
    match Config::from_entries(entries) {
        Err(DecodeError::DuplicateKey(k)) => assert_eq!(k, "b"),
        other => panic!("unexpected {:?}", other),
    }
}

#[test]
fn from_entries_builds_a_document() {
    let entries = vec![("a".to_string(), text("1")), ("b".to_string(), Value::from(Vec::new()))];
    let c = Config::from_entries(entries).unwrap();
    assert_eq!(canon_config(c), r#"{"a":"1","b":[]}"#);
}

#[test]
fn conversions_build_the_right_variant() {
    assert!(matches!(Value::from("t".to_string()), Value::String(t) if t == "t"));
    assert!(matches!(Value::from(vec![text("u")]), Value::List(l) if l.len() == 1));
    let c = Config::from_entries(vec![("k".to_string(), text("v"))]).unwrap();
    assert!(matches!(Value::from(c), Value::Dict(d) if d.len() == 1 && d[0].0 == "k"));
}
