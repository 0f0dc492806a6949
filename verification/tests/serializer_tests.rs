use agentwire::invocation::Attributes;
use agentwire::invocation::Invocation;
use agentwire::parser::parse_model_response;
use agentwire::serializer::push_text;
use agentwire::serializer::render_tag;
use agentwire::serializer::serialize_action;
use agentwire::serializer::serialize_invocation;
use agentwire::serializer::Action;

fn attributes(pairs: &[(&str, &str)]) -> Attributes {
    let mut attributes = Attributes::new();
    for (key, value) in pairs {
        attributes.insert(key.to_string(), value.to_string());
    }
    attributes
}

fn same_attributes(a: &Option<Attributes>, b: &Option<Attributes>) -> bool {
    match (a, b) {
        (None, None) => true,
        (Some(a), Some(b)) => {
            a.len() == b.len() && (0..a.len()).all(|i| a.get_index(i) == b.get_index(i))
        }
        _ => false,
    }
}

fn round_trips(invocation: &Invocation) -> bool {
    let found = parse_model_response(&serialize_invocation(invocation));
    found.len() == 1 && found[0].action == invocation.action
        && same_attributes(&found[0].attributes, &invocation.attributes)
        && found[0].payload == invocation.payload
}

fn shell() -> Box<dyn Action> {
    Box::new(Invocation::new(
        "shell".to_string(),
        Some(attributes(&[("timeout", "30"), ("cwd", "/tmp")])),
        Some("ls -la".to_string()),
    ))
}

fn stop() -> Box<dyn Action> {
    Box::new(Invocation::new("stop".to_string(), None, None))
}

#[test]
fn invocation_with_attribute_and_payload() {
    let invocation = Invocation::new(
        "a".to_string(),
        Some(attributes(&[("k", "v")])),
        Some("p".to_string()),
    );
    assert_eq!(serialize_invocation(&invocation), "<a k=\"v\">p</a>");
}

#[test]
fn invocation_without_attributes_and_payload() {
    let invocation = Invocation::new("a".to_string(), None, None);
    assert_eq!(serialize_invocation(&invocation), "<a></a>");
}

#[test]
fn invocation_with_empty_attributes_has_no_clause() {
    let invocation = Invocation::new("a".to_string(), Some(Attributes::new()), Some("p".to_string()));
    assert_eq!(serialize_invocation(&invocation), "<a>p</a>");
}

#[test]
fn attributes_are_written_in_their_order() {
    let invocation = Invocation::new(
        "go".to_string(),
        Some(attributes(&[("to", "north"), ("speed", "3"), ("to", "south")])),
        None,
    );
    assert_eq!(serialize_invocation(&invocation), "<go to=\"south\" speed=\"3\"></go>");
}

#[test]
fn values_are_written_without_escaping() {
    let invocation = Invocation::new(
        "say".to_string(),
        Some(attributes(&[("q", "a \"quoted\" <word>")])),
        Some("1 < 2 & 3 > 2".to_string()),
    );
    assert_eq!(
        serialize_invocation(&invocation),
        "<say q=\"a \"quoted\" <word>\">1 < 2 & 3 > 2</say>"
    );
}

#[test]
fn render_tag_puts_the_parts_together() {
    let pairs = attributes(&[("k", "v"), ("j", "w")]);
    assert_eq!(render_tag("t", Some(&pairs), Some("body")), "<t k=\"v\" j=\"w\">body</t>");
    assert_eq!(render_tag("t", None, Some("body")), "<t>body</t>");
    assert_eq!(render_tag("t", Some(&pairs), None), "<t k=\"v\" j=\"w\"></t>");
    assert_eq!(render_tag("", None, None), "<></>");
}

#[test]
fn push_text_appends() {
    let mut out = String::from("ab");
    push_text(&mut out, "cd→");
    push_text(&mut out, "");
    assert_eq!(out, "abcd→");
}

#[test]
fn action_with_example_attributes_and_payload() {
    assert_eq!(serialize_action(&shell()), "<shell timeout=\"30\" cwd=\"/tmp\">ls -la</shell>");
}

#[test]
fn action_without_attributes_and_payload() {
    assert_eq!(serialize_action(&stop()), "<stop></stop>");
}

#[test]
fn action_with_one_attribute() {
    let action: Box<dyn Action> = Box::new(Invocation::new(
        "read".to_string(),
        Some(attributes(&[("path", "/tmp/x")])),
        Some("hello".to_string()),
    ));
    assert_eq!(serialize_action(&action), "<read path=\"/tmp/x\">hello</read>");
}

#[test]
fn action_accessors_give_what_the_example_holds() {
    let action = shell();
    assert_eq!(action.name(), "shell");
    assert_eq!(action.example_payload(), Some("ls -la"));
    let pairs = action.attributes().unwrap();
    assert_eq!(pairs.len(), 2);
    assert_eq!(pairs.get("timeout"), Some(&"30".to_string()));
    assert_eq!(pairs.get("cwd"), Some(&"/tmp".to_string()));
    let bare = stop();
    assert_eq!(bare.name(), "stop");
    assert!(bare.attributes().is_none());
    assert_eq!(bare.example_payload(), None);
}

#[test]
fn action_text_is_the_text_of_its_example() {
    let samples = vec![
        Invocation::new("a".to_string(), None, None),
        Invocation::new("a".to_string(), Some(attributes(&[("k", "v")])), Some("p".to_string())),
        Invocation::new("a".to_string(), Some(Attributes::new()), Some("x < y".to_string())),
        Invocation::new(
            "go".to_string(),
            Some(attributes(&[("to", "north"), ("speed", "3"), ("mode", "a \"b\"")])),
            None,
        ),
    ];
    for example in samples {
        let expected = serialize_invocation(&example);
        let action: Box<dyn Action> = Box::new(example);
        assert_eq!(serialize_action(&action), expected);
    }
}

#[test]
fn duplicate_of_attributes_holds_the_same_pairs() {
    let pairs = attributes(&[("to", "north"), ("speed", "3")]);
    let copy = pairs.duplicate();
    assert_eq!(copy.len(), 2);
    assert_eq!(copy.get_index(0), pairs.get_index(0));
    assert_eq!(copy.get_index(1), pairs.get_index(1));
    assert_eq!(copy.get_index(2), None);
    assert!(Attributes::new().duplicate().is_empty());
}

#[test]
fn actions_of_a_catalogue() {
    let actions: Vec<Box<dyn Action>> = vec![stop(), shell()];
    let texts: Vec<String> = actions.iter().map(serialize_action).collect();
    assert_eq!(texts, vec!["<stop></stop>", "<shell timeout=\"30\" cwd=\"/tmp\">ls -la</shell>"]);
}

#[test]
fn well_formed_invocations_round_trip() {
    let samples = vec![
        Invocation::new("a".to_string(), Some(attributes(&[("k", "v")])), Some("p".to_string())),
        Invocation::new("a".to_string(), None, None),
        Invocation::new("a".to_string(), None, Some("some text\nover lines".to_string())),
        Invocation::new("a".to_string(), Some(attributes(&[("k", "v")])), None),
        Invocation::new(
            "shell".to_string(),
            Some(attributes(&[("timeout", "30"), ("cwd", "/tmp/my dir"), ("my key", "a=b")])),
            Some("ls -la | grep x".to_string()),
        ),
        Invocation::new("".to_string(), None, Some("x".to_string())),
        Invocation::new(
            "dire".to_string(),
            Some(attributes(&[("à", "tous"), ("键", "值")])),
            Some("héllo → wörld".to_string()),
        ),
        Invocation::new("a".to_string(), None, Some("x </b> y".to_string())),
        Invocation::new("a/b".to_string(), Some(attributes(&[("<k", "</v")])), Some("x".to_string())),
    ];
    for invocation in &samples {
        assert!(round_trips(invocation), "{:?}", invocation);
    }
}

#[test]
fn combinations_of_plain_parts_round_trip() {
    let names = ["a", "tool", "x-1", "", "ns:call", "a/b"];
    let keys = ["k", "my key", "é", "<k", "a\"b"];
    let values = ["v", "a=b", "1 2", "</v", "x < y"];
    let payloads = [None, Some("p"), Some("line\nline"), Some("a </b> c"), Some("x=\"y\"")];
    let mut count = 0;
    for name in names {
        for payload in payloads {
            for first in 0..=keys.len() {
                for second in 0..=keys.len() {
                    let mut pairs: Vec<(&str, &str)> = Vec::new();
                    if first < keys.len() {
                        pairs.push((keys[first], values[first]));
                    }
                    if second < keys.len() && second != first {
                        pairs.push((keys[second], values[(second + 1) % values.len()]));
                    }
                    let attributes = if pairs.is_empty() { None } else { Some(attributes(&pairs)) };
                    let invocation =
                        Invocation::new(name.to_string(), attributes, payload.map(|p| p.to_string()));
                    assert!(round_trips(&invocation), "{:?}", invocation);
                    count += 1;
                }
            }
        }
    }
    assert_eq!(count, 6 * 5 * 36);
}

#[test]
fn parsed_invocation_round_trips() {
    let found = parse_model_response("say <a  k=\" v \"  j=\"w\"> p  </a> done");
    assert_eq!(found.len(), 1);
    assert_eq!(serialize_invocation(&found[0]), "<a k=\"v\" j=\"w\">p</a>");
    assert!(round_trips(&found[0]));
}

#[test]
fn invocations_that_are_not_well_formed_do_not_round_trip() {
    let empty_clause = Invocation::new("a".to_string(), Some(Attributes::new()), Some("x".to_string()));
    assert!(!round_trips(&empty_clause));
    let quote_in_value =
        Invocation::new("a".to_string(), Some(attributes(&[("k", "a\"b")])), None);
    assert!(!round_trips(&quote_in_value));
    let closing_tag_in_payload = Invocation::new("a".to_string(), None, Some("x</a>y".to_string()));
    assert!(!round_trips(&closing_tag_in_payload));
    let payload_begins_with_tag = Invocation::new("a".to_string(), None, Some("<b>".to_string()));
    assert!(!round_trips(&payload_begins_with_tag));
    let padded_payload = Invocation::new("a".to_string(), None, Some(" x ".to_string()));
    assert!(!round_trips(&padded_payload));
    let space_in_name = Invocation::new("a b".to_string(), None, Some("x".to_string()));
    assert!(!round_trips(&space_in_name));
    let quote_in_name =
        Invocation::new("\"".to_string(), Some(attributes(&[("k", "</")])), Some("p".to_string()));
    assert!(!round_trips(&quote_in_name));
}

#[test]
fn attributes_behave_as_a_map_that_keeps_order() {
    let mut map = Attributes::new();
    assert!(map.is_empty());
    assert_eq!(map.insert("a".to_string(), "1".to_string()), None);
    assert_eq!(map.insert("b".to_string(), "2".to_string()), None);
    assert_eq!(map.insert("a".to_string(), "3".to_string()), Some("1".to_string()));
    assert_eq!(map.len(), 2);
    assert!(!map.is_empty());
    assert_eq!(map.get("a"), Some(&"3".to_string()));
    assert_eq!(map.get("b"), Some(&"2".to_string()));
    assert_eq!(map.get("c"), None);
    assert_eq!(map.get_index(0), Some((&"a".to_string(), &"3".to_string())));
    assert_eq!(map.get_index(1), Some((&"b".to_string(), &"2".to_string())));
    assert_eq!(map.get_index(2), None);
}
