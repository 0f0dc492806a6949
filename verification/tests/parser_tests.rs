use agentwire::invocation::Invocation;
use agentwire::parser::find_matching_close;
use agentwire::parser::find_name_terminator;
use agentwire::parser::find_pair;
use agentwire::parser::find_tag_open;
use agentwire::parser::parse_attributes;
use agentwire::parser::parse_chars;
use agentwire::parser::parse_model_response;
use agentwire::parser::parse_tag;

fn chars(text: &str) -> Vec<char> {
    text.chars().collect()
}

fn attribute(invocation: &Invocation, key: &str) -> Option<String> {
    invocation.attributes.as_ref().and_then(|a| a.get(key).cloned())
}

fn attribute_count(invocation: &Invocation) -> Option<usize> {
    invocation.attributes.as_ref().map(|a| a.len())
}

#[test]
fn single_invocation_with_attribute_and_payload() {
    let found = parse_model_response("<a k=\"v\">p</a>");
    assert_eq!(found.len(), 1);
    assert_eq!(found[0].action, "a");
    assert_eq!(attribute_count(&found[0]), Some(1));
    assert_eq!(attribute(&found[0], "k"), Some("v".to_string()));
    assert_eq!(found[0].payload, Some("p".to_string()));
}

#[test]
fn empty_input_gives_nothing() {
    assert_eq!(parse_model_response("").len(), 0);
}

#[test]
fn text_without_tag_open_gives_nothing() {
    assert_eq!(parse_model_response("no tags here, only a > b and words").len(), 0);
}

#[test]
fn lone_tag_open_gives_nothing() {
    assert_eq!(parse_model_response("<").len(), 0);
    assert_eq!(parse_model_response("a < b").len(), 0);
    assert_eq!(parse_model_response("<<<<").len(), 0);
}

#[test]
fn unterminated_tags_give_nothing() {
    assert_eq!(parse_model_response("<a>payload").len(), 0);
    assert_eq!(parse_model_response("<a k=\"v\"").len(), 0);
    assert_eq!(parse_model_response("<a").len(), 0);
    assert_eq!(parse_model_response("<a>x</a").len(), 0);
    assert_eq!(parse_model_response("<a>x</b>").len(), 0);
}

#[test]
fn scanning_goes_on_behind_an_unterminated_tag() {
    let found = parse_model_response("<broken <ok>fine</ok>");
    assert_eq!(found.len(), 1);
    assert_eq!(found[0].action, "ok");
    assert_eq!(found[0].payload, Some("fine".to_string()));
    let found = parse_model_response("<<a>x</a>");
    assert_eq!(found.len(), 1);
    assert_eq!(found[0].action, "a");
    assert_eq!(found[0].payload, Some("x".to_string()));
}

#[test]
fn nested_tag_is_not_recovered() {
    let found = parse_model_response("<a><b>x</b></a>");
    assert_eq!(found.len(), 1);
    assert_eq!(found[0].action, "a");
    assert!(found[0].attributes.is_none());
    assert_eq!(found[0].payload, None);
}

#[test]
fn payload_that_begins_with_a_tag_behind_white_space_is_absent() {
    let found = parse_model_response("<a> <b>x</b> </a>");
    assert_eq!(found.len(), 1);
    assert_eq!(found[0].action, "a");
    assert_eq!(found[0].payload, None);
}

#[test]
fn invocations_in_a_row_are_all_found() {
    let found = parse_model_response("<a>x</a><b>y</b>");
    assert_eq!(found.len(), 2);
    assert_eq!(found[0].action, "a");
    assert_eq!(found[0].payload, Some("x".to_string()));
    assert_eq!(found[1].action, "b");
    assert_eq!(found[1].payload, Some("y".to_string()));
}

#[test]
fn cursor_moves_exactly_behind_the_closing_tag() {
    let found = parse_model_response("<aaaaaaaaaa>x</aaaaaaaaaa><b>y</b>");
    assert_eq!(found.len(), 2);
    assert_eq!(found[0].action, "aaaaaaaaaa");
    assert_eq!(found[1].action, "b");
    assert_eq!(found[1].payload, Some("y".to_string()));
}

#[test]
fn invocation_inside_prose() {
    let found = parse_model_response("I will list the files.\n<shell>ls -la</shell>\nThen I stop.");
    assert_eq!(found.len(), 1);
    assert_eq!(found[0].action, "shell");
    assert!(found[0].attributes.is_none());
    assert_eq!(found[0].payload, Some("ls -la".to_string()));
}

#[test]
fn payload_is_trimmed() {
    let found = parse_model_response("<a>  \n hi there \t\n</a>");
    assert_eq!(found.len(), 1);
    assert_eq!(found[0].payload, Some("hi there".to_string()));
}

#[test]
fn empty_and_blank_payloads_are_absent() {
    let found = parse_model_response("<a></a>");
    assert_eq!(found.len(), 1);
    assert_eq!(found[0].payload, None);
    let found = parse_model_response("<a>   \n </a>");
    assert_eq!(found.len(), 1);
    assert_eq!(found[0].payload, None);
}

#[test]
fn closing_tag_inside_the_opening_tag_leaves_no_payload() {
    let found = parse_model_response("<a </a>");
    assert_eq!(found.len(), 1);
    assert_eq!(found[0].action, "a");
    assert_eq!(attribute_count(&found[0]), Some(0));
    assert_eq!(found[0].payload, None);
}

#[test]
fn name_ended_by_a_space_gives_attributes_even_if_empty() {
    let found = parse_model_response("<a >x</a>");
    assert_eq!(found.len(), 1);
    assert_eq!(attribute_count(&found[0]), Some(0));
    assert_eq!(found[0].payload, Some("x".to_string()));
}

#[test]
fn several_attributes_in_order() {
    let found = parse_model_response("<go to=\"north\" speed=\"3\" mode=\"quiet\">now</go>");
    assert_eq!(found.len(), 1);
    let attributes = found[0].attributes.as_ref().unwrap();
    assert_eq!(attributes.len(), 3);
    let first = attributes.get_index(0).unwrap();
    assert_eq!((first.0.as_str(), first.1.as_str()), ("to", "north"));
    let second = attributes.get_index(1).unwrap();
    assert_eq!((second.0.as_str(), second.1.as_str()), ("speed", "3"));
    let third = attributes.get_index(2).unwrap();
    assert_eq!((third.0.as_str(), third.1.as_str()), ("mode", "quiet"));
    assert!(attributes.get_index(3).is_none());
}

#[test]
fn later_duplicate_key_overwrites_earlier() {
    let found = parse_model_response("<a k=\"1\" j=\"x\" k=\"2\">p</a>");
    assert_eq!(found.len(), 1);
    assert_eq!(attribute_count(&found[0]), Some(2));
    assert_eq!(attribute(&found[0], "k"), Some("2".to_string()));
    assert_eq!(attribute(&found[0], "j"), Some("x".to_string()));
    let attributes = found[0].attributes.as_ref().unwrap();
    assert_eq!(attributes.get_index(0).unwrap().0.as_str(), "k");
}

#[test]
fn malformed_attribute_is_dropped_and_sibling_still_parses() {
    let found = parse_model_response("<a j=\"w\" k=v>x</a>");
    assert_eq!(found.len(), 1);
    assert_eq!(attribute_count(&found[0]), Some(1));
    assert_eq!(attribute(&found[0], "j"), Some("w".to_string()));
    assert_eq!(attribute(&found[0], "k"), None);
    let found = parse_model_response("<a k=\"\" j=\"w\">x</a>");
    assert_eq!(found.len(), 1);
    assert_eq!(attribute(&found[0], "k"), None);
    assert_eq!(attribute(&found[0], "\"\" j"), Some("w".to_string()));
}

#[test]
fn unquoted_value_joins_the_next_key() {
    let found = parse_model_response("<a k=v j=\"w\">x</a>");
    assert_eq!(found.len(), 1);
    assert_eq!(attribute_count(&found[0]), Some(1));
    assert_eq!(attribute(&found[0], "v j"), Some("w".to_string()));
}

#[test]
fn attribute_keys_and_values_are_trimmed_outside_only() {
    let found = parse_model_response("<a  my key=\"  some value \" >x</a>");
    assert_eq!(found.len(), 1);
    assert_eq!(attribute_count(&found[0]), Some(1));
    assert_eq!(attribute(&found[0], "my key"), Some("some value".to_string()));
}

#[test]
fn empty_name_is_a_name() {
    let found = parse_model_response("<>x</>");
    assert_eq!(found.len(), 1);
    assert_eq!(found[0].action, "");
    assert_eq!(found[0].payload, Some("x".to_string()));
}

#[test]
fn unknown_names_pass_through() {
    let found = parse_model_response("<no-such.action_42>x</no-such.action_42>");
    assert_eq!(found.len(), 1);
    assert_eq!(found[0].action, "no-such.action_42");
}

#[test]
fn text_beyond_ascii_is_scanned_by_character() {
    let found = parse_model_response("préambule <dire à=\"tous\">\u{3000}héllo → wörld\u{2003}</dire> fin");
    assert_eq!(found.len(), 1);
    assert_eq!(found[0].action, "dire");
    assert_eq!(attribute(&found[0], "à"), Some("tous".to_string()));
    assert_eq!(found[0].payload, Some("héllo → wörld".to_string()));
}

#[test]
fn first_closing_tag_ends_the_invocation() {
    let found = parse_model_response("<a>x</a>y</a>");
    assert_eq!(found.len(), 1);
    assert_eq!(found[0].payload, Some("x".to_string()));
}

#[test]
fn find_tag_open_steps() {
    let text = chars("ab<cd<");
    assert_eq!(find_tag_open(&text, 0), Some(2));
    assert_eq!(find_tag_open(&text, 2), Some(2));
    assert_eq!(find_tag_open(&text, 3), Some(5));
    assert_eq!(find_tag_open(&text, 6), None);
    assert_eq!(find_tag_open(&text, 100), None);
}

#[test]
fn find_name_terminator_steps() {
    assert_eq!(find_name_terminator(&chars("<name attr>"), 0), Some(5));
    assert_eq!(find_name_terminator(&chars("<name>"), 0), Some(5));
    assert_eq!(find_name_terminator(&chars("<name"), 0), None);
    assert_eq!(find_name_terminator(&chars(""), 0), None);
}

#[test]
fn find_matching_close_steps() {
    let text = chars("<ab>x</a></ab>");
    assert_eq!(find_matching_close(&text, &chars("ab"), 0), Some(9));
    assert_eq!(find_matching_close(&text, &chars("ab"), 9), Some(9));
    assert_eq!(find_matching_close(&text, &chars("ab"), 10), None);
    assert_eq!(find_matching_close(&text, &chars("a"), 0), Some(5));
    assert_eq!(find_matching_close(&text, &chars(""), 0), None);
    let truncated = chars("<ab>x</ab");
    assert_eq!(find_matching_close(&truncated, &chars("ab"), 0), None);
}

#[test]
fn find_pair_steps() {
    let clause = chars("k=\"v\" j=\"w\"");
    assert_eq!(find_pair(&clause, 0), Some((0, 1, 4)));
    assert_eq!(find_pair(&clause, 5), Some((5, 7, 10)));
    assert_eq!(find_pair(&clause, 11), None);
    assert_eq!(find_pair(&chars("==k=\"v\""), 0), Some((2, 3, 6)));
    assert_eq!(find_pair(&chars("k=\"v"), 0), None);
    assert_eq!(find_pair(&chars("k=\"\""), 0), None);
    assert_eq!(find_pair(&chars("k"), 0), None);
}

#[test]
fn parse_tag_gives_the_end_of_the_closing_tag() {
    let text = chars("..<a k=\"v\">p</a>..");
    let (invocation, end) = parse_tag(&text, 2).unwrap();
    assert_eq!(invocation.action, "a");
    assert_eq!(invocation.payload, Some("p".to_string()));
    assert_eq!(end, 16);
    assert!(parse_tag(&text, 0).is_none());
    assert!(parse_tag(&text, 12).is_none());
    assert!(parse_tag(&text, 99).is_none());
}

#[test]
fn parse_chars_agrees_with_parse_model_response() {
    let text = "x <a k=\"v\">p</a> y <b>q</b>";
    let by_chars = parse_chars(&chars(text));
    let by_text = parse_model_response(text);
    assert_eq!(by_chars.len(), 2);
    assert_eq!(by_text.len(), 2);
    assert_eq!(by_chars[0].action, by_text[0].action);
    assert_eq!(by_chars[1].payload, by_text[1].payload);
}

#[test]
fn parse_attributes_of_an_empty_clause() {
    assert_eq!(parse_attributes(&chars("")).len(), 0);
    assert_eq!(parse_attributes(&chars("   ")).len(), 0);
    assert!(parse_attributes(&chars("")).is_empty());
}

#[test]
fn every_prefix_of_a_document_is_accepted() {
    let document = "a <x k=\"v\" j=\"w\"> body </x> b <y>1</y><z q=\"\">2</z> <w <v>3</v>";
    let all: Vec<char> = document.chars().collect();
    for cut in 0..=all.len() {
        let prefix: String = all[..cut].iter().collect();
        let found = parse_model_response(&prefix);
        assert!(found.len() <= 4);
    }
    assert_eq!(parse_model_response(document).len(), 4);
}
