use std::collections::HashMap;

use agentwire::invocation::Invocation;
use agentwire::parser::parse_model_response;
use regex::Regex;

type Found = (String, Option<HashMap<String, String>>, Option<String>);

fn position(chars: &[char], from: usize, wanted: impl Fn(char) -> bool) -> Option<usize> {
    (from..chars.len()).find(|&i| wanted(chars[i]))
}

fn occurrence(chars: &[char], pattern: &[char], from: usize) -> Option<usize> {
    (from..chars.len()).find(|&i| chars[i..].starts_with(pattern))
}

fn tag(pattern: &Regex, chars: &[char], open: usize) -> Option<(Found, usize)> {
    let term = position(chars, open, |c| c == '>' || c == ' ')?;
    let gt = position(chars, open, |c| c == '>')?;
    let name: String = chars[open + 1..term].iter().collect();
    let closing: Vec<char> = format!("</{}>", name).chars().collect();
    let close = occurrence(chars, &closing, open)?;
    let attributes = if chars[term] == ' ' {
        let clause: String = chars[term + 1..gt].iter().collect();
        let mut map = HashMap::new();
        for caps in pattern.captures_iter(&clause) {
            let key = caps.get(2).unwrap().as_str().trim();
            let value = caps.get(3).unwrap().as_str().trim();
            map.insert(key.to_string(), value.to_string());
        }
        Some(map)
    } else {
        None
    };
    let payload = if gt + 1 <= close {
        let body: String = chars[gt + 1..close].iter().collect();
        let body = body.trim();
        if !body.is_empty() && !body.starts_with('<') {
            Some(body.to_string())
        } else {
            None
        }
    } else {
        None
    };
    Some(((name, attributes, payload), close + closing.len()))
}

fn scan(pattern: &Regex, text: &str) -> Vec<Found> {
    let chars: Vec<char> = text.chars().collect();
    let mut found = Vec::new();
    let mut cursor = 0;
    while let Some(open) = position(&chars, cursor, |c| c == '<') {
        match tag(pattern, &chars, open) {
            Some((invocation, end)) => {
                found.push(invocation);
                cursor = end;
            }
            None => cursor = open + 1,
        }
    }
    found
}

fn plain(invocation: &Invocation) -> Found {
    let attributes = invocation.attributes.as_ref().map(|a| {
        let mut map = HashMap::new();
        let mut i = 0;
        while let Some((key, value)) = a.get_index(i) {
            assert!(map.insert(key.clone(), value.clone()).is_none());
            i += 1;
        }
        map
    });
    (invocation.action.clone(), attributes, invocation.payload.clone())
}

fn agree(pattern: &Regex, text: &str) {
    let ours: Vec<Found> = parse_model_response(text).iter().map(plain).collect();
    assert_eq!(ours, scan(pattern, text), "{:?}", text);
}

fn agree_on_all(alphabet: &[char], longest: usize) -> usize {
    let pattern = Regex::new("(?m)(([^=]+)=\"([^\"]+)\")").unwrap();
    let mut count = 0;
    let mut frontier: Vec<String> = vec![String::new()];
    agree(&pattern, "");
    for _ in 0..longest {
        let mut next = Vec::with_capacity(frontier.len() * alphabet.len());
        for text in &frontier {
            for c in alphabet {
                let mut longer = text.clone();
                longer.push(*c);
                agree(&pattern, &longer);
                count += 1;
                next.push(longer);
            }
        }
        frontier = next;
    }
    count
}

#[test]
fn scanner_agrees_with_a_plain_scan_on_tag_shapes() {
    assert_eq!(agree_on_all(&['<', '>', '/', 'a', ' '], 7), 97655);
}

#[test]
fn scanner_agrees_with_a_plain_scan_on_attribute_shapes() {
    assert_eq!(agree_on_all(&['<', '>', '/', 'a', ' ', '=', '"'], 6), 137256);
}

#[test]
fn scanner_agrees_with_a_plain_scan_on_documents() {
    let pattern = Regex::new("(?m)(([^=]+)=\"([^\"]+)\")").unwrap();
    let pieces = [
        "<a>",
        "</a>",
        "<b k=\"v\">",
        "</b>",
        "<a ",
        "x",
        " ",
        "\n",
        "k=\"v\" ",
        "<",
        ">",
        "é",
    ];
    let mut frontier: Vec<String> = vec![String::new()];
    let mut count = 0;
    for _ in 0..4 {
        let mut next = Vec::new();
        for text in &frontier {
            for piece in pieces {
                let longer = format!("{}{}", text, piece);
                agree(&pattern, &longer);
                count += 1;
                next.push(longer);
            }
        }
        frontier = next;
    }
    assert_eq!(count, 12 + 144 + 1728 + 20736);
}
