use urlqstring::{QueryError, QueryParams};

fn pairs(q: &QueryParams) -> Vec<(String, String)> {
    q.iter().cloned().collect()
}

fn owned(v: &[(&str, &str)]) -> Vec<(String, String)> {
    v.iter().map(|(k, x)| (k.to_string(), x.to_string())).collect()
}

#[test]
fn json_of_four_pairs() {
    let q = QueryParams::from_vec(vec![("idx", "1024"), ("name", "lumi"), ("family", "ti=an"), ("love", "")]);
    assert_eq!(q.json(), r#"{"idx":"1024","name":"lumi","family":"ti=an","love":""}"#);
}

#[test]
fn json_of_nothing_and_unescaped_quote() {
    assert_eq!(QueryParams::from_vec(vec![]).json(), "{}");
    let q = QueryParams::from_vec(vec![("a", "x\"y")]);
    assert_eq!(q.json(), "{\"a\":\"x\"y\"}");
}

#[test]
fn stringify_two_pairs() {
    let q = QueryParams::from_vec(vec![("id", "1024"), ("name", "rust")]);
    assert_eq!(q.stringify(), "id=1024&name=rust&");
}

#[test]
fn stringify_keeps_order_duplicates_and_empty_values() {
    let q = QueryParams::from_vec(vec![("b", "2"), ("a", ""), ("b", "x y")]);
    assert_eq!(q.stringify(), "b=2&a&b=x%20y&");
    assert_eq!(QueryParams::from_vec(vec![]).stringify(), "");
}

#[test]
fn replace_key_after_parse() {
    let q = QueryParams::from_str("id=1024&name=rust");
    assert_eq!(q.replace_key("name", "language").stringify(), "id=1024&language=rust&");
    assert_eq!(q.replace_key("none", "x").stringify(), "id=1024&name=rust&");
}

#[test]
fn replace_value_after_parse() {
    let q = QueryParams::from_str("id=1024&name=rust");
    let r = q.replace_value("rust", "rust-lang");
    assert_eq!(r.value("name"), Some("rust-lang"));
    assert_eq!(q.value("name"), Some("rust"));
}

#[test]
fn replace_rewrites_every_match() {
    let q = QueryParams::from_str("a=1&b=1&a=2");
    assert_eq!(pairs(&q.replace_key("a", "c")), owned(&[("c", "1"), ("b", "1"), ("c", "2")]));
    assert_eq!(pairs(&q.replace_value("1", "9")), owned(&[("a", "9"), ("b", "9"), ("a", "2")]));
}

#[test]
fn escape_space_slash_and_unreserved() {
    assert_eq!(QueryParams::escape(" "), "%20");
    assert_eq!(QueryParams::escape("/"), "%2F");
    let kept = "abcXYZ0189*-._'~!()";
    assert_eq!(QueryParams::escape(kept), kept);
    assert_eq!(QueryParams::escape("&="), "%26%3D");
    assert_eq!(QueryParams::escape("度"), "%E5%BA%A6");
    assert_eq!(QueryParams::escape(""), "");
}

#[test]
fn keep_as_and_hex_digits() {
    assert!(QueryParams::keep_as(b'a'));
    assert!(QueryParams::keep_as(b')'));
    assert!(!QueryParams::keep_as(b' '));
    assert!(!QueryParams::keep_as(0xff));
    assert_eq!(QueryParams::to_dec_ascii(0), b'0');
    assert_eq!(QueryParams::to_dec_ascii(9), b'9');
    assert_eq!(QueryParams::to_dec_ascii(10), b'A');
    assert_eq!(QueryParams::to_dec_ascii(15), b'F');
    assert_eq!(QueryParams::to_dec_ascii(16), 127);
}

#[test]
fn batch_mismatch_is_invalid_argument() {
    let q = QueryParams::from_str("id=1024&name=rust");
    assert_eq!(q.replace_keys(&["id", "name"], &["x"]).err(), Some(QueryError::InvalidArgument));
    assert_eq!(q.replace_values(&["rust"], &[]).err(), Some(QueryError::InvalidArgument));
    assert_eq!(q.stringify(), "id=1024&name=rust&");
}

#[test]
fn batch_applies_in_sequence() {
    let q = QueryParams::from_str("a=1&b=2");
    let r = q.replace_keys(&["a", "c"], &["c", "d"]).unwrap();
    assert_eq!(pairs(&r), owned(&[("d", "1"), ("b", "2")]));
    let r = q.replace_values(&["1", "2"], &["2", "3"]).unwrap();
    assert_eq!(pairs(&r), owned(&[("a", "3"), ("b", "3")]));
    let r = q.replace_keys(&[], &[]).unwrap();
    assert_eq!(pairs(&r), owned(&[("a", "1"), ("b", "2")]));
}

#[test]
fn parse_edge_cases() {
    assert_eq!(pairs(&QueryParams::from_str("")), owned(&[("", "")]));
    assert_eq!(pairs(&QueryParams::from_str("a&&b")), owned(&[("a", ""), ("", ""), ("b", "")]));
    assert_eq!(pairs(&QueryParams::from_str("a=1&")), owned(&[("a", "1"), ("", "")]));
    assert_eq!(pairs(&QueryParams::from_str("k=v=w")), owned(&[("k", "v=w")]));
    assert_eq!(pairs(&QueryParams::from_str("=v")), owned(&[("", "v")]));
    assert_eq!(pairs(&QueryParams::from_str(" a = b ")), owned(&[(" a ", " b ")]));
    assert_eq!(pairs(&QueryParams::from_str("k=%20")), owned(&[("k", "%20")]));
}

#[test]
fn parse_then_rejoin_gives_fields() {
    let s = "x=1&y&z=a=b&&";
    let joined: Vec<String> = QueryParams::from_str(s)
        .iter()
        .map(|(k, v)| if v.is_empty() { k.clone() } else { format!("{}={}", k, v) })
        .collect();
    assert_eq!(joined.join("&"), s);
}

#[test]
fn lookup_first_match_wins() {
    let q = QueryParams::from_str("a=1&b=2&a=3");
    assert_eq!(q.value("a"), Some("1"));
    assert_eq!(q.value("b"), Some("2"));
    assert_eq!(q.value("A"), None);
    assert_eq!(q.value(""), None);
    assert_eq!(QueryParams::from_str("").value(""), Some(""));
}

#[test]
fn stringify_of_pairs_renders_each_in_order() {
    let q = QueryParams::from_vec(vec![("k 1", "v/1"), ("k2", "")]);
    assert_eq!(q.stringify(), "k%201=v%2F1&k2&");
}
