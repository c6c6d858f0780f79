use rust_express::helpers::{
    body_from_document, decode_or_keep, flatten_members, is_form, parse_body,
    parse_dynamic_url_params, parse_query_params, split_pairs, JsonMember,
};
use rust_express::params::Params;
use rust_express::request::{parse_head, parse_request_data, parse_request_text, Request};

fn value(p: &Params, key: &str) -> Option<String> {
    p.get(key).cloned()
}

fn member(key: &str, text: Option<&str>, json: &str) -> JsonMember {
    JsonMember { key: key.to_string(), text: text.map(|t| t.to_string()), json: json.to_string() }
}

fn pair(k: &str, v: &str) -> (String, String) {
    (k.to_string(), v.to_string())
}

#[test]
fn default_request_fields() {
    let r = Request::new();
    assert_eq!(r.method, "GET");
    assert_eq!(r.route, "/");
    assert_eq!(r.host, "");
    assert_eq!(r.user_agent, "");
    assert_eq!(r.accept, "");
    assert_eq!(r.connection, "keep-alive");
    assert_eq!(r.raw, "");
    assert_eq!(r.content_length, 0);
    assert!(r.body.is_empty());
    assert!(r.query.is_empty());
    assert!(r.params.is_empty());
}

#[test]
fn form_body_in_either_order() {
    let a = parse_body("a=1&b=2");
    let b = parse_body("b=2&a=1");
    assert_eq!(a.len(), 2);
    assert_eq!(b.len(), 2);
    assert_eq!(value(&a, "a"), Some("1".to_string()));
    assert_eq!(value(&a, "b"), Some("2".to_string()));
    assert_eq!(value(&b, "a"), Some("1".to_string()));
    assert_eq!(value(&b, "b"), Some("2".to_string()));
}

#[test]
fn form_body_is_percent_decoded() {
    let p = parse_body("a%20b=c%26d&x=y");
    assert_eq!(p.len(), 2);
    assert_eq!(value(&p, "a b"), Some("c&d".to_string()));
    assert_eq!(value(&p, "x"), Some("y".to_string()));
}

#[test]
fn undecodable_text_is_kept() {
    assert_eq!(decode_or_keep("%ff"), "%ff");
    assert_eq!(decode_or_keep("a%2Fb"), "a/b");
    assert_eq!(decode_or_keep("a+b"), "a+b");
    assert_eq!(decode_or_keep("plain"), "plain");
}

#[test]
fn later_pair_overrides_earlier() {
    let p = parse_query_params("a=1&b=2&a=3");
    assert_eq!(p.len(), 2);
    assert_eq!(value(&p, "a"), Some("3".to_string()));
    assert_eq!(value(&p, "b"), Some("2".to_string()));
}

#[test]
fn pairs_split_at_first_equals_sign() {
    assert_eq!(split_pairs("a=b=c&d&e=&=f"), vec![pair("a", "b=c"), pair("e", ""), pair("", "f")]);
    assert_eq!(split_pairs(""), Vec::<(String, String)>::new());
    assert_eq!(split_pairs("a=1&"), vec![pair("a", "1")]);
}

#[test]
fn empty_query_gives_empty_mapping() {
    assert!(parse_query_params("").is_empty());
    assert!(parse_query_params("novalue").is_empty());
}

#[test]
fn json_object_body_is_flattened() {
    let p = parse_body("{\"name\":\"x\",\"n\":1,\"ok\":true,\"inner\":{\"k\":[1,2]}}");
    assert_eq!(p.len(), 4);
    assert_eq!(value(&p, "name"), Some("x".to_string()));
    assert_eq!(value(&p, "n"), Some("1".to_string()));
    assert_eq!(value(&p, "ok"), Some("true".to_string()));
    assert_eq!(value(&p, "inner"), Some("{\"k\":[1,2]}".to_string()));
}

#[test]
fn json_body_that_is_no_object_is_kept_whole() {
    let p = parse_body("[1,2]");
    assert_eq!(p.len(), 1);
    assert_eq!(value(&p, "body"), Some("[1,2]".to_string()));
    let q = parse_body("42");
    assert_eq!(q.len(), 1);
    assert_eq!(value(&q, "body"), Some("42".to_string()));
    let s = parse_body("\"text\"");
    assert_eq!(value(&s, "body"), Some("\"text\"".to_string()));
}

#[test]
fn json_object_members() {
    let p = parse_body("{\"n\":1,\"ok\":true,\"s\":\"x\"}");
    assert_eq!(p.len(), 3);
    assert_eq!(value(&p, "n"), Some("1".to_string()));
    assert_eq!(value(&p, "ok"), Some("true".to_string()));
    assert_eq!(value(&p, "s"), Some("x".to_string()));
    assert!(parse_body("{}").is_empty());
}

#[test]
fn members_are_flattened() {
    let members = vec![
        member("s", Some("x"), "\"x\""),
        member("n", None, "1"),
        member("e", Some(""), "\"\""),
    ];
    assert_eq!(flatten_members(&members), vec![pair("s", "x"), pair("n", "1"), pair("e", "")]);
    assert_eq!(flatten_members(&Vec::new()), Vec::<(String, String)>::new());
}

#[test]
fn other_body_is_kept_whole() {
    let p = parse_body("hello there");
    assert_eq!(p.len(), 1);
    assert_eq!(value(&p, "body"), Some("hello there".to_string()));
    let q = parse_body("a=1");
    assert_eq!(q.len(), 1);
    assert_eq!(value(&q, "body"), Some("a=1".to_string()));
    let e = parse_body("");
    assert_eq!(value(&e, "body"), Some("".to_string()));
}

#[test]
fn form_needs_both_signs() {
    assert!(is_form("a=1&b=2"));
    assert!(!is_form("a=1"));
    assert!(!is_form("a&b"));
    assert!(!is_form(""));
}

#[test]
fn body_from_each_kind_of_document() {
    let members = vec![member("k", None, "1"), member("k", Some("2"), "\"2\""), member("j", None, "3")];
    let p = body_from_document("ignored", Some(Some(members)));
    assert_eq!(p.len(), 2);
    assert_eq!(value(&p, "k"), Some("2".to_string()));
    assert_eq!(value(&p, "j"), Some("3".to_string()));
    let other = body_from_document("[1,2]", Some(None));
    assert_eq!(other.len(), 1);
    assert_eq!(value(&other, "body"), Some("[1,2]".to_string()));
    let raw = body_from_document("raw text", None);
    assert_eq!(value(&raw, "body"), Some("raw text".to_string()));
}

#[test]
fn path_parameters_take_the_next_segment() {
    let p = parse_dynamic_url_params("/users/:id/42/:tab/posts");
    assert_eq!(p.len(), 2);
    assert_eq!(value(&p, "id"), Some("42".to_string()));
    assert_eq!(value(&p, "tab"), Some("posts".to_string()));
}

#[test]
fn path_parameter_without_a_next_segment_is_dropped() {
    assert!(parse_dynamic_url_params("/users/:id").is_empty());
    assert!(parse_dynamic_url_params("/users/42").is_empty());
    assert!(parse_dynamic_url_params("").is_empty());
    let p = parse_dynamic_url_params("/::id/");
    assert_eq!(value(&p, "id"), Some("".to_string()));
}

#[test]
fn full_request_is_decoded() {
    let text = "POST /submit?x=1&y=two%20words HTTP/1.1\r\nHost: example.org\r\nUser-Agent: curl/8\r\nAccept: */*\r\nConnection: close\r\nContent-Length: 7\r\nX-Other: ignored\r\n\r\na=1&b=2";
    let r = parse_request_text(text);
    assert_eq!(r.method, "POST");
    assert_eq!(r.route, "/submit");
    assert_eq!(r.host, "example.org");
    assert_eq!(r.user_agent, "curl/8");
    assert_eq!(r.accept, "*/*");
    assert_eq!(r.connection, "close");
    assert_eq!(r.content_length, 7);
    assert_eq!(r.raw, text);
    assert_eq!(r.query.len(), 2);
    assert_eq!(value(&r.query, "x"), Some("1".to_string()));
    assert_eq!(value(&r.query, "y"), Some("two words".to_string()));
    assert_eq!(r.body.len(), 2);
    assert_eq!(value(&r.body, "a"), Some("1".to_string()));
    assert_eq!(value(&r.body, "b"), Some("2".to_string()));
    assert!(r.params.is_empty());
}

#[test]
fn header_names_ignore_case_and_later_headers_win() {
    let r = parse_request_text("GET / HTTP/1.1\r\nHOST: a\r\nhost: b\r\nuSeR-aGeNt: ua\r\nCONTENT-LENGTH: +12\r\n\r\n");
    assert_eq!(r.host, "b");
    assert_eq!(r.user_agent, "ua");
    assert_eq!(r.content_length, 12);
    assert_eq!(r.connection, "keep-alive");
}

#[test]
fn malformed_input_degrades_to_defaults() {
    let r = parse_request_text("");
    assert_eq!(r.method, "GET");
    assert_eq!(r.route, "/");
    assert!(r.body.is_empty());
    assert!(r.query.is_empty());
    let s = parse_request_text("   \r\nContent-Length: many\r\nHost\r\nAccept:nospace\r\n");
    assert_eq!(s.method, "GET");
    assert_eq!(s.route, "/");
    assert_eq!(s.content_length, 0);
    assert_eq!(s.host, "");
    assert_eq!(s.accept, "");
    let t = parse_request_text("DELETE");
    assert_eq!(t.method, "DELETE");
    assert_eq!(t.route, "/");
    let u = parse_request_text("GET nopath?x=1 HTTP/1.1\r\n\r\n");
    assert_eq!(u.route, "/");
    assert_eq!(value(&u.query, "x"), Some("1".to_string()));
}

#[test]
fn content_length_out_of_range_counts_as_zero() {
    let r = parse_request_text("GET / HTTP/1.1\r\nContent-Length: 99999999999999999999999999\r\n\r\n");
    assert_eq!(r.content_length, 0);
    let s = parse_request_text("GET / HTTP/1.1\r\nContent-Length: 18446744073709551615\r\n\r\n");
    assert_eq!(s.content_length as u128, 18446744073709551615u128 & (usize::MAX as u128));
    let t = parse_request_text("GET / HTTP/1.1\r\nContent-Length: -1\r\n\r\n");
    assert_eq!(t.content_length, 0);
    let u = parse_request_text("GET / HTTP/1.1\r\nContent-Length: 12 \r\n\r\n");
    assert_eq!(u.content_length, 0);
}

#[test]
fn head_cuts_query_and_body() {
    let h = parse_head("PUT\t/a/b?k=v#frag  HTTP/1.1\r\nHost: h\r\n\r\nline one\r\n\r\nline two");
    assert_eq!(h.request.method, "PUT");
    assert_eq!(h.request.route, "/a/b");
    assert_eq!(h.request.host, "h");
    assert_eq!(h.query, "k=v#frag");
    assert_eq!(h.body, "line one\r\n\r\nline two");
    assert!(h.request.query.is_empty());
    assert!(h.request.body.is_empty());
    let none = parse_head("GET / HTTP/1.1\r\nHost: h");
    assert_eq!(none.request.host, "h");
    assert_eq!(none.body, "");
    assert_eq!(none.query, "");
}

#[test]
fn headers_after_the_empty_line_are_body() {
    let r = parse_request_text("GET / HTTP/1.1\r\n\r\nHost: late");
    assert_eq!(r.host, "");
    assert_eq!(value(&r.body, "body"), Some("Host: late".to_string()));
}

#[test]
fn json_request_body() {
    let r = parse_request_text("POST /j HTTP/1.1\r\nHost: h\r\n\r\n{\"a\":\"b \\\"c\\\"\",\"n\":null}");
    assert_eq!(r.body.len(), 2);
    assert_eq!(value(&r.body, "a"), Some("b \"c\"".to_string()));
    assert_eq!(value(&r.body, "n"), Some("null".to_string()));
}

#[test]
fn bytes_that_are_no_text_are_replaced() {
    let mut data = b"GET /x HTTP/1.1\r\nHost: a".to_vec();
    data.push(0xff);
    data.extend_from_slice(b"b\r\n\r\n");
    let r = parse_request_data(&data);
    assert_eq!(r.method, "GET");
    assert_eq!(r.route, "/x");
    assert_eq!(r.host, "a\u{fffd}b");
    let plain = parse_request_data(b"PATCH /p HTTP/1.1\r\n\r\n");
    assert_eq!(plain.method, "PATCH");
    assert_eq!(plain.route, "/p");
}

#[test]
fn params_keep_one_entry_per_key() {
    let mut p = Params::new();
    p.insert("a".to_string(), "1".to_string());
    p.insert("b".to_string(), "2".to_string());
    p.insert("a".to_string(), "3".to_string());
    assert_eq!(p.len(), 2);
    assert_eq!(p.key_at(0), "a");
    assert_eq!(p.value_at(0), "3");
    assert_eq!(p.key_at(1), "b");
    assert_eq!(p.position("b"), 1);
    assert_eq!(p.position("zz"), 2);
    assert!(p.contains_key("a"));
    assert!(!p.contains_key("c"));
    assert_eq!(value(&p, "c"), None);
    let q = p.clone();
    assert_eq!(q.len(), 2);
    assert_eq!(value(&q, "a"), Some("3".to_string()));
    let r = Params::from_pairs(&vec![pair("x", "1"), pair("x", "2")]);
    assert_eq!(r.len(), 1);
    assert_eq!(value(&r, "x"), Some("2".to_string()));
}

#[test]
fn request_with_other_params() {
    let r = parse_request_text("GET /a HTTP/1.1\r\nHost: h\r\n\r\n");
    let mut p = Params::new();
    p.insert("id".to_string(), "7".to_string());
    let s = r.with_params(p);
    assert_eq!(s.route, "/a");
    assert_eq!(s.host, "h");
    assert_eq!(value(&s.params, "id"), Some("7".to_string()));
}

#[test]
fn text_that_begins_with_a_line_break() {
    let r = parse_request_text("\r\nHost: x\r\n\r\nbody text");
    assert_eq!(r.method, "GET");
    assert_eq!(r.route, "/");
    assert_eq!(r.host, "x");
    assert_eq!(value(&r.body, "body"), Some("body text".to_string()));
    let s = parse_request_text("\r\n\r\nHost: x");
    assert_eq!(s.host, "");
    assert_eq!(value(&s.body, "body"), Some("Host: x".to_string()));
}

#[test]
fn request_without_a_body_has_an_empty_body_mapping() {
    let r = parse_request_text("GET /a?b=c HTTP/1.1\r\nHost: h\r\n\r\n");
    assert!(r.body.is_empty());
    assert_eq!(r.query.len(), 1);
    let s = parse_request_text("GET /a HTTP/1.1");
    assert!(s.body.is_empty());
    assert!(s.query.is_empty());
}

#[test]
fn target_with_an_empty_query() {
    let r = parse_request_text("GET /a? HTTP/1.1\r\n\r\n");
    assert_eq!(r.route, "/a");
    assert!(r.query.is_empty());
    let s = parse_request_text("GET /a?x=1?y=2 HTTP/1.1\r\n\r\n");
    assert_eq!(s.route, "/a");
    assert_eq!(value(&s.query, "x"), Some("1?y=2".to_string()));
}

#[test]
fn form_bodies_in_every_order_of_three_pairs() {
    let pairs = ["a=1", "b=two", "c%20d=3%264"];
    let orders = [[0, 1, 2], [0, 2, 1], [1, 0, 2], [1, 2, 0], [2, 0, 1], [2, 1, 0]];
    for order in orders {
        let body = format!("{}&{}&{}", pairs[order[0]], pairs[order[1]], pairs[order[2]]);
        let p = parse_body(&body);
        assert_eq!(p.len(), 3);
        assert_eq!(value(&p, "a"), Some("1".to_string()));
        assert_eq!(value(&p, "b"), Some("two".to_string()));
        assert_eq!(value(&p, "c d"), Some("3&4".to_string()));
    }
}

#[test]
fn keys_that_decode_alike_are_one_key() {
    let first = parse_body("a=1&%61=2");
    let second = parse_body("%61=2&a=1");
    assert_eq!(first.len(), 1);
    assert_eq!(value(&first, "a"), Some("2".to_string()));
    assert_eq!(second.len(), 1);
    assert_eq!(value(&second, "a"), Some("1".to_string()));
}

#[test]
fn valid_utf8_is_read_as_it_is() {
    let r = parse_request_data("GET /caf\u{e9} HTTP/1.1\r\nHost: h\u{f6}st\r\n\r\n".as_bytes());
    assert_eq!(r.route, "/caf\u{e9}");
    assert_eq!(r.host, "h\u{f6}st");
}
