//! Decoding of request bodies, query strings and path parameters.

use vstd::prelude::*;
use crate::params::{
    assoc_map, distinct_keys, lemma_order_irrelevant, pairs_of, same_pairs, Pairs, Params,
};
use crate::text::{
    after, before, chars_of, contains, find_from_exec, free_of, lemma_find_from,
    lemma_find_from_is, lemma_split_first, lemma_split_single, matches_at, split, split_all,
    split_once, string_of, trim_start, trim_start_exec, views,
};

verus! {

/// What `urlencoding::decode` makes of a text: the text with each `%XY`
/// escape replaced by the byte it names, read as UTF-8; `None` where those
/// bytes are not UTF-8.
pub uninterp spec fn percent_decoded(text: Seq<char>) -> Option<Seq<char>>;

/// One member of a JSON object: its key, its text where the value is a
/// string, and the JSON text of the value.
#[derive(Clone, Debug)]
pub struct JsonMember {
    pub key: String,
    pub text: Option<String>,
    pub json: String,
}

/// The members that a vector holds, as characters.
pub open spec fn members_of(v: Seq<JsonMember>) -> Seq<(Seq<char>, Option<Seq<char>>, Seq<char>)> {
    Seq::new(
        v.len(),
        |i: int|
            (
                v[i].key@,
                match v[i].text {
                    Some(t) => Some(t@),
                    None => None,
                },
                v[i].json@,
            ),
    )
}

/// What `serde_json` reads in a text: `None` where the text is no JSON
/// document, `Some(None)` where it is one whose top level is no object, else
/// the object's members in the order in which `serde_json` walks them, each
/// with its key, its text where the value is a string, and the JSON text
/// that `serde_json` writes for the value.
pub uninterp spec fn json_object(text: Seq<char>) -> Option<
    Option<Seq<(Seq<char>, Option<Seq<char>>, Seq<char>)>>,
>;

/// No character of `text` is a percent sign.
pub open spec fn percent_free(text: Seq<char>) -> bool {
    forall|i: int| 0 <= i < text.len() ==> text[i] != '%'
}

/// Calls `urlencoding::decode`. The result is the one that the crate computes
/// for this text, and depends on nothing else. A text without a percent sign
/// comes back as it is.
#[verifier::external_body]
fn url_decode(text: &str) -> (r: Option<String>)
    ensures
        r is Some == percent_decoded(text@) is Some,
        r matches Some(t) ==> t@ == percent_decoded(text@)->0,
        r is Some || !percent_free(text@),
        r matches Some(t) ==> (percent_free(text@) ==> t@ == text@),
{
    match urlencoding::decode(text) {
        Ok(decoded) => Some(decoded.into_owned()),
        Err(_) => None,
    }
}

/// Calls `serde_json::from_str` for a `serde_json::Value` and hands out the
/// members of a top-level object, each with what `as_str` and `to_string`
/// give for its value.
#[verifier::external_body]
fn json_document(text: &str) -> (r: Option<Option<Vec<JsonMember>>>)
    ensures
        r is Some == json_object(text@) is Some,
        r matches Some(inner) ==> (inner is Some == json_object(text@)->0 is Some),
        r matches Some(Some(members)) ==> members_of(members@) == json_object(text@)->0->0,
{
    let members = match serde_json::from_str::<serde_json::Value>(text) {
        Ok(serde_json::Value::Object(map)) => map,
        Ok(_) => return Some(None),
        Err(_) => return None,
    };
    let out = members.into_iter().map(
        |(key, v)| JsonMember { text: v.as_str().map(|s| s.to_owned()), json: v.to_string(), key },
    );
    Some(Some(out.collect()))
}

/// A text percent-decoded; kept as it is where decoding fails.
pub open spec fn decoded(text: Seq<char>) -> Seq<char> {
    match percent_decoded(text) {
        Some(t) => t,
        None => text,
    }
}

/// The pair that one piece of a form holds: key and value around its first
/// `=`. A piece without `=` holds none.
pub open spec fn piece_pair(piece: Seq<char>) -> Pairs {
    if contains(piece, seq!['=']) {
        seq![(before(piece, seq!['=']), after(piece, seq!['=']))]
    } else {
        Seq::empty()
    }
}

/// The pairs of the pieces from index `i` on.
pub open spec fn piece_pairs(pieces: Seq<Seq<char>>, i: int) -> Pairs
    decreases pieces.len() - i,
{
    if i < 0 || i >= pieces.len() {
        Seq::empty()
    } else {
        piece_pair(pieces[i]) + piece_pairs(pieces, i + 1)
    }
}

/// The `key=value` pairs of a text whose pieces `&` separates, not yet
/// decoded.
pub open spec fn raw_pairs(text: Seq<char>) -> Pairs {
    piece_pairs(split(text, '&', 0), 0)
}

/// No key and no value of `ps` holds a percent sign.
pub open spec fn percent_free_pairs(ps: Pairs) -> bool {
    forall|i: int| 0 <= i < ps.len() ==> percent_free(#[trigger] ps[i].0) && percent_free(ps[i].1)
}

/// Each key and each value of `ps`, percent-decoded.
pub open spec fn decode_pairs(ps: Pairs) -> Pairs {
    Seq::new(ps.len(), |i: int| (decoded(ps[i].0), decoded(ps[i].1)))
}

/// A key and a value that can stand in a form as they are: neither holds
/// `&` or `=`.
pub open spec fn form_pair(p: (Seq<char>, Seq<char>)) -> bool {
    free_of(p.0, '&') && free_of(p.0, '=') && free_of(p.1, '&') && free_of(p.1, '=')
}

/// One pair as it stands in a form: key, `=`, value.
pub open spec fn pair_text(p: (Seq<char>, Seq<char>)) -> Seq<char> {
    p.0 + seq!['='] + p.1
}

/// The form that holds the pairs from index `i` on, `&` between them.
pub open spec fn form_text(ps: Pairs, i: int) -> Seq<char>
    decreases ps.len() - i,
{
    if i < 0 || i >= ps.len() {
        Seq::empty()
    } else if i == ps.len() - 1 {
        pair_text(ps[i])
    } else {
        pair_text(ps[i]) + seq!['&'] + form_text(ps, i + 1)
    }
}

/// The piece of a pair gives that pair back.
pub proof fn lemma_piece_of_pair(p: (Seq<char>, Seq<char>))
    requires
        free_of(p.0, '='),
    ensures
        piece_pair(pair_text(p)) == seq![p],
{
    let t = pair_text(p);
    let n = p.0.len() as int;
    assert forall|j: int| 0 <= j < n implies !matches_at(t, seq!['='], j) by {
        if matches_at(t, seq!['='], j) {
            assert(t.subrange(j, j + 1)[0] == '=');
        }
    }
    assert(matches_at(t, seq!['='], n)) by {
        assert(t.subrange(n, n + 1) =~= seq!['=']);
    }
    lemma_find_from_is(t, seq!['='], 0, n);
    assert(before(t, seq!['=']) =~= p.0);
    assert(after(t, seq!['=']) =~= p.1);
}

/// The pairs of the pieces behind a first piece are the pairs of the rest.
proof fn lemma_piece_pairs_shift(first: Seq<char>, rest: Seq<Seq<char>>, i: int)
    requires
        0 <= i <= rest.len(),
    ensures
        piece_pairs(seq![first] + rest, i + 1) == piece_pairs(rest, i),
    decreases rest.len() - i,
{
    if i < rest.len() {
        lemma_piece_pairs_shift(first, rest, i + 1);
        assert((seq![first] + rest)[i + 1] == rest[i]);
    }
}

/// A form decodes to the pairs it was made of, in their order.
pub proof fn lemma_form_round_trip(ps: Pairs, i: int)
    requires
        0 <= i < ps.len(),
        forall|j: int| 0 <= j < ps.len() ==> form_pair(#[trigger] ps[j]),
    ensures
        raw_pairs(form_text(ps, i)) == ps.subrange(i, ps.len() as int),
    decreases ps.len() - i,
{
    let t = pair_text(ps[i]);
    assert(form_pair(ps[i]));
    assert(free_of(t, '&'));
    lemma_piece_of_pair(ps[i]);
    if i == ps.len() - 1 {
        lemma_split_single(t, '&');
        assert(piece_pairs(seq![t], 1) =~= Seq::<(Seq<char>, Seq<char>)>::empty());
        assert(piece_pairs(seq![t], 0) =~= seq![ps[i]]);
        assert(ps.subrange(i, ps.len() as int) =~= seq![ps[i]]);
    } else {
        let rest = form_text(ps, i + 1);
        lemma_form_round_trip(ps, i + 1);
        lemma_split_first(t, rest, '&');
        let pieces = split(rest, '&', 0);
        lemma_piece_pairs_shift(t, pieces, 0);
        assert((seq![t] + pieces)[0] == t);
        assert(piece_pairs(seq![t] + pieces, 0) =~= seq![ps[i]] + ps.subrange(
            i + 1,
            ps.len() as int,
        ));
        assert(ps.subrange(i, ps.len() as int) =~= seq![ps[i]] + ps.subrange(
            i + 1,
            ps.len() as int,
        ));
    }
}

/// A form of two or more pairs holds both `=` and `&`.
pub proof fn lemma_form_is_form(ps: Pairs)
    requires
        ps.len() >= 2,
        form_pair(ps[0]),
    ensures
        contains(form_text(ps, 0), seq!['=']),
        contains(form_text(ps, 0), seq!['&']),
{
    let t = form_text(ps, 0);
    let n = ps[0].0.len() as int;
    let m = pair_text(ps[0]).len() as int;
    assert(t == pair_text(ps[0]) + seq!['&'] + form_text(ps, 1));
    assert(matches_at(t, seq!['='], n)) by {
        assert(t.subrange(n, n + 1) =~= seq!['=']);
    }
    assert(matches_at(t, seq!['&'], m)) by {
        assert(t.subrange(m, m + 1) =~= seq!['&']);
    }
    lemma_find_from(t, seq!['='], 0);
    lemma_find_from(t, seq!['&'], 0);
}

/// Two form bodies that hold the same pairs in different orders decode to
/// the same mapping, where the decoded keys are distinct.
pub proof fn lemma_form_order(
    ps: Pairs,
    qs: Pairs,
    first: Option<Option<Seq<(Seq<char>, Option<Seq<char>>, Seq<char>)>>>,
    second: Option<Option<Seq<(Seq<char>, Option<Seq<char>>, Seq<char>)>>>,
)
    requires
        ps.len() >= 2,
        qs.len() >= 2,
        forall|j: int| 0 <= j < ps.len() ==> form_pair(#[trigger] ps[j]),
        forall|j: int| 0 <= j < qs.len() ==> form_pair(#[trigger] qs[j]),
        same_pairs(ps, qs),
        distinct_keys(decode_pairs(ps)),
        distinct_keys(decode_pairs(qs)),
    ensures
        body_pairs(form_text(ps, 0), first) == decode_pairs(ps),
        body_pairs(form_text(qs, 0), second) == decode_pairs(qs),
        assoc_map(body_pairs(form_text(ps, 0), first)) == assoc_map(
            body_pairs(form_text(qs, 0), second),
        ),
{
    assert(form_pair(ps[0]) && form_pair(qs[0]));
    lemma_form_is_form(ps);
    lemma_form_is_form(qs);
    lemma_form_round_trip(ps, 0);
    lemma_form_round_trip(qs, 0);
    assert(ps.subrange(0, ps.len() as int) =~= ps);
    assert(qs.subrange(0, qs.len() as int) =~= qs);
    let dp = decode_pairs(ps);
    let dq = decode_pairs(qs);
    assert forall|i: int| 0 <= i < dp.len() implies dq.contains(#[trigger] dp[i]) by {
        assert(qs.contains(ps[i]));
        let j = choose|j: int| 0 <= j < qs.len() && qs[j] == ps[i];
        assert(dq[j] == dp[i]);
    }
    assert forall|j: int| 0 <= j < dq.len() implies dp.contains(#[trigger] dq[j]) by {
        assert(ps.contains(qs[j]));
        let i = choose|i: int| 0 <= i < ps.len() && ps[i] == qs[j];
        assert(dp[i] == dq[j]);
    }
    lemma_order_irrelevant(dp, dq);
}

/// Splits a text at each `&`, and each piece at its first `=`.
pub fn split_pairs(text: &str) -> (r: Vec<(String, String)>)
    ensures
        pairs_of(r@) == raw_pairs(text@),
{
    let s = chars_of(text);
    let pieces = split_all(&s, '&');
    let eq: Vec<char> = vec!['='];
    assert(eq@ =~= seq!['=']);
    let mut out: Vec<(String, String)> = Vec::new();
    let mut i: usize = 0;
    assert(pairs_of(out@) + piece_pairs(views(pieces@), 0) =~= piece_pairs(views(pieces@), 0));
    while i < pieces.len()
        invariant
            i <= pieces@.len(),
            eq@ == seq!['='],
            views(pieces@) == split(text@, '&', 0),
            pairs_of(out@) + piece_pairs(views(pieces@), i as int) == piece_pairs(
                views(pieces@),
                0,
            ),
        decreases pieces.len() - i,
    {
        let ghost prev = pairs_of(out@);
        let parts = split_once(&pieces[i], &eq);
        if parts.2 {
            out.push((string_of(&parts.0, 0, parts.0.len()), string_of(&parts.1, 0, parts.1.len())));
            assert(parts.0@.subrange(0, parts.0@.len() as int) =~= parts.0@);
            assert(parts.1@.subrange(0, parts.1@.len() as int) =~= parts.1@);
            assert(pairs_of(out@) =~= prev + piece_pair(views(pieces@)[i as int]));
        }
        assert(pairs_of(out@) + piece_pairs(views(pieces@), i + 1) =~= prev + piece_pairs(
            views(pieces@),
            i as int,
        ));
        i += 1;
    }
    assert(pairs_of(out@) + Seq::<(Seq<char>, Seq<char>)>::empty() =~= pairs_of(out@));
    out
}

/// Percent-decodes `text`, keeping it as it is where it cannot be decoded.
pub fn decode_or_keep(text: &str) -> (r: String)
    ensures
        r@ == decoded(text@),
        percent_free(text@) ==> r@ == text@,
{
    match url_decode(text) {
        Some(t) => t,
        None => text.to_owned(),
    }
}

/// Decodes each pair and writes it into a mapping, later pairs over earlier.
pub fn collect_decoded(raw: &Vec<(String, String)>) -> (r: Params)
    ensures
        r@ == assoc_map(decode_pairs(pairs_of(raw@))),
        percent_free_pairs(pairs_of(raw@)) ==> r@ == assoc_map(pairs_of(raw@)),
{
    let mut out: Vec<(String, String)> = Vec::new();
    let mut i: usize = 0;
    while i < raw.len()
        invariant
            i <= raw@.len(),
            out@.len() == i,
            forall|j: int|
                0 <= j < i ==> out@[j].0@ == decoded(raw@[j].0@) && out@[j].1@ == decoded(
                    raw@[j].1@,
                ),
            forall|j: int|
                0 <= j < i && percent_free(raw@[j].0@) && percent_free(raw@[j].1@) ==> out@[j].0@
                    == raw@[j].0@ && out@[j].1@ == raw@[j].1@,
        decreases raw.len() - i,
    {
        let k = decode_or_keep(raw[i].0.as_str());
        let v = decode_or_keep(raw[i].1.as_str());
        out.push((k, v));
        i += 1;
    }
    assert(pairs_of(out@) =~= decode_pairs(pairs_of(raw@)));
    proof {
        if percent_free_pairs(pairs_of(raw@)) {
            assert forall|j: int| 0 <= j < raw@.len() implies out@[j].0@ == raw@[j].0@
                && out@[j].1@ == raw@[j].1@ by {
                assert(pairs_of(raw@)[j] == (raw@[j].0@, raw@[j].1@));
                assert(percent_free(pairs_of(raw@)[j].0) && percent_free(pairs_of(raw@)[j].1));
            }
            assert(pairs_of(out@) =~= pairs_of(raw@));
        }
    }
    Params::from_pairs(&out)
}

/// Decodes a query string: its `key=value` pairs, percent-decoded. The empty
/// query gives the empty mapping.
pub fn parse_query_params(query: &str) -> (r: Params)
    ensures
        r@ == assoc_map(decode_pairs(raw_pairs(query@))),
        percent_free_pairs(raw_pairs(query@)) ==> r@ == assoc_map(raw_pairs(query@)),
{
    let raw = split_pairs(query);
    collect_decoded(&raw)
}

/// The pair that a member of a JSON object gives: its key, with its text
/// where the value is a string and with the value's JSON text where it is
/// not.
pub open spec fn member_pair(m: (Seq<char>, Option<Seq<char>>, Seq<char>)) -> (
    Seq<char>,
    Seq<char>,
) {
    (
        m.0,
        match m.1 {
            Some(t) => t,
            None => m.2,
        },
    )
}

/// The pairs that the members of a JSON object give, in their order.
pub open spec fn flattened(ms: Seq<(Seq<char>, Option<Seq<char>>, Seq<char>)>) -> Pairs {
    Seq::new(ms.len(), |i: int| member_pair(ms[i]))
}

/// The pairs that a body stands for. A body with both `=` and `&` is a form.
/// Any other body that is a JSON object gives its members. Every other body
/// is kept whole under the key `body`.
pub open spec fn body_pairs(
    body: Seq<char>,
    document: Option<Option<Seq<(Seq<char>, Option<Seq<char>>, Seq<char>)>>>,
) -> Pairs {
    if contains(body, seq!['=']) && contains(body, seq!['&']) {
        decode_pairs(raw_pairs(body))
    } else {
        match document {
            Some(Some(members)) => flattened(members),
            _ => seq![("body"@, body)],
        }
    }
}

/// Whether a body is read as a form: it holds both `=` and `&`.
pub fn is_form(body: &str) -> (r: bool)
    ensures
        r == (contains(body@, seq!['=']) && contains(body@, seq!['&'])),
{
    let s = chars_of(body);
    let eq: Vec<char> = vec!['='];
    let amp: Vec<char> = vec!['&'];
    assert(eq@ =~= seq!['=']);
    assert(amp@ =~= seq!['&']);
    find_from_exec(&s, &eq, 0) < s.len() && find_from_exec(&s, &amp, 0) < s.len()
}

/// The pairs of the members of a JSON object: a string value as its text,
/// any other value as its JSON text.
pub fn flatten_members(members: &Vec<JsonMember>) -> (r: Vec<(String, String)>)
    ensures
        pairs_of(r@) == flattened(members_of(members@)),
{
    let mut out: Vec<(String, String)> = Vec::new();
    let mut i: usize = 0;
    while i < members.len()
        invariant
            i <= members@.len(),
            out@.len() == i,
            forall|j: int|
                0 <= j < i ==> (out@[j].0@, out@[j].1@) == member_pair(
                    #[trigger] members_of(members@)[j],
                ),
        decreases members.len() - i,
    {
        let value = match &members[i].text {
            Some(t) => t.clone(),
            None => members[i].json.clone(),
        };
        out.push((members[i].key.clone(), value));
        i += 1;
    }
    assert(pairs_of(out@) =~= flattened(members_of(members@)));
    out
}

/// The mapping of a body that is no form, given what the JSON reader made of
/// it.
pub fn body_from_document(body: &str, document: Option<Option<Vec<JsonMember>>>) -> (r: Params)
    ensures
        r@ == assoc_map(
            match document {
                Some(Some(members)) => flattened(members_of(members@)),
                _ => seq![("body"@, body@)],
            },
        ),
{
    match document {
        Some(Some(members)) => {
            let pairs = flatten_members(&members);
            Params::from_pairs(&pairs)
        },
        _ => {
            let mut r = Params::new();
            r.insert("body".to_owned(), body.to_owned());
            assert(seq![("body"@, body@)].drop_last() =~= Seq::<(Seq<char>, Seq<char>)>::empty());
            r
        },
    }
}

/// Decodes a request body into a mapping. Where no key and no value of a
/// form holds a percent sign, the pairs stand in the mapping as they are.
pub fn parse_body(body: &str) -> (r: Params)
    ensures
        r@ == assoc_map(body_pairs(body@, json_object(body@))),
        contains(body@, seq!['=']) && contains(body@, seq!['&']) && percent_free_pairs(
            raw_pairs(body@),
        ) ==> r@ == assoc_map(raw_pairs(body@)),
{
    if is_form(body) {
        parse_query_params(body)
    } else {
        body_from_document(body, json_document(body))
    }
}

/// The parameters that the segments from index `i` on give: each segment
/// that begins with `:` names a parameter, and the segment after it is the
/// value.
pub open spec fn segment_params(segments: Seq<Seq<char>>, i: int) -> Pairs
    decreases segments.len() - i,
{
    if i < 0 || i + 1 >= segments.len() {
        Seq::empty()
    } else if segments[i].len() > 0 && segments[i][0] == ':' {
        seq![(trim_start(segments[i], ':'), segments[i + 1])] + segment_params(segments, i + 1)
    } else {
        segment_params(segments, i + 1)
    }
}

/// The path parameters of a route: its segments, which `/` separates, read
/// by `segment_params`.
pub fn parse_dynamic_url_params(route: &str) -> (r: Params)
    ensures
        r@ == assoc_map(segment_params(split(route@, '/', 0), 0)),
{
    let s = chars_of(route);
    let segments = split_all(&s, '/');
    let mut out: Vec<(String, String)> = Vec::new();
    let mut i: usize = 0;
    assert(pairs_of(out@) + segment_params(views(segments@), 0) =~= segment_params(
        views(segments@),
        0,
    ));
    while segments.len() - i > 1
        invariant
            i <= segments@.len(),
            pairs_of(out@) + segment_params(views(segments@), i as int) == segment_params(
                views(segments@),
                0,
            ),
        decreases segments.len() - i,
    {
        let ghost prev = pairs_of(out@);
        if segments[i].len() > 0 && segments[i][0] == ':' {
            let name = trim_start_exec(&segments[i], ':');
            let value = &segments[i + 1];
            out.push((string_of(&name, 0, name.len()), string_of(value, 0, value.len())));
            assert(name@.subrange(0, name@.len() as int) =~= name@);
            assert(value@.subrange(0, value@.len() as int) =~= value@);
            assert(pairs_of(out@) =~= prev.push(
                (trim_start(views(segments@)[i as int], ':'), views(segments@)[i + 1]),
            ));
        }
        assert(pairs_of(out@) + segment_params(views(segments@), i + 1) =~= prev + segment_params(
            views(segments@),
            i as int,
        ));
        i += 1;
    }
    assert(pairs_of(out@) + Seq::<(Seq<char>, Seq<char>)>::empty() =~= pairs_of(out@));
    Params::from_pairs(&out)
}

} // verus!
