//! The decisions taken for each candidate once it has been probed.
use vstd::prelude::*;

use crate::proxy::{text_eq, unknown_text, Protocol, Proxy, ProxyView};

verus! {

/// What the JSON text `text` holds under `key`: `None` when the text is not
/// JSON; `Some(None)` when it is, but holds no string under `key` (or is not an
/// object); `Some(Some(v))` when it holds the string `v` there.
pub uninterp spec fn json_str_field_of(text: Seq<char>, key: Seq<char>) -> Option<Option<Seq<char>>>;

/// Relies on serde_json's `from_str` into a `Value`, `Value::get` and
/// `Value::as_str`: the string held under `key` in the parsed text. The result
/// depends on the two texts alone.
#[verifier::external_body]
fn json_str_field(text: &str, key: &str) -> (r: Option<Option<String>>)
    ensures
        r.deep_view() == json_str_field_of(text@, key@),
{
    let v: serde_json::Value = serde_json::from_str(text).ok()?;
    Some(v.get(key).and_then(|c| c.as_str()).map(|c| c.to_string()))
}

/// The country that a geolocation answer names: `None` when the answer is not
/// JSON, empty when it names no country.
pub open spec fn country_in(body: Seq<char>) -> Option<Seq<char>> {
    match json_str_field_of(body, "country"@) {
        None => None,
        Some(None) => Some(Seq::<char>::empty()),
        Some(Some(c)) => Some(c),
    }
}

/// Reads the `country` field of a geolocation answer.
pub fn country_of(body: &str) -> (r: Option<String>)
    ensures
        r.deep_view() == country_in(body@),
{
    match json_str_field(body, "country") {
        None => None,
        Some(None) => Some(String::new()),
        Some(Some(c)) => Some(c),
    }
}

/// The record that a probe outcome makes of a candidate: the candidate with
/// the protocol it answered under; nothing when it answered under none.
pub open spec fn live_view(c: ProxyView, outcome: Option<Protocol>) -> Option<ProxyView> {
    match outcome {
        Some(p) => Some(
            ProxyView {
                ip: c.ip,
                port: c.port,
                location: c.location,
                proxy_type: p,
                date: c.date,
            },
        ),
        None => None,
    }
}

/// The record of a probed candidate, or `None` when no probe succeeded.
pub fn live_record(candidate: Proxy, outcome: Option<Protocol>) -> (r: Option<Proxy>)
    ensures
        r.deep_view() == live_view(candidate@, outcome),
{
    match outcome {
        Some(p) => {
            let mut c = candidate;
            c.proxy_type = p;
            Some(c)
        },
        None => None,
    }
}

/// Whether the location of a record is still to be looked up: it is exactly
/// when the location is the sentinel `Unknown`.
pub fn needs_location(p: &Proxy) -> (r: bool)
    ensures
        r == (p.location@ == unknown_text()),
{
    text_eq(&p.location, "Unknown")
}

/// Stores the country that a lookup gave as the record's location. An empty
/// answer means that the lookup found nothing: the record keeps the location
/// it had.
pub fn record_location(p: &mut Proxy, country: String)
    ensures
        country@.len() == 0 ==> final(p)@ == old(p)@,
        country@.len() > 0 ==> final(p)@ == (ProxyView { location: country@, ..old(p)@ }),
{
    if country.as_str().unicode_len() > 0 {
        p.location = country;
    }
}

} // verus!
