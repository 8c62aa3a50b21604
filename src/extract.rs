//! Extraction of candidate endpoints from the content of a page.
//!
//! A page is read as a table first: each row of a table body whose first cell
//! is an address and whose second cell is a port gives a candidate. Only when
//! no row does is the raw text scanned for `address:port` tokens.
use vstd::prelude::*;

use crate::address::{decimal, is_ip, is_ip_literal, is_ipv4, lemma_port_round_trip, parse_port, port_value};
use crate::canonical::{canonical_ip, canonical_ip_text};
use crate::proxy::{candidate, Proxy, ProxyView};

verus! {

/// The rows whose cells are read: the rows of table bodies.
pub const ROW_SELECTOR: &'static str = "tbody tr";

/// The cells read in each row.
pub const CELL_SELECTOR: &'static str = "td, th";

/// An `address:port` token of the raw text: four groups of one to three digits
/// joined by dots, a colon, and one to five digits.
pub const ADDRESS_PORT_PATTERN: &'static str = "\\b(\\d{1,3}\\.\\d{1,3}\\.\\d{1,3}\\.\\d{1,3}):(\\d{1,5})\\b";

/// The text of each cell selected by `cells` among the descendants of each
/// element selected by `rows`, in the order in which the selections yield them,
/// once `html` is parsed as an HTML document; `None` where a selector does not
/// parse.
pub uninterp spec fn table_cells_of(html: Seq<char>, rows: Seq<char>, cells: Seq<char>) -> Option<
    Seq<Seq<Seq<char>>>,
>;

/// The texts of capture groups 1 and 2 of each successive non-overlapping match
/// of the regular expression `pattern` in `text`; `None` where the pattern does
/// not compile.
pub uninterp spec fn capture_pairs_of(pattern: Seq<char>, text: Seq<char>) -> Option<
    Seq<(Seq<char>, Seq<char>)>,
>;

/// Relies on scraper's `Html::parse_document`, `Selector::parse`,
/// `Html::select`, `ElementRef::select` and `ElementRef::text`: the document
/// is parsed, and for each matching row the text nodes of each matching cell
/// are joined. The result depends on the three texts alone.
#[verifier::external_body]
fn select_cells(html: &str, rows: &str, cells: &str) -> (r: Option<Vec<Vec<String>>>)
    ensures
        r.deep_view() == table_cells_of(html@, rows@, cells@),
{
    let document = scraper::Html::parse_document(html);
    let row_selector = scraper::Selector::parse(rows).ok()?;
    let cell_selector = scraper::Selector::parse(cells).ok()?;
    Some(document.select(&row_selector).map(|row| {
        row.select(&cell_selector).map(|cell| cell.text().collect::<String>()).collect()
    }).collect())
}

/// Relies on regex's `Regex::new` and `Regex::captures_iter`: the matches of
/// the pattern, leftmost first and not overlapping, each given by the texts of
/// its first two groups (empty for a group that took no part). The result
/// depends on the two texts alone.
#[verifier::external_body]
fn capture_pairs(pattern: &str, text: &str) -> (r: Option<Vec<(String, String)>>)
    ensures
        r.deep_view() == capture_pairs_of(pattern@, text@),
{
    let re = regex::Regex::new(pattern).ok()?;
    Some(re.captures_iter(text).map(|c| {
        (c.get(1).map_or("", |m| m.as_str()).to_string(), c.get(2).map_or("", |m| m.as_str()).to_string())
    }).collect())
}

/// The candidate that an address text and a port text give, if both are valid;
/// it holds the canonical text of the address.
pub open spec fn token_candidate(addr: Seq<char>, port: Seq<char>) -> Option<ProxyView> {
    if is_ip(addr) && port_value(port) is Some {
        Some(candidate(canonical_ip(addr), port_value(port)->0))
    } else {
        None
    }
}

/// The candidate of one table row: its first cell is the address, its second
/// the port; further cells are not read.
pub open spec fn row_candidate(cells: Seq<Seq<char>>) -> Option<ProxyView> {
    if cells.len() >= 2 {
        token_candidate(cells[0], cells[1])
    } else {
        None
    }
}

/// The candidates of the rows that give one, in row order.
pub open spec fn table_candidates(rows: Seq<Seq<Seq<char>>>) -> Seq<ProxyView>
    decreases rows.len(),
{
    if rows.len() == 0 {
        seq![]
    } else {
        let rest = table_candidates(rows.drop_last());
        match row_candidate(rows.last()) {
            Some(c) => rest.push(c),
            None => rest,
        }
    }
}

/// The candidates of the tokens that give one, in token order.
pub open spec fn token_candidates(pairs: Seq<(Seq<char>, Seq<char>)>) -> Seq<ProxyView>
    decreases pairs.len(),
{
    if pairs.len() == 0 {
        seq![]
    } else {
        let rest = token_candidates(pairs.drop_last());
        match token_candidate(pairs.last().0, pairs.last().1) {
            Some(c) => rest.push(c),
            None => rest,
        }
    }
}

/// What the table strategy finds in a page.
pub open spec fn primary_candidates(html: Seq<char>) -> Seq<ProxyView> {
    match table_cells_of(html, ROW_SELECTOR@, CELL_SELECTOR@) {
        Some(rows) => table_candidates(rows),
        None => seq![],
    }
}

/// What the token strategy finds in a page.
pub open spec fn fallback_candidates(html: Seq<char>) -> Seq<ProxyView> {
    match capture_pairs_of(ADDRESS_PORT_PATTERN@, html) {
        Some(pairs) => token_candidates(pairs),
        None => seq![],
    }
}

/// The candidates of a page: those of its table, or, where the table gives
/// none, those of its `address:port` tokens.
pub open spec fn extracted(html: Seq<char>) -> Seq<ProxyView> {
    if primary_candidates(html).len() > 0 {
        primary_candidates(html)
    } else {
        fallback_candidates(html)
    }
}

/// The token strategy keeps exactly the valid tokens: a candidate is in its
/// result if and only if some token, with an address literal and a port of at
/// most 65535, gives it. Tokens with an invalid address or port give none.
pub proof fn lemma_tokens_kept_exactly(pairs: Seq<(Seq<char>, Seq<char>)>)
    ensures
        forall|v: ProxyView|
            #![trigger token_candidates(pairs).contains(v)]
            token_candidates(pairs).contains(v) <==> exists|i: int|
                0 <= i < pairs.len() && token_candidate(pairs[i].0, pairs[i].1) == Some(v),
        forall|i: int|
            0 <= i < pairs.len() ==> (token_candidate(pairs[i].0, pairs[i].1) is Some <==> (
            is_ip(pairs[i].0) && port_value(pairs[i].1) is Some)),
    decreases pairs.len(),
{
    if pairs.len() > 0 {
        let init = pairs.drop_last();
        lemma_tokens_kept_exactly(init);
        let rest = token_candidates(init);
        let last = token_candidate(pairs.last().0, pairs.last().1);
        assert forall|v: ProxyView|
            #![trigger token_candidates(pairs).contains(v)]
            token_candidates(pairs).contains(v) <==> exists|i: int|
                0 <= i < pairs.len() && token_candidate(pairs[i].0, pairs[i].1) == Some(v) by {
            if token_candidates(pairs).contains(v) {
                if rest.contains(v) {
                    let i = choose|i: int|
                        0 <= i < init.len() && token_candidate(init[i].0, init[i].1) == Some(v);
                    assert(pairs[i] == init[i]);
                } else {
                    assert(last == Some(v));
                    assert(pairs[pairs.len() - 1] == pairs.last());
                }
            }
            if exists|i: int| 0 <= i < pairs.len() && token_candidate(pairs[i].0, pairs[i].1) == Some(v) {
                let i = choose|i: int|
                    0 <= i < pairs.len() && token_candidate(pairs[i].0, pairs[i].1) == Some(v);
                if i < pairs.len() - 1 {
                    assert(init[i] == pairs[i]);
                    assert(rest.contains(v));
                    if let Some(c) = last {
                        assert(rest.push(c)[rest.index_of(v)] == v);
                    }
                } else {
                    assert(token_candidates(pairs) == rest.push(v));
                    assert(rest.push(v)[rest.len() as int] == v);
                }
            }
        }
    }
}

/// A token made of a dotted quad and the decimal text of a port gives exactly
/// the candidate at that address and port.
pub proof fn lemma_token_recovered(addr: Seq<char>, port: u16)
    requires
        is_ipv4(addr),
    ensures
        token_candidates(seq![(addr, decimal(port as nat))]) == seq![candidate(addr, port)],
{
    lemma_port_round_trip(port);
    reveal(canonical_ip);
    let pairs = seq![(addr, decimal(port as nat))];
    assert(pairs.drop_last() =~= Seq::<(Seq<char>, Seq<char>)>::empty());
    assert(token_candidates(pairs.drop_last()) =~= Seq::<ProxyView>::empty());
    assert(token_candidates(pairs) =~= seq![candidate(addr, port)]);
}

fn token_to_candidate(addr: &String, port: &String) -> (r: Option<Proxy>)
    ensures
        r.deep_view() == token_candidate(addr@, port@),
{
    if is_ip_literal(addr.as_str()) {
        match parse_port(port.as_str()) {
            Some(p) => Some(Proxy::new_candidate(canonical_ip_text(addr.as_str()), p)),
            None => None,
        }
    } else {
        None
    }
}

/// The candidate of one table row, given as the texts of its cells.
pub fn parse_proxy(cells: &Vec<String>) -> (r: Option<Proxy>)
    ensures
        r.deep_view() == row_candidate(cells.deep_view()),
{
    if cells.len() >= 2 {
        token_to_candidate(&cells[0], &cells[1])
    } else {
        None
    }
}

/// The candidates of a table, given as the texts of the cells of each row.
pub fn rows_to_candidates(rows: &Vec<Vec<String>>) -> (r: Vec<Proxy>)
    ensures
        r.deep_view() == table_candidates(rows.deep_view()),
{
    let mut out: Vec<Proxy> = Vec::new();
    let mut i: usize = 0;
    while i < rows.len()
        invariant
            i <= rows@.len(),
            out.deep_view() == table_candidates(rows.deep_view().take(i as int)),
        decreases rows@.len() - i,
    {
        let found = parse_proxy(&rows[i]);
        proof {
            let t = rows.deep_view().take(i + 1);
            assert(t.drop_last() =~= rows.deep_view().take(i as int));
            assert(t.last() == rows@[i as int].deep_view());
        }
        match found {
            Some(p) => {
                let ghost before = out.deep_view();
                out.push(p);
                assert(out.deep_view() =~= before.push(p@));
            },
            None => {},
        }
        i = i + 1;
    }
    assert(rows.deep_view().take(rows@.len() as int) =~= rows.deep_view());
    out
}

/// The candidates of a list of `address:port` tokens, each given as its
/// address text and its port text: those whose address is a valid address
/// literal and whose port is at most 65535, in token order.
pub fn tokens_to_candidates(pairs: &Vec<(String, String)>) -> (r: Vec<Proxy>)
    ensures
        r.deep_view() == token_candidates(pairs.deep_view()),
{
    let mut out: Vec<Proxy> = Vec::new();
    let mut i: usize = 0;
    while i < pairs.len()
        invariant
            i <= pairs@.len(),
            out.deep_view() == token_candidates(pairs.deep_view().take(i as int)),
        decreases pairs@.len() - i,
    {
        let pair = &pairs[i];
        let found = token_to_candidate(&pair.0, &pair.1);
        proof {
            let t = pairs.deep_view().take(i + 1);
            assert(t.drop_last() =~= pairs.deep_view().take(i as int));
            assert(t.last() == pairs@[i as int].deep_view());
        }
        match found {
            Some(p) => {
                let ghost before = out.deep_view();
                out.push(p);
                assert(out.deep_view() =~= before.push(p@));
            },
            None => {},
        }
        i = i + 1;
    }
    assert(pairs.deep_view().take(pairs@.len() as int) =~= pairs.deep_view());
    out
}

/// The candidates that a page lists. The table strategy is tried first; the
/// raw text is scanned for `address:port` tokens only when it finds nothing.
pub fn scrape_proxies(html: String) -> (r: Vec<Proxy>)
    ensures
        r.deep_view() == extracted(html@),
        primary_candidates(html@).len() > 0 ==> r.deep_view() == primary_candidates(html@),
        primary_candidates(html@).len() == 0 ==> r.deep_view() == fallback_candidates(html@),
{
    let primary = match select_cells(html.as_str(), ROW_SELECTOR, CELL_SELECTOR) {
        Some(rows) => rows_to_candidates(&rows),
        None => Vec::new(),
    };
    if primary.len() > 0 {
        return primary;
    }
    match capture_pairs(ADDRESS_PORT_PATTERN, html.as_str()) {
        Some(pairs) => tokens_to_candidates(&pairs),
        None => Vec::new(),
    }
}

} // verus!
