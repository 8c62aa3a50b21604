//! The table into which stored records are exported.
use vstd::prelude::*;

use crate::address::{decimal, decimal_text};
use crate::proxy::{protocol_name, Proxy, ProxyView};

verus! {

/// The names of the columns.
pub open spec fn header() -> Seq<Seq<char>> {
    seq!["IP"@, "Port"@, "Location"@, "Type"@, "Date"@]
}

/// The fields of a record, as text, in column order; the port in decimal.
pub open spec fn row_of(p: ProxyView) -> Seq<Seq<char>> {
    seq![p.ip, decimal(p.port as nat), p.location, protocol_name(p.proxy_type), p.date]
}

/// The header line, then one line per record in the order given.
pub open spec fn table_of(ps: Seq<ProxyView>) -> Seq<Seq<Seq<char>>> {
    seq![header()] + ps.map_values(|p: ProxyView| row_of(p))
}

/// The names of the columns.
pub fn export_header() -> (r: Vec<String>)
    ensures
        r.deep_view() == header(),
{
    let r = vec![
        String::from_str("IP"),
        String::from_str("Port"),
        String::from_str("Location"),
        String::from_str("Type"),
        String::from_str("Date"),
    ];
    assert(r.deep_view() =~= header());
    r
}

/// The fields of one record, in column order.
pub fn export_row(p: &Proxy) -> (r: Vec<String>)
    ensures
        r.deep_view() == row_of(p@),
{
    let r = vec![
        p.ip.clone(),
        decimal_text(p.port),
        p.location.clone(),
        p.proxy_type.name(),
        p.date.clone(),
    ];
    assert(r.deep_view() =~= row_of(p@));
    r
}

/// The lines of the export of `proxies`: the header, then one line per record.
pub fn export_rows(proxies: &Vec<Proxy>) -> (r: Vec<Vec<String>>)
    ensures
        r.deep_view() == table_of(proxies.deep_view()),
{
    let mut out: Vec<Vec<String>> = Vec::new();
    out.push(export_header());
    let mut i: usize = 0;
    while i < proxies.len()
        invariant
            i <= proxies@.len(),
            out.deep_view() == table_of(proxies.deep_view().take(i as int)),
        decreases proxies@.len() - i,
    {
        let row = export_row(&proxies[i]);
        let ghost before = out.deep_view();
        out.push(row);
        proof {
            let ps = proxies.deep_view();
            assert(out.deep_view() =~= before.push(row_of(ps[i as int])));
            assert(ps.take(i + 1) =~= ps.take(i as int).push(ps[i as int]));
            assert(table_of(ps.take(i + 1)) =~= table_of(ps.take(i as int)).push(row_of(ps[i as int])));
        }
        i = i + 1;
    }
    assert(proxies.deep_view().take(proxies@.len() as int) =~= proxies.deep_view());
    out
}


/// The CSV text of `rows`, one record per row; `None` where the writer
/// refuses a row (rows of unequal length).
pub uninterp spec fn csv_text_of(rows: Seq<Seq<Seq<char>>>) -> Option<Seq<char>>;

/// Relies on csv's `Writer::from_writer`, `Writer::write_record` and
/// `Writer::into_inner`, writing into memory with the default settings: the
/// CSV encoding of the rows, in order. The result depends on the rows alone.
#[verifier::external_body]
fn csv_text(rows: &Vec<Vec<String>>) -> (r: Option<String>)
    ensures
        r.deep_view() == csv_text_of(rows.deep_view()),
{
    let mut writer = csv::Writer::from_writer(Vec::new());
    for row in rows {
        writer.write_record(row).ok()?;
    }
    String::from_utf8(writer.into_inner().ok()?).ok()
}

/// The CSV text of the export of `proxies`: the header line, then one line per
/// record.
pub fn export_csv(proxies: &Vec<Proxy>) -> (r: Option<String>)
    ensures
        r.deep_view() == csv_text_of(table_of(proxies.deep_view())),
{
    let rows = export_rows(proxies);
    csv_text(&rows)
}

} // verus!
