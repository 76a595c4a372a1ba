//! The word pool locally generated message bodies are drawn from, built out
//! of a CSV word file: every clean data row with at least four fields
//! contributes its second and fourth field.

use vstd::prelude::*;

verus! {

/// The rows a CSV parse of `data` yields — the first row taken as header
/// and skipped, each later row its list of fields. A function of the bytes
/// alone.
pub uninterp spec fn csv_rows(data: Seq<u8>) -> Seq<Seq<Seq<char>>>;

/// Whether every record of `data` parses cleanly as CSV.
pub uninterp spec fn csv_well_formed(data: Seq<u8>) -> bool;

/// Relies on csv::Reader::from_reader over the in-memory bytes and its
/// record iterator: a pure parse of the bytes, handing out the data rows
/// field by field, `None` exactly when some record does not parse.
#[verifier::external_body]
fn parse_rows(data: &[u8]) -> (r: Option<Vec<Vec<String>>>)
    ensures
        r is Some <==> csv_well_formed(data@),
        r matches Some(rows) ==> rows.deep_view() == csv_rows(data@),
{
    let mut rows = Vec::new();
    for record in csv::Reader::from_reader(data).records() {
        match record {
            Ok(rec) => rows.push(rec.iter().map(|f| f.to_string()).collect()),
            Err(_) => return None,
        }
    }
    Some(rows)
}

/// The words a sequence of rows contributes: fields one and three of every
/// row wide enough to have them.
pub open spec fn word_fields(rows: Seq<Seq<Seq<char>>>) -> Seq<Seq<char>>
    decreases rows.len(),
{
    if rows.len() == 0 {
        Seq::empty()
    } else {
        word_fields(rows.drop_last()) + (if rows.last().len() >= 4 {
            seq![rows.last()[1], rows.last()[3]]
        } else {
            Seq::empty()
        })
    }
}

/// Picks the word columns out of parsed rows.
pub fn extract_words(rows: &Vec<Vec<String>>) -> (w: Vec<String>)
    ensures
        w.deep_view() == word_fields(rows.deep_view()),
{
    let mut w: Vec<String> = Vec::new();
    let n = rows.len();
    let mut i: usize = 0;
    while i < n
        invariant
            i <= n,
            n == rows.len(),
            w.deep_view() == word_fields(rows.deep_view().subrange(0, i as int)),
        decreases n - i,
    {
        let ghost w0 = w.deep_view();
        let ghost dv = rows.deep_view();
        let row = &rows[i];
        if row.len() >= 4 {
            w.push(row[1].clone());
            w.push(row[3].clone());
            proof {
                assert(w.deep_view() =~= w0.push(dv[i as int][1]).push(dv[i as int][3]));
                assert(w0 + seq![dv[i as int][1], dv[i as int][3]] =~= w.deep_view());
            }
        } else {
            proof {
                assert(w0 + Seq::<Seq<char>>::empty() =~= w0);
            }
        }
        proof {
            assert(dv.subrange(0, i + 1).drop_last() =~= dv.subrange(0, i as int));
            assert(dv.subrange(0, i + 1).last() == dv[i as int]);
        }
        i += 1;
    }
    proof {
        assert(rows.deep_view().subrange(0, n as int) =~= rows.deep_view());
    }
    w
}

/// Builds the word pool from the raw bytes of a CSV word file. `None`
/// exactly when the bytes do not parse.
pub fn words_from_csv(data: &[u8]) -> (r: Option<Vec<String>>)
    ensures
        r is Some <==> csv_well_formed(data@),
        r matches Some(w) ==> w.deep_view() == word_fields(csv_rows(data@)),
{
    match parse_rows(data) {
        None => None,
        Some(rows) => Some(extract_words(&rows)),
    }
}

} // verus!
