//! Loading whole record lists out of gram-count texts.

use vstd::prelude::*;

use crate::error::LmError;
use crate::parser::{is_line_ws, line_end, parse_records, GramsParser, LINE_FEED};
use crate::record::CountRecord;

verus! {

/// Only line feeds and blank whitespace follow position `pos`.
pub open spec fn clean_tail(text: Seq<u8>, pos: int) -> bool {
    forall|j: int| pos <= j < text.len() ==> (text[j] == LINE_FEED || is_line_ws(#[trigger] text[j]))
}

/// The records of one order's text: the parses of as many lines as the
/// header declares, provided the header is valid and nothing but blank
/// lines follows them.
pub open spec fn spec_records(text: Seq<u8>) -> Option<Seq<(Seq<u8>, int)>> {
    if !GramsParser::valid_header(text) {
        None
    } else {
        let start = GramsParser::next_pos(text, line_end(text, 0));
        match parse_records(text, start, GramsParser::header_value(text)) {
            Ok((recs, endp)) => if clean_tail(text, endp) {
                Some(recs)
            } else {
                None
            },
            Err(er) => None,
        }
    }
}

/// Loads every record of one order's text: exactly the parses the header
/// declares, rejecting bad headers, bad lines and streams whose record
/// count does not match their header.
pub fn load_records(text: &[u8]) -> (r: Result<Vec<CountRecord>, LmError>)
    ensures
        r is Ok <==> spec_records(text@) is Some,
        r matches Ok(v) ==> v@.map_values(|rec: CountRecord| rec@) == spec_records(
            text@,
        ).unwrap(),
        r matches Err(e) ==> (e == LmError::InvalidHeader || e == LmError::InvalidLine || e
            == LmError::InvalidCount || e == LmError::CountMismatch),
        r matches Err(e) ==> ({
            ||| (e == LmError::InvalidHeader && !GramsParser::valid_header(text@))
            ||| (GramsParser::valid_header(text@) && parse_records(
                text@,
                GramsParser::next_pos(text@, line_end(text@, 0)),
                GramsParser::header_value(text@),
            ) == Err::<(Seq<(Seq<u8>, int)>, int), LmError>(e))
            ||| (e == LmError::CountMismatch && GramsParser::valid_header(text@) && parse_records(
                text@,
                GramsParser::next_pos(text@, line_end(text@, 0)),
                GramsParser::header_value(text@),
            ) is Ok)
        }),
{
    let mut gp = match GramsParser::new(text) {
        Ok(p) => p,
        Err(e) => {
            return Err(e);
        },
    };
    let ghost start = gp.spec_pos();
    let ghost total = gp.spec_num_grams();
    let num_grams = gp.num_grams();
    let mut records: Vec<CountRecord> = Vec::new();
    let mut i: usize = 0;
    while i < num_grams
        invariant
            0 <= i <= num_grams,
            gp.wf(),
            gp.text_view() == text@,
            gp.spec_num_grams() == total,
            num_grams as int == total,
            gp.spec_num_parsed() == i,
            records@.len() == i,
            GramsParser::valid_header(text@),
            total == GramsParser::header_value(text@),
            start == GramsParser::next_pos(text@, line_end(text@, 0)),
            parse_records(text@, start, total) == (match parse_records(
                text@,
                gp.spec_pos(),
                total - i,
            ) {
                Ok((rest, endp)) => Ok::<(Seq<(Seq<u8>, int)>, int), LmError>(
                    (records@.map_values(|rec: CountRecord| rec@) + rest, endp),
                ),
                Err(er) => Err::<(Seq<(Seq<u8>, int)>, int), LmError>(er),
            }),
        decreases num_grams - i,
    {
        let ghost pos0 = gp.spec_pos();
        let ghost recs0 = records@.map_values(|rec: CountRecord| rec@);
        match gp.next_count_record() {
            Some(res) => match res {
                Ok(rec) => {
                    proof {
                        let e = line_end(text@, pos0);
                        let gc = rec@;
                        assert(parse_records(text@, pos0, total - i) == (match parse_records(
                            text@,
                            GramsParser::next_pos(text@, e),
                            total - i - 1,
                        ) {
                            Ok((rest2, endp2)) => Ok::<(Seq<(Seq<u8>, int)>, int), LmError>(
                                (seq![gc] + rest2, endp2),
                            ),
                            Err(er2) => Err::<(Seq<(Seq<u8>, int)>, int), LmError>(er2),
                        }));
                    }
                    records.push(rec);
                    proof {
                        let e = line_end(text@, pos0);
                        assert forall|rest2: Seq<(Seq<u8>, int)>| true implies recs0 + (seq![
                            rec@,
                        ] + rest2) =~= records@.map_values(|rec2: CountRecord| rec2@) + rest2 by {
                            assert(records@.map_values(|rec2: CountRecord| rec2@) =~= recs0.push(
                                rec@,
                            ));
                        }
                    }
                },
                Err(e) => {
                    return Err(e);
                },
            },
            None => {
                proof {
                    assert(false);
                }
                return Err(LmError::CountMismatch);
            },
        }
        i += 1;
    }
    proof {
        assert(parse_records(text@, gp.spec_pos(), 0) == Ok::<(Seq<(Seq<u8>, int)>, int), LmError>(
            (Seq::empty(), gp.spec_pos()),
        ));
        assert(records@.map_values(|rec: CountRecord| rec@) + Seq::<(Seq<u8>, int)>::empty()
            =~= records@.map_values(|rec: CountRecord| rec@));
    }
    if !gp.at_clean_end() {
        return Err(LmError::CountMismatch);
    }
    Ok(records)
}

/// Gets the conventional file extension of a gram-count file format.
pub fn get_format_extension(fmt: crate::loader::GramsFileFormats) -> (r: Option<String>)
    ensures
        (r is Some) == (fmt is Gzip),
        r matches Some(ext) ==> ext@ == "gz"@,
{
    match fmt {
        crate::loader::GramsFileFormats::Plain => None,
        crate::loader::GramsFileFormats::Gzip => Some("gz".to_owned()),
    }
}

} // verus!
