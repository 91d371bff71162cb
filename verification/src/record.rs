//! One line of input: `<station>;<temperature>`.

use vstd::prelude::*;
use vstd::slice::slice_subrange;
use crate::decimal::{first_index, find_byte, number_of, parse_number};
use crate::number::Number;
use crate::model::Reading;

verus! {

/// The byte `;` between the station name and the temperature.
pub const SEPARATOR: u8 = 59;

/// Why a line is no record.
#[derive(Clone, Copy, Debug, PartialEq, Eq, Structural)]
pub enum MalformedRecord {
    /// The line holds no separator.
    MissingSeparator,
    /// What follows the first separator spells no value: neither a decimal
    /// number nor one of the words `inf`, `infinity`, `nan`.
    InvalidTemperature,
}

/// The station name of a line: what stands before the first separator.
pub open spec fn name_part(line: Seq<u8>) -> Seq<u8> {
    line.take(first_index(line, SEPARATOR))
}

/// The temperature text of a line: what follows the first separator.
pub open spec fn value_part(line: Seq<u8>) -> Seq<u8> {
    line.skip(first_index(line, SEPARATOR) + 1)
}

/// The reading that a line holds, or why it holds none. The name is taken as
/// it stands, whatever its bytes, even where it is empty.
pub open spec fn record_of(line: Seq<u8>) -> Result<Reading, MalformedRecord> {
    if first_index(line, SEPARATOR) >= line.len() {
        Err(MalformedRecord::MissingSeparator)
    } else {
        match number_of(value_part(line)) {
            Some(v) => Ok((name_part(line), v)),
            None => Err(MalformedRecord::InvalidTemperature),
        }
    }
}

/// Splits a line at its first separator and reads the temperature.
pub fn parse_temperature_line(line: &[u8]) -> (r: Result<(&[u8], Number), MalformedRecord>)
    ensures
        match r {
            Ok(rec) => record_of(line@) == Ok::<Reading, MalformedRecord>((rec.0@, rec.1@)) && rec.1.is_reading(),
            Err(e) => record_of(line@) == Err::<Reading, MalformedRecord>(e),
        },
{
    let at = find_byte(line, SEPARATOR);
    if at >= line.len() {
        return Err(MalformedRecord::MissingSeparator);
    }
    let name = slice_subrange(line, 0, at);
    let text = slice_subrange(line, at + 1, line.len());
    proof {
        assert(name@ =~= name_part(line@));
        assert(text@ =~= value_part(line@));
    }
    match parse_number(text) {
        Some(v) => Ok((name, v)),
        None => Err(MalformedRecord::InvalidTemperature),
    }
}

} // verus!
