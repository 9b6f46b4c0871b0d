//! Archive lines as they come in and exports as they go out.

use vstd::prelude::*;
use crate::coldchain::reduce::RepairError;
use crate::text;
use crate::text::push_decimal;

verus! {

/// The timestamps of one archive line, each where it is an integer of 64 bits.
#[derive(Clone, Copy, Debug, PartialEq, Eq, Structural)]
pub enum WireRecord {
    Observation { observed_at: Option<i64>, received_at: Option<i64> },
    Configuration { effective_at: Option<i64> },
    Other,
}

/// The first timestamp that is missing or no integer.
pub open spec fn faulty_field(record: WireRecord) -> Option<Seq<char>> {
    match record {
        WireRecord::Observation { observed_at, received_at } => if observed_at is None {
            Some("observed_at"@)
        } else if received_at is None {
            Some("received_at"@)
        } else {
            None
        },
        WireRecord::Configuration { effective_at } => if effective_at is None {
            Some("effective_at"@)
        } else {
            None
        },
        WireRecord::Other => None,
    }
}

/// Why an archive line is refused, if it is.
pub open spec fn wire_fault(record: WireRecord, line_number: nat) -> Option<Seq<char>> {
    match faulty_field(record) {
        Some(field) => Some(
            "line "@ + text::decimal(line_number) + ": "@ + field
                + " must be an integer timestamp"@,
        ),
        None => None,
    }
}

/// Refuses an archive line whose timestamps are not all integers.
pub fn validate_wire_timestamps(record: &WireRecord, line_number: usize) -> (result: Result<
    (),
    RepairError,
>)
    ensures
        match result {
            Ok(_) => wire_fault(*record, line_number as nat) is None,
            Err(error) => wire_fault(*record, line_number as nat) == Some(error.text()),
        },
{
    let field: &str = match record {
        WireRecord::Observation { observed_at, received_at } => if observed_at.is_none() {
            "observed_at"
        } else if received_at.is_none() {
            "received_at"
        } else {
            return Ok(());
        },
        WireRecord::Configuration { effective_at } => if effective_at.is_none() {
            "effective_at"
        } else {
            return Ok(());
        },
        WireRecord::Other => {
            return Ok(());
        },
    };
    let mut message = "line ".to_owned();
    push_decimal(&mut message, line_number as u64);
    message.append(": ");
    message.append(field);
    message.append(" must be an integer timestamp");
    Err(RepairError::new(message))
}

/// Why a text is no JSON, as `serde_json` words it, if it is none.
pub uninterp spec fn json_error(line: Seq<char>) -> Option<Seq<char>>;

/// Whether a JSON text holds a value at a pointer.
pub uninterp spec fn json_holds(line: Seq<char>, pointer: Seq<char>) -> bool;

/// The integer of 64 bits that a JSON text holds at a pointer, if it holds one.
pub uninterp spec fn json_integer(line: Seq<char>, pointer: Seq<char>) -> Option<i64>;

/// Parses the line by `serde_json::from_str` into a `serde_json::Value`. Whether that
/// fails, and how the error is worded, follows from the line alone.
#[verifier::external_body]
fn parse_error(line: &str) -> (error: Option<String>)
    ensures
        match error {
            Some(error) => json_error(line@) == Some(error@),
            None => json_error(line@) is None,
        },
{
    match serde_json::from_str::<serde_json::Value>(line) {
        Ok(_) => None,
        Err(error) => Some(error.to_string()),
    }
}

/// Parses the line by `serde_json::from_str` and looks the pointer up by
/// `serde_json::Value::pointer`. Whether something stands there follows from the line
/// and the pointer alone; nothing does in a line that is no JSON.
#[verifier::external_body]
fn holds_value(line: &str, pointer: &str) -> (holds: bool)
    ensures
        holds == json_holds(line@, pointer@),
{
    match serde_json::from_str::<serde_json::Value>(line) {
        Ok(value) => value.pointer(pointer).is_some(),
        Err(_) => false,
    }
}

/// Parses the line by `serde_json::from_str`, looks the pointer up by
/// `serde_json::Value::pointer` and reads what stands there by
/// `serde_json::Value::as_i64`. What comes out follows from the line and the pointer
/// alone.
#[verifier::external_body]
fn held_integer(line: &str, pointer: &str) -> (integer: Option<i64>)
    ensures
        integer == json_integer(line@, pointer@),
{
    match serde_json::from_str::<serde_json::Value>(line) {
        Ok(value) => value.pointer(pointer).and_then(serde_json::Value::as_i64),
        Err(_) => None,
    }
}

/// The timestamps that a line of JSON holds: those of its observation, else those of
/// its configuration.
pub open spec fn wire_of(line: Seq<char>) -> WireRecord {
    if json_holds(line, "/observation"@) {
        WireRecord::Observation {
            observed_at: json_integer(line, "/observation/observed_at"@),
            received_at: json_integer(line, "/observation/received_at"@),
        }
    } else if json_holds(line, "/configuration"@) {
        WireRecord::Configuration {
            effective_at: json_integer(line, "/configuration/effective_at"@),
        }
    } else {
        WireRecord::Other
    }
}

/// Why a line of an archive is refused before its record is read, if it is.
pub open spec fn line_fault(line: Seq<char>, line_number: nat) -> Option<Seq<char>> {
    match json_error(line) {
        Some(error) => Some("line "@ + text::decimal(line_number) + ": "@ + error),
        None => wire_fault(wire_of(line), line_number),
    }
}

/// The timestamps that a line of JSON holds.
fn read_wire(line: &str) -> (record: WireRecord)
    ensures
        record == wire_of(line@),
{
    if holds_value(line, "/observation") {
        WireRecord::Observation {
            observed_at: held_integer(line, "/observation/observed_at"),
            received_at: held_integer(line, "/observation/received_at"),
        }
    } else if holds_value(line, "/configuration") {
        WireRecord::Configuration {
            effective_at: held_integer(line, "/configuration/effective_at"),
        }
    } else {
        WireRecord::Other
    }
}

/// Refuses a line of an archive that is no JSON, or whose timestamps are not all
/// integers.
pub fn check_line(line: &str, line_number: usize) -> (result: Result<(), RepairError>)
    ensures
        match result {
            Ok(_) => line_fault(line@, line_number as nat) is None,
            Err(error) => line_fault(line@, line_number as nat) == Some(error.text()),
        },
{
    if let Some(error) = parse_error(line) {
        let mut message = "line ".to_owned();
        push_decimal(&mut message, line_number as u64);
        message.append(": ");
        message.append(error.as_str());
        return Err(RepairError::new(message));
    }
    validate_wire_timestamps(&read_wire(line), line_number)
}

/// A refusal begins with the number of the line that it is about.
pub proof fn refusals_name_their_line(line: Seq<char>, line_number: nat)
    ensures
        line_fault(line, line_number) matches Some(fault) ==> ("line "@ + text::decimal(
            line_number,
        ) + ": "@).is_prefix_of(fault),
{
    let start = "line "@ + text::decimal(line_number) + ": "@;
    if let Some(fault) = line_fault(line, line_number) {
        assert(start =~= fault.take(start.len() as int));
    }
}

/// An export ends its one line.
pub fn terminated(json: Vec<u8>) -> (bytes: Vec<u8>)
    ensures
        bytes@ == json@.push(10u8),
{
    let mut bytes = json;
    bytes.push(10);
    bytes
}

/// A line passes when it is JSON and its observation, or else its configuration, has an
/// integer for each of its timestamps.
pub proof fn only_integer_timestamps_pass(line: Seq<char>, line_number: nat)
    ensures
        line_fault(line, line_number) is None <==> {
            &&& json_error(line) is None
            &&& json_holds(line, "/observation"@) ==> json_integer(
                line,
                "/observation/observed_at"@,
            ) is Some && json_integer(line, "/observation/received_at"@) is Some
            &&& !json_holds(line, "/observation"@) && json_holds(line, "/configuration"@)
                ==> json_integer(line, "/configuration/effective_at"@) is Some
        },
{
}

} // verus!
