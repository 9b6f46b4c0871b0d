//! How a report is published under a temporary name.

use vstd::prelude::*;
use crate::ip;
use crate::ip::hex_char_of;
use crate::text;
use crate::text::{push_decimal, push_padded, same_text};

verus! {

/// How often a temporary report is created under another name.
pub const TEMP_CREATE_ATTEMPTS: u32 = 128;

/// The last `width` hexadecimal digits of a number.
pub open spec fn hex_digits(value: nat, width: nat) -> Seq<char>
    decreases width,
{
    if width == 0 {
        Seq::empty()
    } else {
        hex_digits(value / 16, (width - 1) as nat).push(ip::hex_char(value % 16))
    }
}

/// Appends the last `width` hexadecimal digits of a number.
fn push_hex_digits(out: &mut String, value: u128, width: u32)
    ensures
        final(out)@ == old(out)@ + hex_digits(value as nat, width as nat),
    decreases width,
{
    if width > 0 {
        push_hex_digits(out, value / 16, width - 1);
        let ghost before = out@;
        out.push(hex_char_of((value % 16) as u32));
        assert(out@ =~= before.push(ip::hex_char(value as nat % 16)));
    }
    assert(out@ =~= old(out)@ + hex_digits(value as nat, width as nat));
}

/// The temporary name of a report for one attempt.
pub open spec fn temporary_name_of(
    output_name: Seq<char>,
    process: nat,
    nonce: nat,
    sequence: nat,
    attempt: nat,
) -> Seq<char> {
    "."@ + output_name + ".tmp-"@ + text::decimal(process) + "-"@ + hex_digits(nonce, 32) + "-"@
        + hex_digits(sequence, 16) + "-"@ + text::padded(attempt, 3)
}

/// The temporary name of a report for one attempt, as long as attempts are left.
pub fn temporary_name(
    output_name: &str,
    process: u32,
    nonce: u128,
    sequence: u64,
    attempt: u32,
) -> (name: Option<String>)
    ensures
        match name {
            Some(name) => attempt < TEMP_CREATE_ATTEMPTS && name@ == temporary_name_of(
                output_name@,
                process as nat,
                nonce as nat,
                sequence as nat,
                attempt as nat,
            ),
            None => attempt >= TEMP_CREATE_ATTEMPTS,
        },
{
    if attempt >= TEMP_CREATE_ATTEMPTS {
        return None;
    }
    let mut name = ".".to_owned();
    name.append(output_name);
    name.append(".tmp-");
    push_decimal(&mut name, process as u64);
    name.append("-");
    push_hex_digits(&mut name, nonce, 32);
    name.append("-");
    push_hex_digits(&mut name, sequence as u128, 16);
    name.append("-");
    push_padded(&mut name, attempt as u64, 3);
    Some(name)
}

/// What is answered when no attempt is left.
pub fn attempts_exhausted() -> (detail: String)
    ensures
        detail@ == "could not create an exclusive temporary report after 128 attempts"@,
{
    "could not create an exclusive temporary report after 128 attempts".to_owned()
}

/// The steps of a publication at which a fault can be injected.
#[derive(Debug, Clone, Copy, PartialEq, Eq, Structural)]
pub enum Step {
    TemporaryCreated,
    TemporaryFlushed,
}

/// The status with which an injected fault ends the process at a step.
pub open spec fn exit_at(fault: Seq<char>, step: Step) -> Option<i32> {
    match step {
        Step::TemporaryCreated => if fault == "after-temp"@ {
            Some(86)
        } else {
            None
        },
        Step::TemporaryFlushed => if fault == "after-flush"@ {
            Some(87)
        } else {
            None
        },
    }
}

/// The status with which an injected fault ends the process at a step, if it does.
pub fn injected_exit(fault: &str, step: Step) -> (status: Option<i32>)
    ensures
        status == exit_at(fault@, step),
{
    match step {
        Step::TemporaryCreated => if same_text(fault, "after-temp") {
            Some(86)
        } else {
            None
        },
        Step::TemporaryFlushed => if same_text(fault, "after-flush") {
            Some(87)
        } else {
            None
        },
    }
}

} // verus!
