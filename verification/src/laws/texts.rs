//! Decimal numbers and the texts of errors.

use crate::zincplus::error;
use crate::zincplus::error::ZincMemoryError;
use vstd::prelude::*;

verus! {

/// A number below ten is written as its digit.
pub proof fn small_numbers_are_written_by_a_digit(n: u64, written: String)
    requires
        n < 10,
        call_ensures(error::decimal, (n,), written),
    ensures
        written@.len() == 1,
        written@[0] as int == '0' as int + n,
{
}

/// A larger number is written as its tenth, followed by its last digit.
pub proof fn larger_numbers_are_written_digit_by_digit(n: u64, written: String, tenth: String)
    requires
        n >= 10,
        call_ensures(error::decimal, (n,), written),
        call_ensures(error::decimal, (n / 10,), tenth),
    ensures
        written@.len() == tenth@.len() + 1,
        forall|i: int| 0 <= i < tenth@.len() ==> #[trigger] written@[i] == tenth@[i],
        written@.last() as int == '0' as int + n as int % 10,
{
}

/// Texts are put together in order.
pub proof fn texts_are_put_together_in_order(
    before: &str,
    n: u64,
    after: &str,
    text: &String,
    number: String,
    with_number: String,
    with_text: String,
    exponent: String,
)
    requires
        call_ensures(error::decimal, (n,), number),
        call_ensures(error::with_number, (before, n, after), with_number),
        call_ensures(error::with_text, (before, text), with_text),
        call_ensures(error::num_vars_message, (n,), exponent),
    ensures
        with_number@ == before@ + number@ + after@,
        with_text@ == before@ + text@,
        exponent@ == "num_vars "@ + number@ + " outside [3, 16]"@,
{
}

/// What a user is told of each error.
pub proof fn errors_are_told_in_these_texts(
    e: ZincMemoryError,
    n: u64,
    number: String,
    message: String,
)
    requires
        call_ensures(ZincMemoryError::message, (&e,), message),
        call_ensures(error::decimal, (n,), number),
        e is FirstTimeNonZero ==> e == (ZincMemoryError::FirstTimeNonZero { time_log: n }),
        e is DuplicatedAccess ==> e == (ZincMemoryError::DuplicatedAccess { time_log: n }),
        e is TimeNotIncreasing ==> e == (ZincMemoryError::TimeNotIncreasing { time_log: n }),
    ensures
        message@ == match e {
            ZincMemoryError::EmptyTrace => "the execution trace is empty"@,
            ZincMemoryError::TraceTooLong => "the execution trace exceeds 2^16 - 1 records"@,
            ZincMemoryError::FirstTimeNonZero { .. } => {
                "the execution trace starts at time_log = "@ + number@ + " instead of 0"@
            },
            ZincMemoryError::DuplicatedAccess { .. } => {
                "two trace records share the same (address, time_log = "@ + number@ + ")"@
            },
            ZincMemoryError::TimeNotIncreasing { .. } => {
                "time_log = "@ + number@ + " is earlier than the record before it"@
            },
            ZincMemoryError::TimeLogOverflow => {
                "padding the trace would overflow the u64 time domain"@
            },
            ZincMemoryError::UnsortedTrace => "internal error: sorted trace is not increasing"@,
            ZincMemoryError::MalformedProof(text) => "malformed proof: "@ + text@,
            ZincMemoryError::Prover(text) => "Zinc+ prover error: "@ + text@,
            ZincMemoryError::Verifier(text) => "Zinc+ verification failed: "@ + text@,
        },
{
}

} // verus!
