//! Errors of the memory-consistency backend.

use vstd::prelude::*;

verus! {

/// What can go wrong when a trace is proved or a proof is read or verified.
#[derive(Debug, Clone, PartialEq, Eq)]
pub enum ZincMemoryError {
    /// The execution trace is empty; there is nothing to prove.
    EmptyTrace,
    /// The execution trace does not fit the largest supported row count.
    TraceTooLong,
    /// The first record of the trace is not at time zero.
    FirstTimeNonZero {
        /// The time of the first record.
        time_log: u64,
    },
    /// Two consecutive records share a time.
    DuplicatedAccess {
        /// The shared time.
        time_log: u64,
    },
    /// A record is earlier than the one before it.
    TimeNotIncreasing {
        /// The time of the earlier record.
        time_log: u64,
    },
    /// The padding rows would need times that do not fit 64 bits.
    TimeLogOverflow,
    /// The sorted trace was not strictly increasing.
    UnsortedTrace,
    /// The serialized proof is malformed.
    MalformedProof(String),
    /// The prover rejected the witness.
    Prover(String),
    /// The verifier rejected the proof.
    Verifier(String),
}

/// The decimal digit of a number below ten.
pub open spec fn digit(n: nat) -> char {
    if n == 0 {
        '0'
    } else if n == 1 {
        '1'
    } else if n == 2 {
        '2'
    } else if n == 3 {
        '3'
    } else if n == 4 {
        '4'
    } else if n == 5 {
        '5'
    } else if n == 6 {
        '6'
    } else if n == 7 {
        '7'
    } else if n == 8 {
        '8'
    } else {
        '9'
    }
}

/// The decimal notation of a number.
pub open spec fn decimal_of(n: nat) -> Seq<char>
    decreases n,
{
    if n < 10 {
        seq![digit(n)]
    } else {
        decimal_of(n / 10).push(digit(n % 10))
    }
}

fn digit_str(n: u64) -> (s: &'static str)
    requires
        n < 10,
    ensures
        s@ == seq![digit(n as nat)],
{
    proof {
        reveal_strlit("0");
        reveal_strlit("1");
        reveal_strlit("2");
        reveal_strlit("3");
        reveal_strlit("4");
        reveal_strlit("5");
        reveal_strlit("6");
        reveal_strlit("7");
        reveal_strlit("8");
        reveal_strlit("9");
    }
    if n == 0 {
        "0"
    } else if n == 1 {
        "1"
    } else if n == 2 {
        "2"
    } else if n == 3 {
        "3"
    } else if n == 4 {
        "4"
    } else if n == 5 {
        "5"
    } else if n == 6 {
        "6"
    } else if n == 7 {
        "7"
    } else if n == 8 {
        "8"
    } else {
        "9"
    }
}

/// The decimal notation of a number.
pub fn decimal(n: u64) -> (s: String)
    ensures
        s@ == decimal_of(n as nat),
    decreases n,
{
    if n < 10 {
        String::from_str(digit_str(n))
    } else {
        let mut s = decimal(n / 10);
        s.append(digit_str(n % 10));
        assert(s@ =~= decimal_of(n as nat));
        s
    }
}

/// A text with a number set into it.
pub fn with_number(before: &str, n: u64, after: &str) -> (s: String)
    ensures
        s@ == before@ + decimal_of(n as nat) + after@,
{
    let mut s = String::from_str(before);
    s.append(decimal(n).as_str());
    s.append(after);
    s
}

/// A text followed by another.
pub fn with_text(before: &str, text: &String) -> (s: String)
    ensures
        s@ == before@ + text@,
{
    let mut s = String::from_str(before);
    s.append(text.as_str());
    s
}

/// The text of a malformed row count exponent.
pub open spec fn num_vars_text(n: nat) -> Seq<char> {
    "num_vars "@ + decimal_of(n) + " outside [3, 16]"@
}

/// The text of a malformed row count exponent.
pub fn num_vars_message(n: u64) -> (s: String)
    ensures
        s@ == num_vars_text(n as nat),
{
    with_number("num_vars ", n, " outside [3, 16]")
}

impl ZincMemoryError {
    /// What a user is told of the error.
    pub open spec fn text(&self) -> Seq<char> {
        match *self {
            ZincMemoryError::EmptyTrace => "the execution trace is empty"@,
            ZincMemoryError::TraceTooLong => "the execution trace exceeds 2^16 - 1 records"@,
            ZincMemoryError::FirstTimeNonZero { time_log } => {
                "the execution trace starts at time_log = "@ + decimal_of(time_log as nat)
                    + " instead of 0"@
            },
            ZincMemoryError::DuplicatedAccess { time_log } => {
                "two trace records share the same (address, time_log = "@ + decimal_of(
                    time_log as nat,
                ) + ")"@
            },
            ZincMemoryError::TimeNotIncreasing { time_log } => {
                "time_log = "@ + decimal_of(time_log as nat)
                    + " is earlier than the record before it"@
            },
            ZincMemoryError::TimeLogOverflow => {
                "padding the trace would overflow the u64 time domain"@
            },
            ZincMemoryError::UnsortedTrace => "internal error: sorted trace is not increasing"@,
            ZincMemoryError::MalformedProof(msg) => "malformed proof: "@ + msg@,
            ZincMemoryError::Prover(msg) => "Zinc+ prover error: "@ + msg@,
            ZincMemoryError::Verifier(msg) => "Zinc+ verification failed: "@ + msg@,
        }
    }

    /// What a user is told of the error.
    pub fn message(&self) -> (s: String)
        ensures
            s@ == self.text(),
    {
        match self {
            ZincMemoryError::EmptyTrace => String::from_str("the execution trace is empty"),
            ZincMemoryError::TraceTooLong => {
                String::from_str("the execution trace exceeds 2^16 - 1 records")
            },
            ZincMemoryError::FirstTimeNonZero { time_log } => {
                with_number("the execution trace starts at time_log = ", *time_log, " instead of 0")
            },
            ZincMemoryError::DuplicatedAccess { time_log } => {
                with_number(
                    "two trace records share the same (address, time_log = ",
                    *time_log,
                    ")",
                )
            },
            ZincMemoryError::TimeNotIncreasing { time_log } => {
                with_number("time_log = ", *time_log, " is earlier than the record before it")
            },
            ZincMemoryError::TimeLogOverflow => {
                String::from_str("padding the trace would overflow the u64 time domain")
            },
            ZincMemoryError::UnsortedTrace => {
                String::from_str("internal error: sorted trace is not increasing")
            },
            ZincMemoryError::MalformedProof(msg) => with_text("malformed proof: ", msg),
            ZincMemoryError::Prover(msg) => with_text("Zinc+ prover error: ", msg),
            ZincMemoryError::Verifier(msg) => with_text("Zinc+ verification failed: ", msg),
        }
    }
}

} // verus!
