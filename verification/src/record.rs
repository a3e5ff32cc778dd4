//! The persisted command-usage record and its derived fields.
//!
//! A record is created once per tracked invocation. The two derived fields
//! are fixed at creation: `saved_tokens` is the non-negative difference of
//! the supplied counts, and the savings percentage is kept in hundredths of
//! a percent so that it stays exact integer arithmetic.

use vstd::prelude::*;
use vstd::arithmetic::div_mod::{
    lemma_fundamental_div_mod,
    lemma_fundamental_div_mod_converse,
    lemma_div_is_ordered,
    lemma_div_multiples_vanish,
};
use crate::calendar::TS_MAX;
use vstd::string::StringSliceAdditionalSpecFns;

verus! {

/// `max(0, input - output)`.
pub open spec fn spec_saved_tokens(input: u64, output: u64) -> u64 {
    if input >= output {
        (input - output) as u64
    } else {
        0u64
    }
}

/// `floor(saved / input * 100)`, in hundredths of a percent; zero when
/// `input` is zero.
pub open spec fn spec_pct_hundredths(saved: u64, input: u64) -> int {
    if input > 0 {
        saved * 10000 / (input as int)
    } else {
        0
    }
}

/// Derives the saved-token count from the two supplied counts.
pub fn saved_tokens(input_tokens: u64, output_tokens: u64) -> (r: u64)
    ensures
        r == spec_saved_tokens(input_tokens, output_tokens),
        r <= input_tokens,
{
    if input_tokens >= output_tokens {
        input_tokens - output_tokens
    } else {
        0
    }
}

/// Derives the savings percentage, in hundredths of a percent.
pub fn savings_pct_hundredths(saved: u64, input: u64) -> (r: u64)
    requires
        saved <= input,
    ensures
        r == spec_pct_hundredths(saved, input),
        r <= 10000,
{
    if input > 0 {
        let wide: u128 = (saved as u128) * 10000;
        let q = wide / (input as u128);
        proof {
            lemma_div_is_ordered(saved * 10000, input * 10000, input as int);
            lemma_div_multiples_vanish(10000, input as int);
        }
        q as u64
    } else {
        0
    }
}

/// One tracked invocation, with its derived fields.
///
/// `timestamp` is seconds since the Unix epoch, UTC.
pub struct CommandRecord {
    pub timestamp: u64,
    pub original_cmd: String,
    pub rtk_cmd: String,
    pub input_tokens: u64,
    pub output_tokens: u64,
    pub saved_tokens: u64,
    pub savings_pct_hundredths: u64,
}

impl CommandRecord {
    /// Both derived fields agree with the counts, and the instant is one the
    /// calendar supports.
    pub open spec fn wf(self) -> bool {
        &&& self.saved_tokens <= self.input_tokens
        &&& self.savings_pct_hundredths == spec_pct_hundredths(self.saved_tokens, self.input_tokens)
        &&& self.timestamp <= TS_MAX
    }

    /// Builds a record, computing the derived fields.
    pub fn new(
        timestamp: u64,
        original_cmd: String,
        rtk_cmd: String,
        input_tokens: u64,
        output_tokens: u64,
    ) -> (r: CommandRecord)
        requires
            timestamp <= TS_MAX,
        ensures
            r.wf(),
            r.timestamp == timestamp,
            r.original_cmd == original_cmd,
            r.rtk_cmd == rtk_cmd,
            r.input_tokens == input_tokens,
            r.output_tokens == output_tokens,
            r.saved_tokens == spec_saved_tokens(input_tokens, output_tokens),
    {
        let saved = saved_tokens(input_tokens, output_tokens);
        let pct = savings_pct_hundredths(saved, input_tokens);
        CommandRecord {
            timestamp,
            original_cmd,
            rtk_cmd,
            input_tokens,
            output_tokens,
            saved_tokens: saved,
            savings_pct_hundredths: pct,
        }
    }
}

/// Approximate token count of a text: one token per four bytes, rounded up.
pub fn estimate_tokens(text: &str) -> (r: usize)
    ensures
        r == ((text.spec_bytes().len() as usize) + 3) / 4,
{
    let n = text.len();
    let q = n / 4;
    let rem = n % 4;
    proof {
        lemma_fundamental_div_mod(n as int, 4);
        if rem == 0 {
            lemma_fundamental_div_mod_converse(n + 3, 4, n as int / 4, 3);
        } else {
            lemma_fundamental_div_mod_converse(n + 3, 4, n as int / 4 + 1, n as int % 4 - 1);
        }
    }
    if rem != 0 {
        q + 1
    } else {
        q
    }
}

} // verus!
