//! Compact token-count rendering for the text views.
//!
//! Counts at a thousand and above are shown scaled with one decimal digit
//! and a `K` or `M` suffix. The decimal digit is rounded to the nearest
//! tenth (halves away from zero), in exact integer arithmetic.

use vstd::prelude::*;
use crate::calendar::ascii_chars;

verus! {

/// The decimal digits of `n`, most significant first.
pub open spec fn dec_bytes(n: nat) -> Seq<u8>
    decreases n,
{
    if n < 10 {
        seq![(48 + n) as u8]
    } else {
        dec_bytes(n / 10) + seq![(48 + n % 10) as u8]
    }
}

/// What `format_tokens` renders: `W.FM` above a million, `W.FK` above a
/// thousand (one rounded decimal digit each), the plain digits below.
pub open spec fn format_tokens_bytes(n: nat) -> Seq<u8> {
    if n >= 1000000 {
        let tenths = (n * 10 + 500000) / 1000000;
        dec_bytes(tenths / 10) + seq![46u8, (48 + tenths % 10) as u8, 77u8]
    } else if n >= 1000 {
        let tenths = (n * 10 + 500) / 1000;
        dec_bytes(tenths / 10) + seq![46u8, (48 + tenths % 10) as u8, 75u8]
    } else {
        dec_bytes(n)
    }
}

/// Appends the decimal digits of `n`.
fn push_dec(buf: &mut Vec<u8>, n: u64)
    requires
        forall|i: int| 0 <= i < old(buf)@.len() ==> old(buf)@[i] < 128,
    ensures
        final(buf)@ == old(buf)@ + dec_bytes(n as nat),
        forall|i: int| 0 <= i < final(buf)@.len() ==> final(buf)@[i] < 128,
    decreases n,
{
    if n < 10 {
        buf.push(48 + n as u8);
        assert(buf@ =~= old(buf)@ + dec_bytes(n as nat));
    } else {
        push_dec(buf, n / 10);
        buf.push(48 + (n % 10) as u8);
        assert(buf@ =~= old(buf)@ + dec_bytes(n as nat / 10) + seq![(48 + n as nat % 10) as u8]);
        assert(buf@ =~= old(buf)@ + dec_bytes(n as nat));
    }
}

/// Renders a token count compactly: scaled with one rounded decimal digit
/// and a `K` or `M` suffix at a thousand and above.
pub fn format_tokens(n: usize) -> (r: String)
    ensures
        r@ == ascii_chars(format_tokens_bytes(n as nat)),
{
    let w = n as u64;
    let mut buf: Vec<u8> = Vec::new();
    if w >= 1000000 {
        let tenths = (((w as u128) * 10 + 500000) / 1000000) as u64;
        push_dec(&mut buf, tenths / 10);
        buf.push(46);
        buf.push(48 + (tenths % 10) as u8);
        buf.push(77);
        assert(buf@ =~= format_tokens_bytes(n as nat));
    } else if w >= 1000 {
        let tenths = (w * 10 + 500) / 1000;
        push_dec(&mut buf, tenths / 10);
        buf.push(46);
        buf.push(48 + (tenths % 10) as u8);
        buf.push(75);
        assert(buf@ =~= format_tokens_bytes(n as nat));
    } else {
        push_dec(&mut buf, w);
        assert(buf@ =~= format_tokens_bytes(n as nat));
    }
    crate::calendar::ascii_string(buf)
}

} // verus!
