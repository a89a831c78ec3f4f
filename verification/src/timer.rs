//! Elapsed-time reporting: a monotonic start instant and its elapsed time
//! rendered as `hh:mm:ss.mmm`. Reading the clock is outside work; the
//! arithmetic and rendering of a duration are verified.

use vstd::prelude::*;

verus! {

#[verifier::external_type_specification]
#[verifier::external_body]
pub struct ExInstant(std::time::Instant);

/// Relies on std::time::Instant::now; nothing can be promised of the
/// clock's reading.
#[verifier::external_body]
fn instant_now() -> std::time::Instant {
    std::time::Instant::now()
}

/// Relies on std::time::Instant::elapsed and Duration::as_millis: the
/// whole milliseconds since `start`, which depend on the clock.
#[verifier::external_body]
fn elapsed_millis(start: &std::time::Instant) -> u128 {
    start.elapsed().as_millis()
}

/// The decimal digit character for `d`.
pub open spec fn digit_char(d: int) -> char {
    seq!['0', '1', '2', '3', '4', '5', '6', '7', '8', '9'][d]
}

/// The decimal rendering of `n`, most significant digit first.
pub open spec fn dec_chars(n: nat) -> Seq<char>
    decreases n,
{
    if n < 10 {
        seq![digit_char(n as int)]
    } else {
        dec_chars(n / 10).push(digit_char((n % 10) as int))
    }
}

/// The decimal rendering of `n`, zero-padded to at least two digits.
pub open spec fn dec_chars_pad2(n: nat) -> Seq<char> {
    if n < 10 {
        seq!['0'] + dec_chars(n)
    } else {
        dec_chars(n)
    }
}

/// The decimal rendering of `n`, zero-padded to at least three digits.
pub open spec fn dec_chars_pad3(n: nat) -> Seq<char> {
    if n < 10 {
        seq!['0', '0'] + dec_chars(n)
    } else if n < 100 {
        seq!['0'] + dec_chars(n)
    } else {
        dec_chars(n)
    }
}

/// A duration of `ms` milliseconds rendered as `hh:mm:ss.mmm` (hours
/// unbounded, at least two digits).
pub open spec fn duration_chars(ms: u128) -> Seq<char> {
    let hours = ms as nat / 3_600_000;
    let minutes = (ms as nat % 3_600_000) / 60_000;
    let seconds = (ms as nat % 60_000) / 1_000;
    let millis = ms as nat % 1_000;
    dec_chars_pad2(hours) + seq![':'] + dec_chars_pad2(minutes) + seq![':'] + dec_chars_pad2(
        seconds,
    ) + seq!['.'] + dec_chars_pad3(millis)
}

/// A one-character string holding the decimal digit `d`.
fn digit_str(d: u128) -> (r: &'static str)
    requires
        d < 10,
    ensures
        r@.len() == 1,
        r@[0] == digit_char(d as int),
{
    let digits = "0123456789";
    proof {
        reveal_strlit("0123456789");
        assert(digits.is_ascii()) by {
            assert forall|p: int| 0 <= p < digits@.len() implies (digits@[p] as u32) < 128 by {
                assert(digits@[p] as u32 <= 57);
            }
        }
    }
    let r = digits.substring_ascii(d as usize, d as usize + 1);
    proof {
        assert(r@[0] == digits@[d as int]);
        assert(digits@[d as int] == digit_char(d as int));
    }
    r
}

/// Appends the decimal rendering of `n`.
fn push_dec(out: &mut String, n: u128)
    ensures
        final(out)@ == old(out)@ + dec_chars(n as nat),
    decreases n,
{
    if n < 10 {
        out.append(digit_str(n));
    } else {
        push_dec(out, n / 10);
        out.append(digit_str(n % 10));
        proof {
            assert(final(out)@ =~= old(out)@ + dec_chars(n as nat));
        }
    }
}

/// Appends the decimal rendering of `n`, zero-padded to two digits.
fn push_dec_pad2(out: &mut String, n: u128)
    ensures
        final(out)@ == old(out)@ + dec_chars_pad2(n as nat),
{
    if n < 10 {
        let zero = "0";
        proof {
            reveal_strlit("0");
        }
        out.append(zero);
    }
    push_dec(out, n);
    proof {
        assert(final(out)@ =~= old(out)@ + dec_chars_pad2(n as nat));
    }
}

/// Appends the decimal rendering of `n`, zero-padded to three digits.
fn push_dec_pad3(out: &mut String, n: u128)
    ensures
        final(out)@ == old(out)@ + dec_chars_pad3(n as nat),
{
    if n < 10 {
        let zeros = "00";
        proof {
            reveal_strlit("00");
        }
        out.append(zeros);
    } else if n < 100 {
        let zero = "0";
        proof {
            reveal_strlit("0");
        }
        out.append(zero);
    }
    push_dec(out, n);
    proof {
        assert(final(out)@ =~= old(out)@ + dec_chars_pad3(n as nat));
    }
}

/// Renders a millisecond duration as `hh:mm:ss.mmm`.
pub fn format_duration(ms: u128) -> (r: String)
    ensures
        r@ == duration_chars(ms),
{
    let hours = ms / 3_600_000;
    let minutes = (ms % 3_600_000) / 60_000;
    let seconds = (ms % 60_000) / 1_000;
    let millis = ms % 1_000;
    let mut out = String::new();
    let colon = ":";
    let dot = ".";
    proof {
        reveal_strlit(":");
        reveal_strlit(".");
    }
    push_dec_pad2(&mut out, hours);
    out.append(colon);
    push_dec_pad2(&mut out, minutes);
    out.append(colon);
    push_dec_pad2(&mut out, seconds);
    out.append(dot);
    push_dec_pad3(&mut out, millis);
    proof {
        assert(out@ =~= duration_chars(ms));
    }
    out
}

/// A running stopwatch, started when it is created.
pub struct Timer {
    pub start: std::time::Instant,
}

impl Timer {
    /// Starts the stopwatch at the current instant.
    pub fn new() -> Timer {
        Timer { start: instant_now() }
    }

    /// The time elapsed since the stopwatch started, as `hh:mm:ss.mmm`;
    /// what the clock reads is outside work, the rendering is exact.
    pub fn elapsed_time(&self) -> (r: String)
        ensures
            exists|ms: u128| r@ == duration_chars(ms),
    {
        let ms = elapsed_millis(&self.start);
        let r = format_duration(ms);
        proof {
            assert(r@ == duration_chars(ms));
        }
        r
    }
}

} // verus!
