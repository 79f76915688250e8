//! Small shared helpers: decimal formatting of timestamps, and the
//! unwrap/stringify conveniences the remote surface uses on results.

use vstd::prelude::*;
use vstd::string::*;

verus! {

/// Relies on `String::push`: appends the given character to the end of the
/// string.
pub assume_specification[ String::push ](s: &mut String, ch: char)
    ensures
        final(s)@ == old(s)@.push(ch),
;

/// The character of one decimal digit.
pub open spec fn digit_char(d: nat) -> char
    recommends
        d < 10,
{
    ((48 + d) as u8) as char
}

/// The decimal numeral of `n`, most significant digit first, without
/// leading zeros (`0` itself is the single digit `0`).
pub open spec fn dec_digits(n: nat) -> Seq<char>
    decreases n,
{
    if n < 10 {
        seq![digit_char(n)]
    } else {
        dec_digits(n / 10).push(digit_char(n % 10))
    }
}

/// Formats a number in decimal.
pub fn u64_to_decimal(x: u64) -> (r: String)
    ensures
        r@ == dec_digits(x as nat),
{
    let mut digits: Vec<u8> = Vec::new();
    let ghost mut suffix: Seq<char> = Seq::empty();
    let mut v = x;
    loop
        invariant_except_break
            suffix.len() == digits@.len(),
            forall|t: int|
                0 <= t < suffix.len() ==> suffix[t] == (digits@[digits@.len() - 1 - t] as char),
            forall|t: int| 0 <= t < digits@.len() ==> 48 <= #[trigger] digits@[t] < 58,
            digits@.len() > 0 ==> dec_digits(x as nat) == dec_digits(v as nat) + suffix,
            digits@.len() == 0 ==> v == x && suffix == Seq::<char>::empty(),
            v > 0 ==> digits@.len() > 0 || v == x,
        ensures
            suffix.len() == digits@.len(),
            forall|t: int|
                0 <= t < suffix.len() ==> suffix[t] == (digits@[digits@.len() - 1 - t] as char),
            dec_digits(x as nat) == suffix,
        decreases v + if digits@.len() == 0 {
            1nat
        } else {
            0nat
        },
    {
        let ghost old_v = v;
        let ghost old_suffix = suffix;
        let d = (v % 10) as u8;
        digits.push(48 + d);
        proof {
            suffix = seq![digit_char((old_v % 10) as nat)] + suffix;
            assert(digit_char((old_v % 10) as nat) == ((48 + d) as char));
            assert forall|t: int| 0 <= t < suffix.len() implies suffix[t] == (digits@[digits@.len()
                - 1 - t] as char) by {
                if t > 0 {
                    assert(suffix[t] == old_suffix[t - 1]);
                }
            }
        }
        v = v / 10;
        proof {
            if old_v < 10 {
                assert(dec_digits((old_v % 10) as nat) == seq![digit_char((old_v % 10) as nat)]);
                if digits@.len() == 1 {
                    assert(old_v == x);
                    assert(dec_digits(x as nat) =~= suffix);
                } else {
                    assert(dec_digits(x as nat) =~= suffix);
                }
            } else {
                assert(dec_digits(old_v as nat) == dec_digits((old_v / 10) as nat).push(
                    digit_char((old_v % 10) as nat),
                ));
                assert(dec_digits(old_v as nat) =~= dec_digits((old_v / 10) as nat) + seq![
                    digit_char((old_v % 10) as nat),
                ]);
                assert(dec_digits(x as nat) =~= dec_digits(v as nat) + suffix);
            }
        }
        if v == 0 {
            break;
        }
    }
    let mut out = String::new();
    let mut t: usize = 0;
    while t < digits.len()
        invariant
            t <= digits@.len(),
            suffix.len() == digits@.len(),
            forall|q: int|
                0 <= q < suffix.len() ==> suffix[q] == (digits@[digits@.len() - 1 - q] as char),
            out@ == suffix.take(t as int),
        decreases digits@.len() - t,
    {
        out.push(digits[digits.len() - 1 - t] as char);
        t = t + 1;
        proof {
            assert(out@ =~= suffix.take(t as int));
        }
    }
    proof {
        assert(suffix.take(suffix.len() as int) =~= suffix);
    }
    out
}

/// The timestamp in whole seconds, as a decimal string; the argument is a
/// moment in nanoseconds.
pub fn make_time(nanos: u64) -> (r: String)
    ensures
        r@ == dec_digits((nanos / 1_000_000_000) as nat),
{
    u64_to_decimal(nanos / 1_000_000_000)
}

/// The greeting reply of the connectivity probe.
pub fn get(i: u64) -> (r: String)
    ensures
        r@ == "Hello, world! "@ + dec_digits(i as nat),
{
    let mut out = String::from_str("Hello, world! ");
    let num = u64_to_decimal(i);
    out.append(num.as_str());
    out
}

/// Unwrapping for results whose failure ends the call: the caller must
/// already know the result is a success.
pub trait UnwrapOrTrap<T>: Sized {
    /// Whether unwrapping is allowed.
    spec fn can_unwrap(self) -> bool;

    /// The value unwrapping yields.
    spec fn unwrapped(self) -> T;

    /// The success value.
    fn unwrap_or_trap(self) -> (r: T)
        requires
            self.can_unwrap(),
        ensures
            r == self.unwrapped(),
    ;

    /// The success value; the message arguments describe the failure a
    /// trapping surface would report and are not consulted on success.
    fn unwrap_or_trap_with_msg(self, prefix: Option<&str>, postfix: Option<&str>) -> (r: T)
        requires
            self.can_unwrap(),
        ensures
            r == self.unwrapped(),
    ;
}

impl<T, E> UnwrapOrTrap<T> for Result<T, E> {
    open spec fn can_unwrap(self) -> bool {
        self is Ok
    }

    open spec fn unwrapped(self) -> T {
        self->Ok_0
    }

    fn unwrap_or_trap(self) -> (r: T) {
        match self {
            Ok(t) => t,
            Err(_) => vstd::pervasive::unreached(),
        }
    }

    fn unwrap_or_trap_with_msg(self, prefix: Option<&str>, postfix: Option<&str>) -> (r: T) {
        match self {
            Ok(t) => t,
            Err(_) => vstd::pervasive::unreached(),
        }
    }
}

/// The ways a remote call can be rejected.
#[derive(Clone, Copy, Debug, PartialEq, Eq, Structural)]
pub enum RejectCode {
    NoError,
    SysFatal,
    SysTransient,
    DestinationInvalid,
    CanisterReject,
    CanisterError,
    Unknown,
}

/// The name of a reject code, as its diagnostic text spells it.
pub open spec fn code_name(c: RejectCode) -> Seq<char> {
    match c {
        RejectCode::NoError => "NoError"@,
        RejectCode::SysFatal => "SysFatal"@,
        RejectCode::SysTransient => "SysTransient"@,
        RejectCode::DestinationInvalid => "DestinationInvalid"@,
        RejectCode::CanisterReject => "CanisterReject"@,
        RejectCode::CanisterError => "CanisterError"@,
        RejectCode::Unknown => "Unknown"@,
    }
}

impl RejectCode {
    /// The code's name as a string.
    pub fn text(&self) -> (r: String)
        ensures
            r@ == code_name(*self),
    {
        match self {
            RejectCode::NoError => String::from_str("NoError"),
            RejectCode::SysFatal => String::from_str("SysFatal"),
            RejectCode::SysTransient => String::from_str("SysTransient"),
            RejectCode::DestinationInvalid => String::from_str("DestinationInvalid"),
            RejectCode::CanisterReject => String::from_str("CanisterReject"),
            RejectCode::CanisterError => String::from_str("CanisterError"),
            RejectCode::Unknown => String::from_str("Unknown"),
        }
    }
}

/// The diagnostic text of a rejection: `[code] message`.
pub open spec fn stringified_err(c: RejectCode, m: Seq<char>) -> Seq<char> {
    seq!['['] + code_name(c) + seq![']', ' '] + m
}

/// Flattening of a rejection pair into a single diagnostic string.
pub trait StringifyErr<T>: Sized {
    /// The flattened error text.
    spec fn err_text(self) -> Seq<char>;

    /// Whether the result is a success.
    spec fn is_success(self) -> bool;

    /// The success value.
    spec fn success_value(self) -> T;

    /// The result with its error flattened to a string.
    fn stringify_err(self) -> (r: Result<T, String>)
        ensures
            r is Ok <==> self.is_success(),
            r matches Ok(t) ==> t == self.success_value(),
            r matches Err(m) ==> m@ == self.err_text(),
    ;
}

impl<T> StringifyErr<T> for Result<T, (RejectCode, String)> {
    open spec fn err_text(self) -> Seq<char> {
        stringified_err(self->Err_0.0, self->Err_0.1@)
    }

    open spec fn is_success(self) -> bool {
        self is Ok
    }

    open spec fn success_value(self) -> T {
        self->Ok_0
    }

    fn stringify_err(self) -> (r: Result<T, String>) {
        match self {
            Ok(t) => Ok(t),
            Err((c, m)) => {
                let mut out = String::new();
                out.push('[');
                let name = c.text();
                out.append(name.as_str());
                out.push(']');
                out.push(' ');
                out.append(m.as_str());
                proof {
                    assert(out@ =~= stringified_err(c, m@));
                }
                Err(out)
            },
        }
    }
}

} // verus!
