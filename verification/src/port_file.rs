//! The text of a port file: a node records each of its ports in a file of
//! its own as the port's decimal number, and a waiting process reads it back,
//! polling until the file shows up or a deadline passes.

use vstd::prelude::*;
use vstd::string::StrSliceExecFns;
use vstd::string::StringExecFns;

use crate::command_line::is_white_space;
use crate::command_line::trim;
use crate::command_line::trim_end_spec;
use crate::command_line::trim_spec;
use crate::command_line::trim_start_spec;

verus! {

/// The decimal digit for `d`, which is below ten.
pub open spec fn digit_char(d: int) -> char {
    ((d + 48) as u32) as char
}

/// Whether `c` is one of the ASCII digits `0` to `9`.
pub open spec fn is_digit(c: char) -> bool {
    '0' <= c <= '9'
}

/// The value of an ASCII digit.
pub open spec fn digit_value(c: char) -> int {
    (c as u32) - 48
}

/// The decimal numeral of `n`, without leading zeros.
pub open spec fn decimal_spec(n: nat) -> Seq<char>
    decreases n,
{
    if n < 10 {
        seq![digit_char(n as int)]
    } else {
        decimal_spec(n / 10).push(digit_char((n % 10) as int))
    }
}

/// The text of a port number: its decimal numeral, with a leading `-` for
/// a negative one.
pub open spec fn port_text_spec(port: i32) -> Seq<char> {
    if port < 0 {
        seq!['-'] + decimal_spec((-port) as nat)
    } else {
        decimal_spec(port as nat)
    }
}

/// The number that a string of digits spells.
pub open spec fn digits_value(s: Seq<char>) -> int
    decreases s.len(),
{
    if s.len() == 0 {
        0
    } else {
        digits_value(s.drop_last()) * 10 + digit_value(s.last())
    }
}

/// Whether every character of `s` is a digit.
pub open spec fn all_digits(s: Seq<char>) -> bool {
    forall|i: int| 0 <= i < s.len() ==> is_digit(#[trigger] s[i])
}

/// The `i32` that `s` spells: an optional `+` or `-` sign followed by one
/// or more digits, whose value fits in an `i32`.
pub open spec fn parse_i32_spec(s: Seq<char>) -> Option<i32> {
    let negative = s.len() > 0 && s[0] == '-';
    let digits = if s.len() > 0 && (s[0] == '-' || s[0] == '+') {
        s.drop_first()
    } else {
        s
    };
    let v = if negative {
        -digits_value(digits)
    } else {
        digits_value(digits)
    };
    if digits.len() == 0 || !all_digits(digits) {
        None
    } else if i32::MIN <= v <= i32::MAX {
        Some(v as i32)
    } else {
        None
    }
}

/// The port that the text of a port file records: the text without
/// surrounding white space, read as an `i32`.
pub open spec fn port_of_text(text: Seq<char>) -> Option<i32> {
    parse_i32_spec(trim_spec(text))
}

/// Appends the decimal numeral of `n`.
pub(crate) fn append_decimal(r: &mut String, n: u64)
    ensures
        final(r)@ == old(r)@ + decimal_spec(n as nat),
    decreases n,
{
    if n >= 10 {
        append_decimal(r, n / 10);
    }
    let d = (n % 10) as usize;
    let digits = "0123456789";
    proof {
        reveal_strlit("0123456789");
    }
    let ghost before = r@;
    r.append(digits.substring_char(d, d + 1));
    proof {
        assert(digits@.subrange(d as int, d + 1) =~= seq![digit_char(d as int)]);
        if n >= 10 {
            assert(r@ =~= old(r)@ + decimal_spec(n as nat));
        } else {
            assert(r@ =~= old(r)@ + decimal_spec(n as nat));
        }
    }
}

/// The text that records `port` in a port file.
pub fn port_file_text(port: i32) -> (r: String)
    ensures
        r@ == port_text_spec(port),
{
    let mut r = String::new();
    if port < 0 {
        proof {
            reveal_strlit("-");
        }
        r.append("-");
        let magnitude: i64 = -(port as i64);
        append_decimal(&mut r, magnitude as u64);
    } else {
        append_decimal(&mut r, port as u64);
    }
    proof {
        assert(r@ =~= port_text_spec(port));
    }
    r
}

/// The largest magnitude that the digit loop keeps track of exactly; any
/// larger value is out of the range of an `i32` in either sign.
const DIGITS_CAP: i64 = 2147483649;

proof fn lemma_digits_step(s: Seq<char>, k: int)
    requires
        0 <= k < s.len(),
    ensures
        digits_value(s.subrange(0, k + 1)) == digits_value(s.subrange(0, k)) * 10 + digit_value(
            s[k],
        ),
{
    assert(s.subrange(0, k + 1).drop_last() =~= s.subrange(0, k));
}

proof fn lemma_digits_nonneg(s: Seq<char>)
    requires
        all_digits(s),
    ensures
        digits_value(s) >= 0,
    decreases s.len(),
{
    if s.len() > 0 {
        lemma_digits_nonneg(s.drop_last());
        assert(is_digit(s[s.len() - 1]));
    }
}

/// The value of the digits of `s` from `start` on, capped at `DIGITS_CAP`,
/// or `None` where one of them is not a digit or there are none.
fn capped_digits(s: &str, start: usize) -> (r: Option<i64>)
    requires
        start <= s@.len(),
    ensures
        match r {
            Some(v) => {
                let d = s@.subrange(start as int, s@.len() as int);
                &&& d.len() > 0
                &&& all_digits(d)
                &&& 0 <= v <= DIGITS_CAP
                &&& v == (if digits_value(d) < DIGITS_CAP {
                    digits_value(d)
                } else {
                    DIGITS_CAP as int
                })
            },
            None => {
                let d = s@.subrange(start as int, s@.len() as int);
                d.len() == 0 || !all_digits(d)
            },
        },
{
    let n = s.unicode_len();
    if start == n {
        return None;
    }
    let ghost d = s@.subrange(start as int, n as int);
    let mut acc: i64 = 0;
    let mut i: usize = start;
    assert(d.subrange(0, 0) =~= Seq::<char>::empty());
    while i < n
        invariant
            n == s@.len(),
            start < n,
            start <= i <= n,
            d == s@.subrange(start as int, n as int),
            all_digits(d.subrange(0, i - start)),
            0 <= acc <= DIGITS_CAP,
            acc == (if digits_value(d.subrange(0, i - start)) < DIGITS_CAP {
                digits_value(d.subrange(0, i - start))
            } else {
                DIGITS_CAP as int
            }),
        decreases n - i,
    {
        let c = s.get_char(i);
        if !('0' <= c && c <= '9') {
            proof {
                assert(d[i - start] == c);
                assert(!is_digit(d[i - start]));
            }
            return None;
        }
        let dv: i64 = (c as u32 - 48) as i64;
        proof {
            let k = i - start;
            lemma_digits_step(d, k);
            lemma_digits_nonneg(d.subrange(0, k));
            assert(d[k] == c);
            assert(d.subrange(0, k + 1).drop_last() =~= d.subrange(0, k));
            assert forall|j: int| 0 <= j < k + 1 implies is_digit(#[trigger] d.subrange(0, k + 1)[j]) by {
                if j < k {
                    assert(d.subrange(0, k + 1)[j] == d.subrange(0, k)[j]);
                }
            }
        }
        let next = acc * 10 + dv;
        if next < DIGITS_CAP {
            acc = next;
        } else {
            acc = DIGITS_CAP;
        }
        i = i + 1;
    }
    assert(d.subrange(0, n - start) =~= d);
    Some(acc)
}

/// The `i32` that `s` spells: an optional `+` or `-` sign followed by one
/// or more digits, whose value fits in an `i32`; `None` otherwise.
pub fn parse_i32(s: &str) -> (r: Option<i32>)
    ensures
        r == parse_i32_spec(s@),
{
    let n = s.unicode_len();
    let negative = n > 0 && s.get_char(0) == '-';
    let signed = n > 0 && (s.get_char(0) == '-' || s.get_char(0) == '+');
    let start: usize = if signed {
        1
    } else {
        0
    };
    proof {
        if signed {
            assert(s@.subrange(1, s@.len() as int) =~= s@.drop_first());
        } else {
            assert(s@.subrange(0, s@.len() as int) =~= s@);
        }
    }
    match capped_digits(s, start) {
        None => None,
        Some(v) => {
            if negative {
                if v <= 2147483648 {
                    Some((-v) as i32)
                } else {
                    None
                }
            } else {
                if v <= 2147483647 {
                    Some(v as i32)
                } else {
                    None
                }
            }
        },
    }
}

/// The port that the text of a port file records: the text without
/// surrounding white space, read as an `i32`.
pub fn parse_port_text(text: &str) -> (r: Option<i32>)
    ensures
        r == port_of_text(text@),
{
    parse_i32(trim(text))
}

/// What reading a port file gave.
pub enum PortRead {
    /// The file's text.
    Contents(String),
    /// There is no such file yet.
    Missing,
    /// The file could not be read for another reason.
    Failed,
}

/// What a process waiting for a port file does next.
#[derive(PartialEq, Eq, Debug)]
pub enum PortWaitAction {
    /// The file records this port.
    Found(i32),
    /// The file holds text that is not a port.
    InvalidValue,
    /// The file is still missing and the deadline has passed.
    TimedOut,
    /// The file is still missing; sleep for the poll interval and read again.
    Retry,
    /// The file could not be read.
    ReadFailed,
}

/// The next step of waiting for a port file, given what the last read gave
/// and whether the deadline has passed.
pub open spec fn port_wait_spec(read: PortRead, deadline_passed: bool) -> PortWaitAction {
    match read {
        PortRead::Contents(text) => match port_of_text(text@) {
            Some(port) => PortWaitAction::Found(port),
            None => PortWaitAction::InvalidValue,
        },
        PortRead::Missing => if deadline_passed {
            PortWaitAction::TimedOut
        } else {
            PortWaitAction::Retry
        },
        PortRead::Failed => PortWaitAction::ReadFailed,
    }
}

/// The next step of waiting for a port file: a file that is there decides
/// at once, a missing one is read again until the deadline passes.
pub fn next_port_wait_action(read: &PortRead, deadline_passed: bool) -> (a: PortWaitAction)
    ensures
        a == port_wait_spec(*read, deadline_passed),
{
    match read {
        PortRead::Contents(text) => match parse_port_text(text.as_str()) {
            Some(port) => PortWaitAction::Found(port),
            None => PortWaitAction::InvalidValue,
        },
        PortRead::Missing => if deadline_passed {
            PortWaitAction::TimedOut
        } else {
            PortWaitAction::Retry
        },
        PortRead::Failed => PortWaitAction::ReadFailed,
    }
}

proof fn lemma_digit_char(d: int)
    requires
        0 <= d < 10,
    ensures
        is_digit(digit_char(d)),
        digit_value(digit_char(d)) == d,
        !is_white_space(digit_char(d)),
        digit_char(d) != '-',
        digit_char(d) != '+',
{
}

proof fn lemma_decimal(n: nat)
    ensures
        decimal_spec(n).len() > 0,
        all_digits(decimal_spec(n)),
        digits_value(decimal_spec(n)) == n,
        !is_white_space(decimal_spec(n)[0]),
        !is_white_space(decimal_spec(n).last()),
        is_digit(decimal_spec(n)[0]),
    decreases n,
{
    if n < 10 {
        lemma_digit_char(n as int);
        assert(decimal_spec(n).drop_last() =~= Seq::<char>::empty());
        assert(digits_value(Seq::<char>::empty()) == 0);
    } else {
        lemma_decimal(n / 10);
        lemma_digit_char((n % 10) as int);
        let front = decimal_spec(n / 10);
        let s = decimal_spec(n);
        assert(s.drop_last() =~= front);
        assert(digits_value(s) == digits_value(front) * 10 + digit_value(s.last()));
        assert(n == (n / 10) * 10 + n % 10);
        assert forall|i: int| 0 <= i < s.len() implies is_digit(#[trigger] s[i]) by {
            if i < front.len() {
                assert(s[i] == front[i]);
            }
        }
    }
}

proof fn lemma_trim_keeps(s: Seq<char>)
    requires
        s.len() > 0,
        !is_white_space(s[0]),
        !is_white_space(s.last()),
    ensures
        trim_spec(s) == s,
{
    assert(trim_start_spec(s) == s);
    assert(trim_end_spec(s) == s);
}

/// A port written to a port file reads back as the same port.
pub proof fn law_port_text_reads_back(port: i32)
    ensures
        port_of_text(port_text_spec(port)) == Some(port),
{
    let s = port_text_spec(port);
    if port < 0 {
        let m = (-port) as nat;
        lemma_decimal(m);
        let d = decimal_spec(m);
        assert(s.drop_first() =~= d);
        assert(s[0] == '-');
        assert(s.last() == d.last());
        lemma_trim_keeps(s);
    } else {
        lemma_decimal(port as nat);
        lemma_trim_keeps(s);
    }
}

} // verus!
