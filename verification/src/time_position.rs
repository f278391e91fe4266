//! A duration as an hours / minutes / seconds / milliseconds value,
//! convertible to and from a plain millisecond count and to and from a
//! display string such as `1:02:03.500`.

use crate::text::{
    dec_str, digit_val, find_first, is_digit, is_digit_exec, min2_str, three_digits,
    u64_to_min2_string, u64_to_string,
};
use vstd::arithmetic::div_mod::{lemma_div_denominator, lemma_fundamental_div_mod};
use vstd::prelude::*;
use vstd::string::StrSliceExecFns;
use vstd::string::StringExecFns;

verus! {

/// A duration, held as separate fields. A value built by
/// `from_milliseconds` is well formed (`wf`); one read back from a
/// display string may carry minutes or seconds up to 99, since the
/// display pattern checks digit count, not range.
#[derive(Clone, Copy, Debug, PartialEq, Eq, Structural)]
pub struct TimePosition {
    pub hours: u64,
    pub minutes: u64,
    pub seconds: u64,
    pub milliseconds: u64,
}

pub const MS_PER_SECOND: u64 = 1000;

pub const MS_PER_MINUTE: u64 = 60000;

pub const MS_PER_HOUR: u64 = 3600000;

impl TimePosition {
    /// Fields in their carrying ranges.
    pub open spec fn wf(self) -> bool {
        self.minutes < 60 && self.seconds < 60 && self.milliseconds < 1000
    }

    /// The millisecond count this value denotes.
    pub open spec fn total_milliseconds(self) -> int {
        self.hours * 3600000 + self.minutes * 60000 + self.seconds * 1000 + self.milliseconds
    }
}

/// The decomposition of a millisecond count into hours, minutes,
/// seconds and leftover milliseconds.
pub open spec fn spec_from_milliseconds(ms: int) -> TimePosition {
    TimePosition {
        hours: (ms / 3600000) as u64,
        minutes: ((ms / 60000) % 60) as u64,
        seconds: ((ms / 1000) % 60) as u64,
        milliseconds: (ms % 1000) as u64,
    }
}

impl TimePosition {
    /// Decompose a non-negative millisecond count.
    pub fn from_milliseconds(ms: u64) -> (t: TimePosition)
        ensures
            t == spec_from_milliseconds(ms as int),
            t.wf(),
            t.total_milliseconds() == ms,
    {
        let t = TimePosition {
            hours: ms / MS_PER_HOUR,
            minutes: (ms / MS_PER_MINUTE) % 60,
            seconds: (ms / MS_PER_SECOND) % 60,
            milliseconds: ms % MS_PER_SECOND,
        };
        proof {
            lemma_milliseconds_round_trip(ms);
        }
        t
    }

    /// The millisecond count back; exact, no rounding is involved.
    pub fn to_milliseconds(&self) -> (ms: u64)
        requires
            self.total_milliseconds() <= u64::MAX,
        ensures
            ms == self.total_milliseconds(),
    {
        self.hours * MS_PER_HOUR + self.minutes * MS_PER_MINUTE + self.seconds * MS_PER_SECOND
            + self.milliseconds
    }
}

/// Decomposing a millisecond count and summing the fields again gives
/// the count back exactly.
pub proof fn lemma_milliseconds_round_trip(ms: u64)
    ensures
        spec_from_milliseconds(ms as int).wf(),
        spec_from_milliseconds(ms as int).total_milliseconds() == ms,
{
    let m = ms as int;
    let s = m / 1000;
    let mi = m / 60000;
    let h = m / 3600000;
    lemma_fundamental_div_mod(m, 1000);
    lemma_div_denominator(m, 1000, 60);
    assert(s / 60 == mi);
    lemma_fundamental_div_mod(s, 60);
    lemma_div_denominator(m, 60000, 60);
    assert(mi / 60 == h) by {
        lemma_div_denominator(m, 1000, 60);
        lemma_div_denominator(m, 60000, 60);
        assert((m / 60000) / 60 == m / 3600000);
    }
    lemma_fundamental_div_mod(mi, 60);
    let t = spec_from_milliseconds(m);
    assert(t.milliseconds == m - 1000 * s);
    assert(t.seconds == s - 60 * (s / 60));
    assert(t.minutes == mi - 60 * h);
    assert(t.hours == h);
    assert(t.total_milliseconds() == h * 3600000 + (mi - 60 * h) * 60000 + (s - 60 * mi) * 1000 + (
    m - 1000 * s)) by {
        assert(s / 60 == mi);
    }
    assert(h * 3600000 + (mi - 60 * h) * 60000 + (s - 60 * mi) * 1000 + (m - 1000 * s) == m) by (
    nonlinear_arith);
}

/// The display form: unpadded hours, two-digit minutes and seconds,
/// and, when asked for, a dot and exactly three millisecond digits.
pub open spec fn spec_display_string(t: TimePosition, include_milliseconds: bool) -> Seq<char> {
    dec_str(t.hours as nat) + seq![':'] + min2_str(t.minutes as nat) + seq![':'] + min2_str(
        t.seconds as nat,
    ) + if include_milliseconds {
        seq!['.'] + three_digits(t.milliseconds as int)
    } else {
        Seq::<char>::empty()
    }
}

impl TimePosition {
    /// Format as `H:MM:SS` or, with milliseconds, `H:MM:SS.mmm`.
    pub fn to_display_string(&self, include_milliseconds: bool) -> (r: String)
        requires
            self.wf(),
        ensures
            r@ == spec_display_string(*self, include_milliseconds),
    {
        let mut s = u64_to_string(self.hours);
        s.append(":");
        s.append(u64_to_min2_string(self.minutes).as_str());
        s.append(":");
        s.append(u64_to_min2_string(self.seconds).as_str());
        if include_milliseconds {
            s.append(".");
            let ms = self.milliseconds;
            s.append(u64_to_string(ms / 100).as_str());
            s.append(u64_to_string((ms / 10) % 10).as_str());
            s.append(u64_to_string(ms % 10).as_str());
            proof {
                reveal_strlit(":");
                reveal_strlit(".");
                assert(dec_str((ms / 100) as nat) == seq![
                    crate::text::digit_of((ms / 100) as int),
                ]);
                assert(dec_str(((ms / 10) % 10) as nat) == seq![
                    crate::text::digit_of(((ms / 10) % 10) as int),
                ]);
                assert(dec_str((ms % 10) as nat) == seq![crate::text::digit_of((ms % 10) as int)]);
                assert(s@ =~= spec_display_string(*self, include_milliseconds));
            }
        } else {
            proof {
                reveal_strlit(":");
                assert(s@ =~= spec_display_string(*self, include_milliseconds));
            }
        }
        s
    }
}

/// Length of the hour field of a candidate display string: two digits
/// when the second character is a digit, one otherwise.
pub open spec fn hour_len(s: Seq<char>) -> int {
    if s.len() >= 2 && is_digit(s[1]) {
        2
    } else {
        1
    }
}

/// The display pattern: one or two hour digits, a colon, two minute
/// digits, a colon, two second digits, optionally a dot and one to
/// three fraction digits.
pub open spec fn display_match(s: Seq<char>) -> bool {
    let hl = hour_len(s);
    &&& s.len() >= hl + 6
    &&& is_digit(s[0])
    &&& s[hl] == ':'
    &&& is_digit(s[hl + 1])
    &&& is_digit(s[hl + 2])
    &&& s[hl + 3] == ':'
    &&& is_digit(s[hl + 4])
    &&& is_digit(s[hl + 5])
    &&& (s.len() == hl + 6 || (s[hl + 6] == '.' && hl + 8 <= s.len() <= hl + 10 && (forall|i: int|
        hl + 7 <= i < s.len() ==> is_digit(s[i]))))
}

/// Milliseconds denoted by one to three fraction digits, read as if
/// right-padded with zeros to three digits (".5" means 500).
pub open spec fn frac_value(f: Seq<char>) -> int {
    if f.len() == 1 {
        digit_val(f[0]) * 100
    } else if f.len() == 2 {
        digit_val(f[0]) * 100 + digit_val(f[1]) * 10
    } else {
        digit_val(f[0]) * 100 + digit_val(f[1]) * 10 + digit_val(f[2])
    }
}

/// What parsing a display string yields: the field values when the
/// pattern matches, and no value otherwise.
pub open spec fn spec_from_display_string(s: Seq<char>) -> Option<TimePosition> {
    if display_match(s) {
        let hl = hour_len(s);
        Some(
            TimePosition {
                hours: (if hl == 1 {
                    digit_val(s[0])
                } else {
                    digit_val(s[0]) * 10 + digit_val(s[1])
                }) as u64,
                minutes: (digit_val(s[hl + 1]) * 10 + digit_val(s[hl + 2])) as u64,
                seconds: (digit_val(s[hl + 4]) * 10 + digit_val(s[hl + 5])) as u64,
                milliseconds: (if s.len() == hl + 6 {
                    0
                } else {
                    frac_value(s.skip(hl + 7))
                }) as u64,
            },
        )
    } else {
        None
    }
}

fn digit_value_exec(c: char) -> (r: u64)
    requires
        is_digit(c),
    ensures
        r == digit_val(c),
        r <= 9,
{
    (c as u32) as u64 - 48
}

impl TimePosition {
    /// Read a display string back. A fraction of fewer than three
    /// digits is read as if right-padded with zeros, the same rule
    /// `normalize_time` applies; minute and second fields are matched
    /// by digit count, not range, so values up to 99 pass through.
    pub fn from_display_string(time_str: &str) -> (r: Option<TimePosition>)
        ensures
            r == spec_from_display_string(time_str@),
    {
        let len = time_str.unicode_len();
        if len < 2 {
            return None;
        }
        let hl: usize = if is_digit_exec(time_str.get_char(1)) {
            2
        } else {
            1
        };
        if len < hl + 6 {
            return None;
        }
        if !is_digit_exec(time_str.get_char(0)) {
            return None;
        }
        if time_str.get_char(hl) != ':' {
            return None;
        }
        if !is_digit_exec(time_str.get_char(hl + 1)) || !is_digit_exec(time_str.get_char(hl + 2)) {
            return None;
        }
        if time_str.get_char(hl + 3) != ':' {
            return None;
        }
        if !is_digit_exec(time_str.get_char(hl + 4)) || !is_digit_exec(time_str.get_char(hl + 5)) {
            return None;
        }
        let milliseconds: u64;
        if len == hl + 6 {
            milliseconds = 0;
        } else {
            if time_str.get_char(hl + 6) != '.' {
                return None;
            }
            if !(hl + 8 <= len && len <= hl + 10) {
                return None;
            }
            let mut i: usize = hl + 7;
            while i < len
                invariant
                    hl + 7 <= i <= len,
                    len == time_str@.len(),
                    hl == hour_len(time_str@),
                    hl + 8 <= len <= hl + 10,
                    forall|j: int| hl + 7 <= j < i ==> is_digit(time_str@[j]),
                decreases len - i,
            {
                if !is_digit_exec(time_str.get_char(i)) {
                    proof {
                        assert(hl == hour_len(time_str@));
                        assert(hl + 7 <= i < time_str@.len() && !is_digit(time_str@[i as int]));
                        assert(!display_match(time_str@));
                    }
                    return None;
                }
                i += 1;
            }
            let d0 = digit_value_exec(time_str.get_char(hl + 7));
            if len >= hl + 9 {
                let d1 = digit_value_exec(time_str.get_char(hl + 8));
                if len == hl + 10 {
                    let d2 = digit_value_exec(time_str.get_char(hl + 9));
                    milliseconds = d0 * 100 + d1 * 10 + d2;
                } else {
                    milliseconds = d0 * 100 + d1 * 10;
                }
            } else {
                milliseconds = d0 * 100;
            }
            proof {
                let f = time_str@.skip(hl + 7);
                assert(f.len() == len - (hl + 7));
                assert(f[0] == time_str@[hl + 7]);
                if f.len() >= 2 {
                    assert(f[1] == time_str@[hl + 8]);
                }
                if f.len() >= 3 {
                    assert(f[2] == time_str@[hl + 9]);
                }
                assert(milliseconds == frac_value(f));
            }
        }
        let hours: u64 = if hl == 1 {
            digit_value_exec(time_str.get_char(0))
        } else {
            digit_value_exec(time_str.get_char(0)) * 10 + digit_value_exec(time_str.get_char(1))
        };
        let minutes: u64 = digit_value_exec(time_str.get_char(hl + 1)) * 10 + digit_value_exec(
            time_str.get_char(hl + 2),
        );
        let seconds: u64 = digit_value_exec(time_str.get_char(hl + 4)) * 10 + digit_value_exec(
            time_str.get_char(hl + 5),
        );
        proof {
            assert(hl == hour_len(time_str@));
            assert(display_match(time_str@));
        }
        Some(TimePosition { hours, minutes, seconds, milliseconds })
    }
}

proof fn lemma_min2_digits(m: nat)
    requires
        m < 100,
    ensures
        min2_str(m).len() == 2,
        is_digit(min2_str(m)[0]),
        is_digit(min2_str(m)[1]),
        digit_val(min2_str(m)[0]) * 10 + digit_val(min2_str(m)[1]) == m,
{
    if m < 10 {
        crate::text::lemma_digit_of_val(m as int);
        assert(min2_str(m)[0] == '0');
        assert(is_digit('0'));
        assert(digit_val('0') == 0);
    } else {
        assert(dec_str(m / 10) == seq![crate::text::digit_of((m / 10) as int)]);
        crate::text::lemma_digit_of_val((m / 10) as int);
        crate::text::lemma_digit_of_val((m % 10) as int);
        lemma_fundamental_div_mod(m as int, 10);
        assert(min2_str(m) == dec_str(m / 10) + seq![crate::text::digit_of((m % 10) as int)]);
        assert(min2_str(m)[0] == crate::text::digit_of((m / 10) as int));
        assert(min2_str(m)[1] == crate::text::digit_of((m % 10) as int));
    }
}

proof fn lemma_three_digits_value(ms: nat)
    requires
        ms < 1000,
    ensures
        three_digits(ms as int).len() == 3,
        forall|i: int| 0 <= i < 3 ==> is_digit(#[trigger] three_digits(ms as int)[i]),
        frac_value(three_digits(ms as int)) == ms,
{
    let n = ms as int;
    crate::text::lemma_digit_of_val(n / 100);
    crate::text::lemma_digit_of_val((n / 10) % 10);
    crate::text::lemma_digit_of_val(n % 10);
    lemma_fundamental_div_mod(n, 10);
    lemma_fundamental_div_mod(n / 10, 10);
    lemma_div_denominator(n, 10, 10);
    assert((n / 10) / 10 == n / 100);
    assert(n == 10 * (10 * (n / 100) + (n / 10) % 10) + n % 10);
}

/// Formatting a well-formed time with milliseconds and parsing the
/// string back returns the same value, for hours of at most two digits.
/// (Three-digit hours format fine but do not match the parse pattern.)
pub proof fn lemma_display_round_trip(t: TimePosition)
    requires
        t.wf(),
        t.hours <= 99,
    ensures
        spec_from_display_string(spec_display_string(t, true)) == Some(t),
{
    let h = t.hours as int;
    let m = t.minutes as int;
    let sec = t.seconds as int;
    let ms = t.milliseconds as int;
    let s = spec_display_string(t, true);
    let hd = dec_str(t.hours as nat);
    let mm = min2_str(t.minutes as nat);
    let ss = min2_str(t.seconds as nat);
    let f3 = three_digits(ms);
    lemma_min2_digits(t.minutes as nat);
    lemma_min2_digits(t.seconds as nat);
    lemma_three_digits_value(t.milliseconds as nat);
    if h < 10 {
        crate::text::lemma_digit_of_val(h);
        assert(hd == seq![crate::text::digit_of(h)]);
        assert(s.len() == 11);
        assert(s[0] == crate::text::digit_of(h));
        assert(s[1] == ':');
        assert(s[2] == mm[0]);
        assert(s[3] == mm[1]);
        assert(s[4] == ':');
        assert(s[5] == ss[0]);
        assert(s[6] == ss[1]);
        assert(s[7] == '.');
        assert(s[8] == f3[0]);
        assert(s[9] == f3[1]);
        assert(s[10] == f3[2]);
        assert(!is_digit(':'));
        assert(hour_len(s) == 1);
        assert(s.skip(8) =~= f3);
        assert(display_match(s));
        let r = spec_from_display_string(s)->Some_0;
        assert(r.hours == t.hours);
        assert(r.minutes == t.minutes);
        assert(r.seconds == t.seconds);
        assert(r.milliseconds == t.milliseconds);
    } else {
        crate::text::lemma_digit_of_val(h / 10);
        crate::text::lemma_digit_of_val(h % 10);
        lemma_fundamental_div_mod(h, 10);
        assert(dec_str((h / 10) as nat) == seq![crate::text::digit_of(h / 10)]);
        assert(hd == dec_str((h / 10) as nat) + seq![crate::text::digit_of(h % 10)]);
        assert(hd.len() == 2);
        assert(hd[0] == crate::text::digit_of(h / 10));
        assert(hd[1] == crate::text::digit_of(h % 10));
        assert(s.len() == 12);
        assert(s[0] == hd[0]);
        assert(s[1] == hd[1]);
        assert(s[2] == ':');
        assert(s[3] == mm[0]);
        assert(s[4] == mm[1]);
        assert(s[5] == ':');
        assert(s[6] == ss[0]);
        assert(s[7] == ss[1]);
        assert(s[8] == '.');
        assert(s[9] == f3[0]);
        assert(s[10] == f3[1]);
        assert(s[11] == f3[2]);
        assert(hour_len(s) == 2);
        assert(s.skip(9) =~= f3);
        assert(display_match(s));
        let r = spec_from_display_string(s)->Some_0;
        assert(r.hours == t.hours);
        assert(r.minutes == t.minutes);
        assert(r.seconds == t.seconds);
        assert(r.milliseconds == t.milliseconds);
    }
}

} // verus!
