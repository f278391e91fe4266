//! Character classes, decimal strings, trimming and splitting: the
//! text primitives shared by the time and chapter components.

use vstd::prelude::*;
use vstd::string::StrSliceExecFns;
use vstd::string::StringExecFns;

verus! {

/// The ten ASCII digit characters.
pub open spec fn is_digit(c: char) -> bool {
    48 <= c as int && c as int <= 57
}

/// Numeric value of an ASCII digit character.
pub open spec fn digit_val(c: char) -> int {
    c as int - 48
}

/// The digit character for a value below ten.
pub open spec fn digit_of(d: int) -> char {
    if d == 0 {
        '0'
    } else if d == 1 {
        '1'
    } else if d == 2 {
        '2'
    } else if d == 3 {
        '3'
    } else if d == 4 {
        '4'
    } else if d == 5 {
        '5'
    } else if d == 6 {
        '6'
    } else if d == 7 {
        '7'
    } else if d == 8 {
        '8'
    } else {
        '9'
    }
}

pub fn is_digit_exec(c: char) -> (r: bool)
    ensures
        r == is_digit(c),
{
    let u = c as u32;
    48 <= u && u <= 57
}

/// Decimal digits of a non-negative integer, no padding.
pub open spec fn dec_str(n: nat) -> Seq<char>
    decreases n,
{
    if n < 10 {
        seq![digit_of(n as int)]
    } else {
        dec_str(n / 10) + seq![digit_of((n % 10) as int)]
    }
}

/// Decimal digits, zero-padded on the left to a minimum width of two.
pub open spec fn min2_str(n: nat) -> Seq<char> {
    if n < 10 {
        seq!['0', digit_of(n as int)]
    } else {
        dec_str(n)
    }
}

/// Exactly three decimal digits of a value below one thousand.
pub open spec fn three_digits(n: int) -> Seq<char> {
    seq![digit_of(n / 100), digit_of((n / 10) % 10), digit_of(n % 10)]
}

pub proof fn lemma_digit_of_val(d: int)
    requires
        0 <= d < 10,
    ensures
        is_digit(digit_of(d)),
        digit_val(digit_of(d)) == d,
{
}

fn digit_str(d: u64) -> (r: &'static str)
    requires
        d < 10,
    ensures
        r@ == seq![digit_of(d as int)],
{
    proof {
        reveal_strlit("0");
        reveal_strlit("1");
        reveal_strlit("2");
        reveal_strlit("3");
        reveal_strlit("4");
        reveal_strlit("5");
        reveal_strlit("6");
        reveal_strlit("7");
        reveal_strlit("8");
        reveal_strlit("9");
    }
    let r = if d == 0 {
        "0"
    } else if d == 1 {
        "1"
    } else if d == 2 {
        "2"
    } else if d == 3 {
        "3"
    } else if d == 4 {
        "4"
    } else if d == 5 {
        "5"
    } else if d == 6 {
        "6"
    } else if d == 7 {
        "7"
    } else if d == 8 {
        "8"
    } else {
        "9"
    };
    proof {
        assert(r@ =~= seq![digit_of(d as int)]);
    }
    r
}

/// Decimal rendering of `n`, as `format!("{}", n)` prints it.
pub fn u64_to_string(n: u64) -> (r: String)
    ensures
        r@ == dec_str(n as nat),
    decreases n,
{
    if n < 10 {
        digit_str(n).to_owned()
    } else {
        let mut s = u64_to_string(n / 10);
        s.append(digit_str(n % 10));
        proof {
            assert(s@ =~= dec_str(n as nat));
        }
        s
    }
}

/// Decimal rendering of `n` padded to width two, as `format!("{:02}", n)`.
pub fn u64_to_min2_string(n: u64) -> (r: String)
    ensures
        r@ == min2_str(n as nat),
{
    if n < 10 {
        let mut s = "0".to_owned();
        s.append(digit_str(n));
        proof {
            reveal_strlit("0");
            assert(s@ =~= min2_str(n as nat));
        }
        s
    } else {
        u64_to_string(n)
    }
}

/// Index of the first occurrence of `c` in `s`, or `s.len()` if absent.
pub open spec fn find_first(s: Seq<char>, c: char) -> int
    decreases s.len(),
{
    if s.len() == 0 {
        0
    } else if s[0] == c {
        0
    } else {
        1 + find_first(s.drop_first(), c)
    }
}

/// `find_first` is pinned down by its characterization: everything
/// before it differs from `c`, and it points at `c` unless `c` is absent.
pub proof fn lemma_find_first_characterization(s: Seq<char>, c: char, k: int)
    requires
        0 <= k <= s.len(),
        forall|i: int| 0 <= i < k ==> s[i] != c,
        k == s.len() || s[k] == c,
    ensures
        find_first(s, c) == k,
    decreases s.len(),
{
    if s.len() == 0 {
    } else if s[0] == c {
        assert(k == 0);
    } else {
        assert(k >= 1);
        let t = s.drop_first();
        assert(forall|i: int| 0 <= i < k - 1 ==> t[i] == s[i + 1] && t[i] != c);
        lemma_find_first_characterization(t, c, k - 1);
    }
}

/// Scan for the first occurrence of `c`; `s.len()` when absent.
pub fn find_first_exec(s: &str, c: char) -> (r: usize)
    ensures
        r == find_first(s@, c),
        r <= s@.len(),
{
    let len = s.unicode_len();
    let mut i: usize = 0;
    while i < len
        invariant
            0 <= i <= len,
            len == s@.len(),
            forall|j: int| 0 <= j < i ==> s@[j] != c,
        decreases len - i,
    {
        if s.get_char(i) == c {
            proof {
                lemma_find_first_characterization(s@, c, i as int);
            }
            return i;
        }
        i += 1;
    }
    proof {
        lemma_find_first_characterization(s@, c, len as int);
    }
    len
}

/// Split on every occurrence of `sep`, as `str::split` does: the result
/// always has one more element than there are separators, and an empty
/// input yields one empty piece.
pub open spec fn split_at(s: Seq<char>, sep: char) -> Seq<Seq<char>>
    decreases s.len(),
{
    if s.len() == 0 {
        seq![Seq::<char>::empty()]
    } else if s[0] == sep {
        seq![Seq::<char>::empty()] + split_at(s.drop_first(), sep)
    } else {
        let rest = split_at(s.drop_first(), sep);
        seq![seq![s[0]] + rest[0]] + rest.drop_first()
    }
}

pub proof fn lemma_split_at_len(s: Seq<char>, sep: char)
    ensures
        split_at(s, sep).len() >= 1,
    decreases s.len(),
{
    if s.len() == 0 {
    } else {
        lemma_split_at_len(s.drop_first(), sep);
    }
}

/// A separator-free string splits into just itself.
pub proof fn lemma_split_at_whole(s: Seq<char>, sep: char)
    requires
        forall|i: int| 0 <= i < s.len() ==> s[i] != sep,
    ensures
        split_at(s, sep) == seq![s],
    decreases s.len(),
{
    if s.len() == 0 {
        assert(s =~= Seq::<char>::empty());
        assert(split_at(s, sep) =~~= seq![s]);
    } else {
        let t = s.drop_first();
        lemma_split_at_whole(t, sep);
        lemma_split_at_len(t, sep);
        let rest = split_at(t, sep);
        assert(rest[0] == t);
        assert(seq![s[0]] + t =~= s);
        assert(rest.drop_first() =~= Seq::<Seq<char>>::empty());
        assert(split_at(s, sep) == seq![seq![s[0]] + rest[0]] + rest.drop_first());
        assert(split_at(s, sep) =~~= seq![s]);
    }
}

/// Splitting takes the piece before the first separator and recurses
/// after it.
pub proof fn lemma_split_at_step(s: Seq<char>, sep: char, k: int)
    requires
        0 <= k < s.len(),
        forall|i: int| 0 <= i < k ==> s[i] != sep,
        s[k] == sep,
    ensures
        split_at(s, sep) == seq![s.take(k)] + split_at(s.skip(k + 1), sep),
    decreases s.len(),
{
    if k == 0 {
        assert(s.take(0) =~= Seq::<char>::empty());
        assert(s.skip(1) =~= s.drop_first());
        assert(split_at(s, sep) =~= seq![s.take(0)] + split_at(s.skip(1), sep));
    } else {
        let t = s.drop_first();
        assert(forall|i: int| 0 <= i < k - 1 ==> t[i] == s[i + 1] && t[i] != sep);
        assert(t[k - 1] == sep);
        lemma_split_at_step(t, sep, k - 1);
        lemma_split_at_len(t, sep);
        let rest = split_at(t, sep);
        assert(rest[0] == t.take(k - 1));
        assert(seq![s[0]] + t.take(k - 1) =~= s.take(k));
        assert(t.skip(k) =~= s.skip(k + 1));
        assert(split_at(s, sep) =~= seq![s.take(k)] + split_at(s.skip(k + 1), sep));
    }
}

/// Split `s` on every occurrence of `sep`, as `str::split` does.
pub fn split_str(s: &str, sep: char) -> (r: Vec<String>)
    ensures
        r.deep_view() == split_at(s@, sep),
        r@.len() >= 1,
{
    let len = s.unicode_len();
    let mut pieces: Vec<String> = Vec::new();
    let mut start: usize = 0;
    proof {
        assert(s@.skip(0) =~= s@);
        assert(pieces.deep_view() =~= Seq::<Seq<char>>::empty());
        assert(pieces.deep_view() + split_at(s@, sep) =~= split_at(s@, sep));
    }
    loop
        invariant
            0 <= start <= len,
            len == s@.len(),
            split_at(s@, sep) == pieces.deep_view() + split_at(s@.skip(start as int), sep),
            pieces.deep_view().len() == pieces@.len(),
        decreases len - start,
    {
        let mut j: usize = start;
        while j < len && s.get_char(j) != sep
            invariant
                start <= j <= len,
                len == s@.len(),
                forall|i: int| start <= i < j ==> s@[i] != sep,
            decreases len - j,
        {
            j += 1;
        }
        let piece = s.substring_char(start, j).to_owned();
        let ghost pv = piece@;
        let ghost old_pieces = pieces.deep_view();
        pieces.push(piece);
        proof {
            assert(pieces.deep_view() =~= old_pieces.push(pv));
        }
        if j == len {
            proof {
                let rem = s@.skip(start as int);
                assert(forall|i: int|
                    0 <= i < rem.len() ==> rem[i] == s@[start + i] && rem[i] != sep);
                lemma_split_at_whole(rem, sep);
                assert(pv =~= rem);
                assert(split_at(s@, sep) =~= pieces.deep_view());
                lemma_split_at_len(s@, sep);
            }
            return pieces;
        }
        proof {
            let rem = s@.skip(start as int);
            let k = j - start;
            assert(forall|i: int| 0 <= i < k ==> rem[i] == s@[start + i] && rem[i] != sep);
            assert(rem[k] == s@[j as int]);
            lemma_split_at_step(rem, sep, k);
            assert(rem.take(k) =~= pv);
            assert(rem.skip(k + 1) =~= s@.skip(j + 1));
            assert(split_at(s@, sep) =~= pieces.deep_view() + split_at(s@.skip(j + 1), sep));
        }
        start = j + 1;
    }
}

/// The whitespace characters this library trims: the Unicode
/// `White_Space` set, as `str::trim` removes (pasted chapter text may
/// carry ideographic spaces and no-break spaces around its titles).
pub open spec fn is_space(c: char) -> bool {
    ||| c == '\u{9}'
    ||| c == '\u{A}'
    ||| c == '\u{B}'
    ||| c == '\u{C}'
    ||| c == '\u{D}'
    ||| c == ' '
    ||| c == '\u{85}'
    ||| c == '\u{A0}'
    ||| c == '\u{1680}'
    ||| (8192 <= c as int && c as int <= 8202)
    ||| c == '\u{2028}'
    ||| c == '\u{2029}'
    ||| c == '\u{202F}'
    ||| c == '\u{205F}'
    ||| c == '\u{3000}'
}

pub fn is_space_exec(c: char) -> (r: bool)
    ensures
        r == is_space(c),
{
    let u = c as u32;
    c == '\u{9}' || c == '\u{A}' || c == '\u{B}' || c == '\u{C}' || c == '\u{D}' || c == ' ' || c
        == '\u{85}' || c == '\u{A0}' || c == '\u{1680}' || (8192 <= u && u <= 8202) || c
        == '\u{2028}' || c == '\u{2029}' || c == '\u{202F}' || c == '\u{205F}' || c == '\u{3000}'
}

pub open spec fn trim_start(s: Seq<char>) -> Seq<char>
    decreases s.len(),
{
    if s.len() > 0 && is_space(s[0]) {
        trim_start(s.drop_first())
    } else {
        s
    }
}

pub open spec fn trim_end(s: Seq<char>) -> Seq<char>
    decreases s.len(),
{
    if s.len() > 0 && is_space(s.last()) {
        trim_end(s.drop_last())
    } else {
        s
    }
}

/// Both ends stripped of whitespace.
pub open spec fn trim(s: Seq<char>) -> Seq<char> {
    trim_end(trim_start(s))
}

pub proof fn lemma_trim_start_at(s: Seq<char>, a: int)
    requires
        0 <= a <= s.len(),
        forall|i: int| 0 <= i < a ==> is_space(s[i]),
        a == s.len() || !is_space(s[a]),
    ensures
        trim_start(s) == s.skip(a),
    decreases a,
{
    if a == 0 {
        assert(s.skip(0) =~= s);
    } else {
        let t = s.drop_first();
        assert(forall|i: int| 0 <= i < a - 1 ==> t[i] == s[i + 1] && is_space(t[i]));
        lemma_trim_start_at(t, a - 1);
        assert(t.skip(a - 1) =~= s.skip(a));
    }
}

pub proof fn lemma_trim_end_at(s: Seq<char>, b: int)
    requires
        0 <= b <= s.len(),
        forall|i: int| b <= i < s.len() ==> is_space(s[i]),
        b == 0 || !is_space(s[b - 1]),
    ensures
        trim_end(s) == s.take(b),
    decreases s.len() - b,
{
    if b == s.len() {
        assert(s.take(b) =~= s);
    } else {
        let t = s.drop_last();
        assert(is_space(s.last()));
        assert(forall|i: int| b <= i < t.len() ==> t[i] == s[i] && is_space(t[i]));
        lemma_trim_end_at(t, b);
        assert(t.take(b) =~= s.take(b));
    }
}

/// Start and end of the trimmed middle of `s`: everything before `a`
/// and from `b` on is whitespace, and `trim(s@)` is exactly `s@[a..b]`.
pub fn trim_bounds(s: &str) -> (r: (usize, usize))
    ensures
        r.0 <= r.1 <= s@.len(),
        trim(s@) == s@.subrange(r.0 as int, r.1 as int),
{
    let len = s.unicode_len();
    let mut a: usize = 0;
    while a < len && is_space_exec(s.get_char(a))
        invariant
            0 <= a <= len,
            len == s@.len(),
            forall|i: int| 0 <= i < a ==> is_space(s@[i]),
        decreases len - a,
    {
        a += 1;
    }
    proof {
        lemma_trim_start_at(s@, a as int);
    }
    if a == len {
        proof {
            assert(trim_start(s@).len() == 0);
            assert(trim(s@) =~= s@.subrange(len as int, len as int));
        }
        return (len, len);
    }
    let mut b: usize = len;
    while b > a && is_space_exec(s.get_char(b - 1))
        invariant
            a <= b <= len,
            len == s@.len(),
            forall|i: int| b <= i < len ==> is_space(s@[i]),
        decreases b,
    {
        b -= 1;
    }
    proof {
        let t = s@.skip(a as int);
        assert(!is_space(s@[a as int]));
        assert(b > a);
        assert(!is_space(s@[b - 1]));
        assert(forall|i: int|
            b - a <= i < t.len() ==> t[i] == s@[i + a] && is_space(t[i]));
        assert(t[b - a - 1] == s@[b - 1]);
        lemma_trim_end_at(t, b - a);
        assert(t.take(b - a) =~= s@.subrange(a as int, b as int));
    }
    (a, b)
}

/// True when the string is empty or all whitespace.
pub fn is_blank(s: &str) -> (r: bool)
    ensures
        r == (trim(s@).len() == 0),
{
    let (a, b) = trim_bounds(s);
    a == b
}

/// Characters stripped from the front of a title: `-` and space.
pub open spec fn is_title_mark(c: char) -> bool {
    c == '-' || c == ' '
}

pub fn is_title_mark_exec(c: char) -> (r: bool)
    ensures
        r == is_title_mark(c),
{
    c == '-' || c == ' '
}

/// Leading run of `-` and space characters removed.
pub open spec fn strip_marks(s: Seq<char>) -> Seq<char>
    decreases s.len(),
{
    if s.len() > 0 && is_title_mark(s[0]) {
        strip_marks(s.drop_first())
    } else {
        s
    }
}

pub proof fn lemma_strip_marks_at(s: Seq<char>, a: int)
    requires
        0 <= a <= s.len(),
        forall|i: int| 0 <= i < a ==> is_title_mark(s[i]),
        a == s.len() || !is_title_mark(s[a]),
    ensures
        strip_marks(s) == s.skip(a),
    decreases a,
{
    if a == 0 {
        assert(s.skip(0) =~= s);
    } else {
        let t = s.drop_first();
        assert(forall|i: int| 0 <= i < a - 1 ==> t[i] == s[i + 1] && is_title_mark(t[i]));
        lemma_strip_marks_at(t, a - 1);
        assert(t.skip(a - 1) =~= s.skip(a));
    }
}

/// Trailing run of `-` and space characters removed.
pub open spec fn strip_marks_end(s: Seq<char>) -> Seq<char>
    decreases s.len(),
{
    if s.len() > 0 && is_title_mark(s.last()) {
        strip_marks_end(s.drop_last())
    } else {
        s
    }
}

pub proof fn lemma_strip_marks_end_at(s: Seq<char>, b: int)
    requires
        0 <= b <= s.len(),
        forall|i: int| b <= i < s.len() ==> is_title_mark(s[i]),
        b == 0 || !is_title_mark(s[b - 1]),
    ensures
        strip_marks_end(s) == s.take(b),
    decreases s.len() - b,
{
    if b == s.len() {
        assert(s.take(b) =~= s);
    } else {
        let t = s.drop_last();
        assert(forall|i: int| b <= i < t.len() ==> t[i] == s[i] && is_title_mark(t[i]));
        lemma_strip_marks_end_at(t, b);
        assert(t.take(b) =~= s.take(b));
    }
}

/// A title taken from one line of many: trimmed of whitespace, then
/// stripped of its leading run of `-` and space characters only — a
/// trailing `-` is kept, since nothing follows it on the line.
pub open spec fn line_title_of(s: Seq<char>) -> Seq<char> {
    strip_marks(trim(s))
}

pub fn line_title(s: &str) -> (r: String)
    ensures
        r@ == line_title_of(s@),
{
    let (a, b) = trim_bounds(s);
    let ghost t = s@.subrange(a as int, b as int);
    let mut a2: usize = a;
    while a2 < b && is_title_mark_exec(s.get_char(a2))
        invariant
            a <= a2 <= b <= s@.len(),
            forall|i: int| a <= i < a2 ==> is_title_mark(s@[i]),
        decreases b - a2,
    {
        a2 += 1;
    }
    proof {
        assert(forall|i: int| 0 <= i < a2 - a ==> t[i] == s@[i + a] && is_title_mark(t[i]));
        assert(a2 - a == t.len() || !is_title_mark(t[a2 - a]));
        lemma_strip_marks_at(t, a2 - a);
        assert(t.skip(a2 - a) =~= s@.subrange(a2 as int, b as int));
    }
    s.substring_char(a2, b).to_owned()
}

/// A title cut out between two timestamps of a single line: trimmed of
/// whitespace, then stripped of the leading and trailing runs of `-`
/// and space characters that separate it from the timestamps around it.
pub open spec fn clean_title_of(s: Seq<char>) -> Seq<char> {
    strip_marks_end(strip_marks(trim(s)))
}

pub fn clean_title(s: &str) -> (r: String)
    ensures
        r@ == clean_title_of(s@),
{
    let (a, b) = trim_bounds(s);
    let ghost t = s@.subrange(a as int, b as int);
    let mut a2: usize = a;
    while a2 < b && is_title_mark_exec(s.get_char(a2))
        invariant
            a <= a2 <= b <= s@.len(),
            forall|i: int| a <= i < a2 ==> is_title_mark(s@[i]),
        decreases b - a2,
    {
        a2 += 1;
    }
    proof {
        assert(forall|i: int| 0 <= i < a2 - a ==> t[i] == s@[i + a] && is_title_mark(t[i]));
        assert(a2 - a == t.len() || !is_title_mark(t[a2 - a]));
        lemma_strip_marks_at(t, a2 - a);
        assert(t.skip(a2 - a) =~= s@.subrange(a2 as int, b as int));
    }
    let ghost u = s@.subrange(a2 as int, b as int);
    let mut b2: usize = b;
    while b2 > a2 && is_title_mark_exec(s.get_char(b2 - 1))
        invariant
            a2 <= b2 <= b <= s@.len(),
            forall|i: int| b2 <= i < b ==> is_title_mark(s@[i]),
        decreases b2,
    {
        b2 -= 1;
    }
    proof {
        assert(forall|i: int| b2 - a2 <= i < u.len() ==> u[i] == s@[i + a2] && is_title_mark(u[i]));
        if b2 > a2 {
            assert(u[b2 - a2 - 1] == s@[b2 - 1]);
        }
        lemma_strip_marks_end_at(u, b2 - a2);
        assert(u.take(b2 - a2) =~= s@.subrange(a2 as int, b2 as int));
    }
    s.substring_char(a2, b2).to_owned()
}

/// Value of a decimal digit string, most significant digit first.
pub open spec fn dec_val(s: Seq<char>) -> int
    decreases s.len(),
{
    if s.len() == 0 {
        0
    } else {
        dec_val(s.drop_last()) * 10 + digit_val(s.last())
    }
}

pub open spec fn all_digits(s: Seq<char>) -> bool {
    forall|i: int| 0 <= i < s.len() ==> is_digit(s[i])
}

/// What a numeric component of a time string denotes: its decimal value
/// when it is a non-empty digit run whose value fits a 32-bit signed
/// integer, and the documented default of zero otherwise.
pub open spec fn parse_or_zero(s: Seq<char>) -> int {
    if s.len() > 0 && all_digits(s) && dec_val(s) <= 2147483647 {
        dec_val(s)
    } else {
        0
    }
}

pub proof fn lemma_dec_val_nonneg(s: Seq<char>)
    requires
        all_digits(s),
    ensures
        dec_val(s) >= 0,
    decreases s.len(),
{
    if s.len() > 0 {
        let t = s.drop_last();
        assert(forall|i: int| 0 <= i < t.len() ==> t[i] == s[i]);
        lemma_dec_val_nonneg(t);
    }
}

/// A digit string is worth at least any of its prefixes.
pub proof fn lemma_dec_val_prefix(s: Seq<char>, j: int)
    requires
        all_digits(s),
        0 <= j <= s.len(),
    ensures
        dec_val(s.take(j)) <= dec_val(s),
    decreases s.len() - j,
{
    if j == s.len() {
        assert(s.take(j) =~= s);
    } else {
        let t = s.drop_last();
        assert(forall|i: int| 0 <= i < t.len() ==> t[i] == s[i]);
        assert(s.take(j) =~= t.take(j));
        lemma_dec_val_prefix(t, j);
        lemma_dec_val_nonneg(t);
        lemma_digit_is_digit_val_bounds(s.last());
    }
}

proof fn lemma_digit_is_digit_val_bounds(c: char)
    requires
        is_digit(c),
    ensures
        0 <= digit_val(c) <= 9,
{
}

/// Parse a run of decimal digits; anything that is not a pure digit
/// string, or whose value exceeds `i32::MAX`, yields the default zero.
pub fn parse_digits_or_zero(s: &str) -> (r: u64)
    ensures
        r == parse_or_zero(s@),
{
    let len = s.unicode_len();
    if len == 0 {
        return 0;
    }
    let mut acc: u64 = 0;
    let mut i: usize = 0;
    while i < len
        invariant
            0 <= i <= len,
            len == s@.len(),
            all_digits(s@.take(i as int)),
            acc == dec_val(s@.take(i as int)),
            acc <= 2147483647,
        decreases len - i,
    {
        let c = s.get_char(i);
        if !is_digit_exec(c) {
            assert(!all_digits(s@));
            return 0;
        }
        let d = (c as u32) as u64 - 48;
        proof {
            assert(s@.take(i + 1).drop_last() =~= s@.take(i as int));
            assert(s@.take(i + 1).last() == s@[i as int]);
            assert(all_digits(s@.take(i + 1)));
        }
        if acc > 214748364 || (acc == 214748364 && d > 7) {
            proof {
                if all_digits(s@) && dec_val(s@) <= 2147483647 {
                    lemma_dec_val_prefix(s@, i + 1);
                    assert(dec_val(s@.take(i + 1)) == acc * 10 + d);
                    assert(false);
                }
            }
            return 0;
        }
        acc = acc * 10 + d;
        i += 1;
    }
    proof {
        assert(s@.take(len as int) =~= s@);
    }
    acc
}

} // verus!
