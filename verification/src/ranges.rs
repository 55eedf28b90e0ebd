//! Half-open integer ranges: construction, intersection tests,
//! counting, parsing from text, and clamping a zero-based value into a
//! list of ranges.

use vstd::prelude::*;

verus! {

/// A half-open range `[from..to)` of 128-bit signed integers.
#[derive(Debug, PartialEq, Eq, PartialOrd, Ord, Hash, Clone, Copy)]
pub struct Range {
    from: i128,
    to: i128,
}

/// Why a range failed to parse.
#[derive(Debug, PartialEq, Eq, Structural, PartialOrd, Ord, Hash, Clone, Copy)]
pub enum RangeError {
    /// The range's start is not below its end.
    Backwards,
    /// A bound is not a number inside the 128-bit signed limits.
    InvalidInteger,
    /// The text does not have the shape `start..end`.
    Syntax,
    /// Two or more ranges intersect.
    Intersecting,
}

impl Range {
    /// The inclusive lower bound.
    pub closed spec fn spec_from(&self) -> i128 {
        self.from
    }

    /// The exclusive upper bound.
    pub closed spec fn spec_to(&self) -> i128 {
        self.to
    }

    /// Creates a range `[from..to)`.
    pub fn new(from: i128, to: i128) -> (r: Range)
        ensures
            r.spec_from() == from,
            r.spec_to() == to,
    {
        Range { from, to }
    }

    /// Creates a range `[from..to]`.
    pub fn new_inclusive(from: i128, to: i128) -> (r: Range)
        requires
            to < i128::MAX,
        ensures
            r.spec_from() == from,
            r.spec_to() == to + 1,
    {
        Range { from, to: to + 1 }
    }

    /// Creates a range of a single number. Same as `new(value, value + 1)`.
    pub fn single(value: i128) -> (r: Range)
        requires
            value < i128::MAX,
        ensures
            r.spec_from() == value,
            r.spec_to() == value + 1,
    {
        Range { from: value, to: value + 1 }
    }

    /// Whether the two ranges share at least one value.
    pub fn intersects(&self, other: &Self) -> (r: bool)
        ensures
            r == (other.spec_to() > self.spec_from() && other.spec_from() < self.spec_to()),
    {
        other.to > self.from && other.from < self.to
    }

    /// How many values the range holds.
    pub fn count(&self) -> (r: i128)
        requires
            self.spec_to() - self.spec_from() <= i128::MAX,
            self.spec_to() - self.spec_from() >= i128::MIN,
        ensures
            r == self.spec_to() - self.spec_from(),
    {
        self.to - self.from
    }
}

/// Where a zero-based `value` falls when the ranges are laid end to
/// end: walking the ranges in order, `value` is reduced by each
/// range's count until it falls inside one; -1 when it falls past the
/// last range.
pub open spec fn spec_clamp(value: int, ranges: Seq<Range>) -> int
    decreases ranges.len(),
{
    if ranges.len() == 0 {
        -1
    } else {
        let count = ranges[0].spec_to() - ranges[0].spec_from();
        if value - count < 0 {
            value + ranges[0].spec_from()
        } else {
            spec_clamp(value - count, ranges.skip(1))
        }
    }
}

/// Maps `value`, assumed zero-based against the summed counts of
/// `ranges`, into the concatenation of the ranges; returns -1 when
/// `value` lies beyond them.
pub fn clamp_to_ranges(value: i128, ranges: &[Range]) -> (r: i128)
    requires
        value >= 0,
        forall|i: int|
            0 <= i < ranges@.len() ==> (#[trigger] ranges@[i]).spec_from()
                < ranges@[i].spec_to(),
        forall|i: int|
            0 <= i < ranges@.len() ==> (#[trigger] ranges@[i]).spec_to() - ranges@[i].spec_from()
                <= i128::MAX,
    ensures
        r == spec_clamp(value as int, ranges@),
{
    let mut left = value;
    let mut i: usize = 0;
    proof {
        assert(ranges@.skip(0) =~= ranges@);
    }
    while i < ranges.len()
        invariant
            0 <= i <= ranges@.len(),
            left >= 0,
            forall|j: int|
                0 <= j < ranges@.len() ==> (#[trigger] ranges@[j]).spec_from()
                    < ranges@[j].spec_to(),
            forall|j: int|
                0 <= j < ranges@.len() ==> (#[trigger] ranges@[j]).spec_to()
                    - ranges@[j].spec_from() <= i128::MAX,
            spec_clamp(value as int, ranges@) == spec_clamp(left as int, ranges@.skip(i as int)),
        decreases ranges@.len() - i,
    {
        let range = &ranges[i];
        let count = range.count();
        proof {
            assert(ranges@.skip(i as int)[0] == ranges@[i as int]);
            assert(ranges@.skip(i as int).skip(1) =~= ranges@.skip(i + 1));
        }
        if left - count < 0 {
            return left + range.from;
        } else {
            left = left - count;
        }
        i += 1;
    }
    proof {
        assert(ranges@.skip(i as int).len() == 0);
    }
    -1
}


/// A separator character ignored around the bounds of a range.
pub open spec fn spec_is_sep(c: char) -> bool {
    c == ' ' || c == ','
}

/// An ASCII decimal digit.
pub open spec fn spec_is_digit(c: char) -> bool {
    48 <= c as u32 <= 57
}

/// The value of an ASCII decimal digit.
pub open spec fn spec_digit_val(c: char) -> int {
    c as u32 - 48
}

/// The first position at or after `i` that does not hold a separator.
pub open spec fn seps_end(s: Seq<char>, i: int) -> int
    decreases s.len() - i,
{
    if !(0 <= i < s.len()) {
        i
    } else if spec_is_sep(s[i]) {
        seps_end(s, i + 1)
    } else {
        i
    }
}

/// The first position at or after `i` that does not hold a digit.
pub open spec fn digits_end(s: Seq<char>, i: int) -> int
    decreases s.len() - i,
{
    if !(0 <= i < s.len()) {
        i
    } else if spec_is_digit(s[i]) {
        digits_end(s, i + 1)
    } else {
        i
    }
}

/// The value of the digit run `s[i..j)` read in base ten.
pub open spec fn digits_val(s: Seq<char>, i: int, j: int) -> int
    decreases j - i,
{
    if j <= i {
        0
    } else {
        digits_val(s, i, j - 1) * 10 + spec_digit_val(s[j - 1])
    }
}

pub proof fn lemma_digits_val_nonneg(s: Seq<char>, i: int, j: int)
    requires
        0 <= i <= j <= s.len(),
        forall|x: int| i <= x < j ==> spec_is_digit(#[trigger] s[x]),
    ensures
        digits_val(s, i, j) >= 0,
    decreases j - i,
{
    if j <= i {
    } else {
        lemma_digits_val_nonneg(s, i, j - 1);
        assert(spec_digit_val(s[j - 1]) >= 0);
        assert(digits_val(s, i, j - 1) * 10 >= 0) by (nonlinear_arith)
            requires
                digits_val(s, i, j - 1) >= 0,
        ;
    }
}

pub proof fn lemma_digits_val_monotone(s: Seq<char>, i: int, j: int, k: int)
    requires
        0 <= i <= j <= k <= s.len(),
        forall|x: int| i <= x < k ==> spec_is_digit(#[trigger] s[x]),
    ensures
        0 <= digits_val(s, i, j) <= digits_val(s, i, k),
    decreases k - j,
{
    lemma_digits_val_nonneg(s, i, j);
    if j < k {
        lemma_digits_val_monotone(s, i, j, k - 1);
        assert(digits_val(s, i, k) == digits_val(s, i, k - 1) * 10 + spec_digit_val(s[k - 1]));
        assert(spec_digit_val(s[k - 1]) >= 0);
        assert(digits_val(s, i, k - 1) * 10 >= digits_val(s, i, k - 1)) by (nonlinear_arith)
            requires
                digits_val(s, i, k - 1) >= 0,
        ;
    }
}

/// One signed integer read at position `i`: an optional minus sign,
/// then at least one digit — otherwise the shape is wrong — with the
/// value inside the 128-bit signed limits — otherwise the number is
/// invalid. Yields the value and the position after the digits.
pub open spec fn spec_parse_int(s: Seq<char>, i: int) -> Result<(int, int), RangeError> {
    let neg = 0 <= i < s.len() && s[i] == '-';
    let d0 = if neg {
        i + 1
    } else {
        i
    };
    let d1 = digits_end(s, d0);
    if d1 == d0 {
        Err(RangeError::Syntax)
    } else {
        let v = if neg {
            -digits_val(s, d0, d1)
        } else {
            digits_val(s, d0, d1)
        };
        if v < i128::MIN as int || v > i128::MAX as int {
            Err(RangeError::InvalidInteger)
        } else {
            Ok((v, d1))
        }
    }
}

/// A whole range expression: separators, a first bound, two dots, more
/// separators, a second bound, trailing separators, nothing else. The
/// start must lie strictly below the end — otherwise the range is
/// backwards.
pub open spec fn spec_parse_range(s: Seq<char>) -> Result<(int, int), RangeError> {
    let i0 = seps_end(s, 0);
    match spec_parse_int(s, i0) {
        Err(e) => Err(e),
        Ok((from, n1)) => {
            if !(n1 + 2 <= s.len() && s[n1] == '.' && s[n1 + 1] == '.') {
                Err(RangeError::Syntax)
            } else {
                let i2 = seps_end(s, n1 + 2);
                match spec_parse_int(s, i2) {
                    Err(e) => Err(e),
                    Ok((to, n2)) => {
                        let i3 = seps_end(s, n2);
                        if i3 != s.len() {
                            Err(RangeError::Syntax)
                        } else if from >= to {
                            Err(RangeError::Backwards)
                        } else {
                            Ok((from, to))
                        }
                    },
                }
            }
        },
    }
}


/// Whether `c` separates or pads range bounds.
fn is_sep_char(c: char) -> (r: bool)
    ensures
        r == spec_is_sep(c),
{
    c == ' ' || c == ','
}

/// Whether `c` is an ASCII decimal digit.
fn is_ascii_digit(c: char) -> (r: bool)
    ensures
        r == spec_is_digit(c),
{
    48 <= c as u32 && c as u32 <= 57
}

/// Scans past separators from position `i`.
fn seps_end_at(s: &str, i: usize, n: usize) -> (r: usize)
    requires
        i <= n,
        n == s@.len(),
    ensures
        r == seps_end(s@, i as int),
        i <= r <= n,
{
    let mut j = i;
    while j < n && is_sep_char(s.get_char(j))
        invariant
            i <= j <= n,
            n == s@.len(),
            seps_end(s@, i as int) == seps_end(s@, j as int),
        decreases n - j,
    {
        j += 1;
    }
    j
}

proof fn lemma_digits_end_is(s: Seq<char>, i: int, j: int)
    requires
        0 <= i <= j <= s.len(),
        forall|x: int| i <= x < j ==> spec_is_digit(#[trigger] s[x]),
        j < s.len() ==> !spec_is_digit(s[j]),
    ensures
        digits_end(s, i) == j,
    decreases j - i,
{
    if i < j {
        assert(spec_is_digit(s[i]));
        lemma_digits_end_is(s, i + 1, j);
    }
}

/// Reads one signed integer at position `i` of `s`.
fn parse_int_at(s: &str, i: usize, n: usize) -> (r: Result<(i128, usize), RangeError>)
    requires
        i <= n,
        n == s@.len(),
    ensures
        match r {
            Ok(p) => spec_parse_int(s@, i as int) == Ok::<(int, int), RangeError>(
                (p.0 as int, p.1 as int),
            ) && p.1 <= n,
            Err(e) => spec_parse_int(s@, i as int) == Err::<(int, int), RangeError>(e),
        },
{
    let neg = i < n && s.get_char(i) == '-';
    let d0 = if neg {
        i + 1
    } else {
        i
    };
    let mut j = d0;
    let mut acc: u128 = 0;
    let mut overflow = false;
    while j < n && is_ascii_digit(s.get_char(j))
        invariant
            d0 <= j <= n,
            n == s@.len(),
            forall|x: int| d0 <= x < j ==> spec_is_digit(#[trigger] s@[x]),
            !overflow ==> acc as int == digits_val(s@, d0 as int, j as int),
            overflow ==> digits_val(s@, d0 as int, j as int) > i128::MAX as int + 1,
        decreases n - j,
    {
        let c = s.get_char(j);
        let cu = c as u32;
        let d: u128 = (cu - 48) as u128;
        proof {
            assert(spec_is_digit(s@[j as int]));
            assert(d == spec_digit_val(s@[j as int]));
            assert(digits_val(s@, d0 as int, j + 1) == digits_val(s@, d0 as int, j as int) * 10
                + spec_digit_val(s@[j as int]));
        }
        if !overflow {
            let next = match acc.checked_mul(10) {
                Some(a10) => a10.checked_add(d),
                None => None,
            };
            proof {
                lemma_digits_val_nonneg(s@, d0 as int, j as int);
                assert(u128::MAX as int >= i128::MAX as int + 2);
            }
            match next {
                Some(a) => {
                    acc = a;
                },
                None => {
                    overflow = true;
                },
            }
        } else {
            proof {
                lemma_digits_val_monotone(s@, d0 as int, j as int, j + 1);
                lemma_digits_val_nonneg(s@, d0 as int, j as int);
                assert(digits_val(s@, d0 as int, j as int) * 10 >= digits_val(
                    s@,
                    d0 as int,
                    j as int,
                )) by (nonlinear_arith)
                    requires
                        digits_val(s@, d0 as int, j as int) >= 0,
                ;
            }
        }
        j += 1;
    }
    proof {
        lemma_digits_end_is(s@, d0 as int, j as int);
    }
    if j == d0 {
        return Err(RangeError::Syntax);
    }
    if overflow {
        return Err(RangeError::InvalidInteger);
    }
    if neg {
        let limit: u128 = (i128::MAX as u128) + 1;
        if acc > limit {
            Err(RangeError::InvalidInteger)
        } else if acc == limit {
            Ok((i128::MIN, j))
        } else {
            Ok((-(acc as i128), j))
        }
    } else {
        if acc > i128::MAX as u128 {
            Err(RangeError::InvalidInteger)
        } else {
            Ok((acc as i128, j))
        }
    }
}

impl Range {
    /// Parses a range of the shape `start..end`, with `,` and space
    /// accepted around the bounds.
    pub fn from_str(s: &str) -> (r: Result<Range, RangeError>)
        ensures
            match r {
                Ok(rg) => spec_parse_range(s@) == Ok::<(int, int), RangeError>(
                    (rg.spec_from() as int, rg.spec_to() as int),
                ),
                Err(e) => spec_parse_range(s@) == Err::<(int, int), RangeError>(e),
            },
    {
        let n = s.unicode_len();
        let i0 = seps_end_at(s, 0, n);
        let (from, n1) = match parse_int_at(s, i0, n) {
            Ok(p) => p,
            Err(e) => {
                return Err(e);
            },
        };
        if !(n - n1 >= 2 && s.get_char(n1) == '.' && s.get_char(n1 + 1) == '.') {
            return Err(RangeError::Syntax);
        }
        let i2 = seps_end_at(s, n1 + 2, n);
        let (to, n2) = match parse_int_at(s, i2, n) {
            Ok(p) => p,
            Err(e) => {
                return Err(e);
            },
        };
        let i3 = seps_end_at(s, n2, n);
        if i3 != n {
            return Err(RangeError::Syntax);
        }
        if from >= to {
            return Err(RangeError::Backwards);
        }
        Ok(Range { from, to })
    }
}


/// An ASCII whitespace character.
pub open spec fn spec_char_ws(c: char) -> bool {
    c as u32 == 32 || (9 <= c as u32 && c as u32 <= 13)
}

/// The first position at or after `i` that does not hold whitespace.
pub open spec fn ws_run_end(s: Seq<char>, i: int) -> int
    decreases s.len() - i,
{
    if !(0 <= i < s.len()) {
        i
    } else if spec_char_ws(s[i]) {
        ws_run_end(s, i + 1)
    } else {
        i
    }
}

/// The position after the last non-whitespace character at or before
/// `j`.
pub open spec fn ws_run_start(s: Seq<char>, j: int) -> int
    decreases j,
{
    if !(0 < j <= s.len()) {
        j
    } else if spec_char_ws(s[j - 1]) {
        ws_run_start(s, j - 1)
    } else {
        j
    }
}

/// `s` with leading and trailing ASCII whitespace removed.
pub open spec fn spec_char_trim(s: Seq<char>) -> Seq<char> {
    let a = ws_run_end(s, 0);
    let b = ws_run_start(s, s.len() as int);
    if a <= b {
        s.subrange(a, b)
    } else {
        Seq::empty()
    }
}

/// The ranges a named alias stands for, as pairs of bounds.
pub open spec fn spec_expand_alias(t: Seq<char>) -> Option<Seq<(int, int)>> {
    if t == "ascii"@ {
        Some(seq![(32int, 127int)])
    } else if t == "ascii-ext"@ {
        Some(seq![(32int, 127int), (160int, 256int)])
    } else if t == "alphabet"@ || t == "letters"@ || t == "[a-zA-Z]"@ {
        Some(seq![(65int, 91int), (97int, 123int)])
    } else if t == "capitals"@ || t == "uppercase"@ || t == "majuscule"@ || t == "[a-z]"@ {
        Some(seq![(97int, 123int)])
    } else if t == "lowercase"@ || t == "minuscule"@ || t == "[A-Z]"@ {
        Some(seq![(65int, 91int)])
    } else if t == "numbers"@ || t == "[0-9]"@ {
        Some(seq![(48int, 58int)])
    } else if t == "password"@ {
        Some(
            seq![
                (33int, 34int),
                (35int, 38int),
                (39int, 42int),
                (43int, 59int),
                (63int, 124int),
                (125int, 127int),
            ],
        )
    } else if t == "i8"@ {
        Some(seq![(-128int, 128int)])
    } else if t == "u8"@ {
        Some(seq![(0int, 256int)])
    } else if t == "i16"@ {
        Some(seq![(-32768int, 32768int)])
    } else if t == "u16"@ {
        Some(seq![(0int, 65536int)])
    } else if t == "i32"@ {
        Some(seq![(-2147483648int, 2147483648int)])
    } else if t == "u32"@ {
        Some(seq![(0int, 4294967296int)])
    } else if t == "i64"@ {
        Some(seq![(-9223372036854775808int, 9223372036854775808int)])
    } else if t == "u64"@ {
        Some(seq![(0int, 18446744073709551615int)])
    } else {
        None
    }
}

/// The bounds of a list of ranges.
pub open spec fn ranges_view(v: Seq<Range>) -> Seq<(int, int)> {
    Seq::new(v.len(), |i: int| (v[i].spec_from() as int, v[i].spec_to() as int))
}

/// What a list of range words parses to: each word is either a named
/// alias — matched after trimming ASCII whitespace — standing for one
/// or more ranges, or a range expression; the first failure wins.
pub open spec fn spec_parse_ranges(items: Seq<Seq<char>>) -> Result<Seq<(int, int)>, RangeError>
    decreases items.len(),
{
    if items.len() == 0 {
        Ok(Seq::empty())
    } else {
        let head = match spec_expand_alias(spec_char_trim(items[0])) {
            Some(rs) => Ok(rs),
            None => match spec_parse_range(items[0]) {
                Ok((f, t)) => Ok(seq![(f, t)]),
                Err(e) => Err(e),
            },
        };
        match head {
            Err(e) => Err(e),
            Ok(rs) => match spec_parse_ranges(items.skip(1)) {
                Err(e) => Err(e),
                Ok(rest) => Ok(rs + rest),
            },
        }
    }
}

/// Whether the characters `s[a..b)` spell exactly `lit`.
fn str_range_eq_lit(s: &str, a: usize, b: usize, lit: &str) -> (r: bool)
    requires
        a <= b <= s@.len(),
    ensures
        r == (s@.subrange(a as int, b as int) == lit@),
{
    let ln = lit.unicode_len();
    if b - a != ln {
        proof {
            assert(s@.subrange(a as int, b as int).len() != lit@.len());
        }
        return false;
    }
    let mut i: usize = 0;
    while i < ln
        invariant
            0 <= i <= ln,
            a + ln <= s@.len() + 0,
            b == a + ln,
            ln == lit@.len(),
            forall|j: int| 0 <= j < i ==> s@[a + j] == lit@[j],
        decreases ln - i,
    {
        if s.get_char(a + i) != lit.get_char(i) {
            proof {
                assert(s@.subrange(a as int, b as int)[i as int] == s@[a + i]);
            }
            return false;
        }
        i += 1;
    }
    proof {
        assert(s@.subrange(a as int, b as int) =~= lit@);
    }
    true
}

/// Whether `c` is ASCII whitespace.
fn is_ws_char(c: char) -> (r: bool)
    ensures
        r == spec_char_ws(c),
{
    c as u32 == 32 || (9 <= c as u32 && c as u32 <= 13)
}

/// The bounds of `s` with ASCII whitespace trimmed from both ends.
fn char_trim_bounds(s: &str, n: usize) -> (r: (usize, usize))
    requires
        n == s@.len(),
    ensures
        r.0 <= r.1 <= n,
        spec_char_trim(s@) == s@.subrange(r.0 as int, r.1 as int),
{
    let mut a: usize = 0;
    while a < n && is_ws_char(s.get_char(a))
        invariant
            0 <= a <= n,
            n == s@.len(),
            ws_run_end(s@, 0) == ws_run_end(s@, a as int),
        decreases n - a,
    {
        a += 1;
    }
    let mut b: usize = n;
    while b > 0 && is_ws_char(s.get_char(b - 1))
        invariant
            0 <= b <= n,
            n == s@.len(),
            ws_run_start(s@, n as int) == ws_run_start(s@, b as int),
        decreases b,
    {
        b -= 1;
    }
    if a <= b {
        (a, b)
    } else {
        proof {
            assert(spec_char_trim(s@) =~= s@.subrange(0, 0));
        }
        (0, 0)
    }
}


/// Appends `[from..to)` to `out`.
fn push_range(out: &mut Vec<Range>, from: i128, to: i128)
    ensures
        ranges_view(final(out)@) == ranges_view(old(out)@) + seq![(from as int, to as int)],
{
    out.push(Range::new(from, to));
    proof {
        assert(ranges_view(out@) =~= ranges_view(old(out)@) + seq![(from as int, to as int)]);
    }
}

/// Expands the alias spelled by `s[a..b)` into `out`; `false` when the
/// text is no alias.
fn expand_alias(s: &str, a: usize, b: usize, out: &mut Vec<Range>) -> (r: bool)
    requires
        a <= b <= s@.len(),
    ensures
        match spec_expand_alias(s@.subrange(a as int, b as int)) {
            Some(rs) => r && ranges_view(final(out)@) == ranges_view(old(out)@) + rs,
            None => !r && final(out)@ == old(out)@,
        },
{
    let ghost t = s@.subrange(a as int, b as int);
    let ghost prev = ranges_view(out@);
    if str_range_eq_lit(s, a, b, "ascii") {
        push_range(out, 32, 127);
        proof {
            assert(prev + seq![(32int, 127int)] =~= prev + spec_expand_alias(t)->Some_0);
        }
        return true;
    }
    if str_range_eq_lit(s, a, b, "ascii-ext") {
        push_range(out, 32, 127);
        push_range(out, 160, 256);
        proof {
            assert(ranges_view(out@) =~= prev + spec_expand_alias(t)->Some_0);
        }
        return true;
    }
    if str_range_eq_lit(s, a, b, "alphabet") || str_range_eq_lit(s, a, b, "letters")
        || str_range_eq_lit(s, a, b, "[a-zA-Z]") {
        push_range(out, 65, 91);
        push_range(out, 97, 123);
        proof {
            assert(ranges_view(out@) =~= prev + spec_expand_alias(t)->Some_0);
        }
        return true;
    }
    if str_range_eq_lit(s, a, b, "capitals") || str_range_eq_lit(s, a, b, "uppercase")
        || str_range_eq_lit(s, a, b, "majuscule") || str_range_eq_lit(s, a, b, "[a-z]") {
        push_range(out, 97, 123);
        proof {
            assert(ranges_view(out@) =~= prev + spec_expand_alias(t)->Some_0);
        }
        return true;
    }
    if str_range_eq_lit(s, a, b, "lowercase") || str_range_eq_lit(s, a, b, "minuscule")
        || str_range_eq_lit(s, a, b, "[A-Z]") {
        push_range(out, 65, 91);
        proof {
            assert(ranges_view(out@) =~= prev + spec_expand_alias(t)->Some_0);
        }
        return true;
    }
    if str_range_eq_lit(s, a, b, "numbers") || str_range_eq_lit(s, a, b, "[0-9]") {
        push_range(out, 48, 58);
        proof {
            assert(ranges_view(out@) =~= prev + spec_expand_alias(t)->Some_0);
        }
        return true;
    }
    if str_range_eq_lit(s, a, b, "password") {
        push_range(out, 33, 34);
        push_range(out, 35, 38);
        push_range(out, 39, 42);
        push_range(out, 43, 59);
        push_range(out, 63, 124);
        push_range(out, 125, 127);
        proof {
            assert(ranges_view(out@) =~= prev + spec_expand_alias(t)->Some_0);
        }
        return true;
    }
    if str_range_eq_lit(s, a, b, "i8") {
        push_range(out, -128, 128);
        proof {
            assert(ranges_view(out@) =~= prev + spec_expand_alias(t)->Some_0);
        }
        return true;
    }
    if str_range_eq_lit(s, a, b, "u8") {
        push_range(out, 0, 256);
        proof {
            assert(ranges_view(out@) =~= prev + spec_expand_alias(t)->Some_0);
        }
        return true;
    }
    if str_range_eq_lit(s, a, b, "i16") {
        push_range(out, -32768, 32768);
        proof {
            assert(ranges_view(out@) =~= prev + spec_expand_alias(t)->Some_0);
        }
        return true;
    }
    if str_range_eq_lit(s, a, b, "u16") {
        push_range(out, 0, 65536);
        proof {
            assert(ranges_view(out@) =~= prev + spec_expand_alias(t)->Some_0);
        }
        return true;
    }
    if str_range_eq_lit(s, a, b, "i32") {
        push_range(out, -2147483648, 2147483648);
        proof {
            assert(ranges_view(out@) =~= prev + spec_expand_alias(t)->Some_0);
        }
        return true;
    }
    if str_range_eq_lit(s, a, b, "u32") {
        push_range(out, 0, 4294967296);
        proof {
            assert(ranges_view(out@) =~= prev + spec_expand_alias(t)->Some_0);
        }
        return true;
    }
    if str_range_eq_lit(s, a, b, "i64") {
        push_range(out, -9223372036854775808, 9223372036854775808);
        proof {
            assert(ranges_view(out@) =~= prev + spec_expand_alias(t)->Some_0);
        }
        return true;
    }
    if str_range_eq_lit(s, a, b, "u64") {
        push_range(out, 0, 18446744073709551615);
        proof {
            assert(ranges_view(out@) =~= prev + spec_expand_alias(t)->Some_0);
        }
        return true;
    }
    false
}

/// Parses a list of range words: each is either a named alias for one
/// or more ranges, or a range expression of the shape `start..end`;
/// the first failure is reported.
pub fn parse_ranges(ranges: &Vec<String>) -> (r: Result<Vec<Range>, RangeError>)
    ensures
        match r {
            Ok(v) => spec_parse_ranges(ranges.deep_view()) == Ok::<Seq<(int, int)>, RangeError>(
                ranges_view(v@),
            ),
            Err(e) => spec_parse_ranges(ranges.deep_view()) == Err::<Seq<(int, int)>, RangeError>(
                e,
            ),
        },
{
    let ghost all = ranges.deep_view();
    let mut out: Vec<Range> = Vec::new();
    let mut k: usize = 0;
    proof {
        assert(all.skip(0) =~= all);
        assert(ranges_view(out@) =~= Seq::<(int, int)>::empty());
        assert(ranges_view(out@) + Seq::<(int, int)>::empty() =~= ranges_view(out@));
    }
    while k < ranges.len()
        invariant
            0 <= k <= ranges@.len(),
            all == ranges.deep_view(),
            spec_parse_ranges(all) == (match spec_parse_ranges(all.skip(k as int)) {
                Ok(rest) => Ok::<Seq<(int, int)>, RangeError>(ranges_view(out@) + rest),
                Err(e) => Err(e),
            }),
        decreases ranges@.len() - k,
    {
        let s: &String = &ranges[k];
        let st: &str = s.as_str();
        proof {
            assert(st@ == all[k as int]);
            assert(all.skip(k as int)[0] == all[k as int]);
            assert(all.skip(k as int).skip(1) =~= all.skip(k + 1));
        }
        let n = st.unicode_len();
        let (a, b) = char_trim_bounds(st, n);
        let ghost prev = ranges_view(out@);
        let ghost head = all[k as int];
        if expand_alias(st, a, b, &mut out) {
            proof {
                let rs = spec_expand_alias(spec_char_trim(head))->Some_0;
                match spec_parse_ranges(all.skip(k + 1)) {
                    Ok(rest) => {
                        assert((prev + rs) + rest =~= prev + (rs + rest));
                    },
                    Err(_) => {},
                }
            }
        } else {
            match Range::from_str(st) {
                Ok(rg) => {
                    let ghost f = rg.spec_from() as int;
                    let ghost t = rg.spec_to() as int;
                    out.push(rg);
                    proof {
                        assert(ranges_view(out@) =~= prev + seq![(f, t)]);
                        match spec_parse_ranges(all.skip(k + 1)) {
                            Ok(rest) => {
                                assert((prev + seq![(f, t)]) + rest =~= prev + (seq![(f, t)]
                                    + rest));
                            },
                            Err(_) => {},
                        }
                    }
                },
                Err(e) => {
                    return Err(e);
                },
            }
        }
        k += 1;
    }
    proof {
        assert(all.skip(k as int).len() == 0);
        assert(ranges_view(out@) + Seq::<(int, int)>::empty() =~= ranges_view(out@));
    }
    Ok(out)
}

} // verus!
