//! Backslash escape-sequence decoding: `\n`, `\t`, `\r`, `\\`, `\0`,
//! `\'`, `\"`, `\x` with two hex digits, and `\u{...}` with one to six
//! hex digits naming a Unicode scalar value.

use vstd::prelude::*;

verus! {

/// Why an escape sequence failed to decode.
#[derive(Debug, Clone, PartialEq, Eq, Structural)]
pub enum EscapeError {
    /// The character named after `\x` or `\u` is not valid.
    InvalidCharacter,
    /// The character after a backslash begins no known escape.
    InvalidEscape,
}

/// The value of a hexadecimal digit, upper or lower case.
pub open spec fn spec_hex_val(c: char) -> Option<int> {
    let u = c as u32;
    if 48 <= u && u <= 57 {
        Some((u - 48) as int)
    } else if 97 <= u && u <= 102 {
        Some((u - 87) as int)
    } else if 65 <= u && u <= 70 {
        Some((u - 55) as int)
    } else {
        None
    }
}

/// The first position at or after `i` that holds no hexadecimal digit.
pub open spec fn hex_run_end(s: Seq<char>, i: int) -> int
    decreases s.len() - i,
{
    if !(0 <= i < s.len()) {
        i
    } else if spec_hex_val(s[i]) is Some {
        hex_run_end(s, i + 1)
    } else {
        i
    }
}

pub proof fn lemma_hex_run_end(s: Seq<char>, i: int)
    requires
        0 <= i <= s.len(),
    ensures
        i <= hex_run_end(s, i) <= s.len(),
        forall|j: int| i <= j < hex_run_end(s, i) ==> spec_hex_val(s[j]) is Some,
        hex_run_end(s, i) < s.len() ==> spec_hex_val(s[hex_run_end(s, i)]) is None,
    decreases s.len() - i,
{
    if !(0 <= i < s.len()) {
    } else if spec_hex_val(s[i]) is Some {
        lemma_hex_run_end(s, i + 1);
    }
}

pub proof fn lemma_hex_run_end_is(s: Seq<char>, i: int, j: int)
    requires
        0 <= i <= j <= s.len(),
        forall|x: int| i <= x < j ==> spec_hex_val(#[trigger] s[x]) is Some,
        j < s.len() ==> spec_hex_val(s[j]) is None,
    ensures
        hex_run_end(s, i) == j,
    decreases j - i,
{
    if i < j {
        assert(spec_hex_val(s[i]) is Some);
        lemma_hex_run_end_is(s, i + 1, j);
    }
}

/// The value of the hexadecimal digit run `s[i..j)`.
pub open spec fn hex_val_run(s: Seq<char>, i: int, j: int) -> int
    decreases j - i,
{
    if j <= i {
        0
    } else {
        hex_val_run(s, i, j - 1) * 16 + spec_hex_val(s[j - 1])->Some_0
    }
}

/// A Unicode scalar value: what a `char` can hold.
pub open spec fn spec_valid_scalar(n: int) -> bool {
    (0 <= n && n < 0xD800) || (0xE000 <= n && n <= 0x10FFFF)
}

/// What the escape at the head of `s` — which begins with a backslash
/// — decodes to, and how many characters it occupies.
pub open spec fn spec_escape_head(s: Seq<char>) -> Result<(char, int), EscapeError> {
    if s.len() < 2 {
        Err(EscapeError::InvalidEscape)
    } else {
        let c = s[1];
        if c == 'n' {
            Ok(('\n', 2))
        } else if c == 't' {
            Ok(('\t', 2))
        } else if c == 'r' {
            Ok(('\r', 2))
        } else if c == '\\' {
            Ok(('\\', 2))
        } else if c == '0' {
            Ok(('\0', 2))
        } else if c == '\'' {
            Ok(('\'', 2))
        } else if c == '"' {
            Ok(('"', 2))
        } else if c == 'x' {
            if s.len() < 4 {
                Err(EscapeError::InvalidCharacter)
            } else {
                match (spec_hex_val(s[2]), spec_hex_val(s[3])) {
                    (Some(h), Some(l)) => Ok(((h * 16 + l) as u32 as char, 4)),
                    _ => Err(EscapeError::InvalidCharacter),
                }
            }
        } else if c == 'u' {
            if s.len() < 3 || s[2] != '{' {
                Err(EscapeError::InvalidCharacter)
            } else {
                let d = hex_run_end(s, 3);
                if d < s.len() && s[d] == '}' && 1 <= d - 3 <= 6 && spec_valid_scalar(
                    hex_val_run(s, 3, d),
                ) {
                    Ok((hex_val_run(s, 3, d) as u32 as char, d + 1))
                } else {
                    Err(EscapeError::InvalidCharacter)
                }
            }
        } else {
            Err(EscapeError::InvalidEscape)
        }
    }
}

pub proof fn lemma_escape_head_consumed(s: Seq<char>)
    ensures
        spec_escape_head(s) matches Ok(p) ==> 2 <= p.1 <= s.len(),
{
    if s.len() >= 2 {
        lemma_hex_run_end(s, if s.len() >= 3 {
            3
        } else {
            2
        });
    }
}

/// What `s` decodes to with every backslash escape resolved, or the
/// first error.
pub open spec fn spec_unescape(s: Seq<char>) -> Result<Seq<char>, EscapeError>
    decreases s.len(),
    via spec_unescape_dec
{
    if s.len() == 0 {
        Ok(Seq::empty())
    } else if s[0] != '\\' {
        match spec_unescape(s.skip(1)) {
            Ok(r) => Ok(seq![s[0]] + r),
            Err(e) => Err(e),
        }
    } else {
        match spec_escape_head(s) {
            Err(e) => Err(e),
            Ok((ch, k)) => match spec_unescape(s.skip(k)) {
                Ok(r) => Ok(seq![ch] + r),
                Err(e) => Err(e),
            },
        }
    }
}

#[via_fn]
proof fn spec_unescape_dec(s: Seq<char>) {
    lemma_escape_head_consumed(s);
}

/// Relies on `String::push`: appends exactly the given character.
#[verifier::external_body]
fn push_char(s: &mut String, c: char)
    ensures
        final(s)@ == old(s)@.push(c),
{
    s.push(c);
}

/// Relies on `char::from_u32`: yields the character with scalar value
/// `n` exactly when `n` is a Unicode scalar value — not a surrogate,
/// not above the Unicode maximum — and `None` otherwise.
#[verifier::external_body]
fn char_from_u32(n: u32) -> (r: Option<char>)
    ensures
        match r {
            Some(c) => spec_valid_scalar(n as int) && c as u32 == n,
            None => !spec_valid_scalar(n as int),
        },
{
    char::from_u32(n)
}

/// The value of a hexadecimal digit, upper or lower case.
fn hex_val_char(c: char) -> (r: Option<u32>)
    ensures
        match r {
            Some(v) => spec_hex_val(c) == Some(v as int) && v < 16,
            None => spec_hex_val(c) is None,
        },
{
    let u = c as u32;
    if 48 <= u && u <= 57 {
        Some(u - 48)
    } else if 97 <= u && u <= 102 {
        Some(u - 87)
    } else if 65 <= u && u <= 70 {
        Some(u - 55)
    } else {
        None
    }
}


/// Whether `c` is a hexadecimal digit.
fn is_hex_char(c: char) -> (r: bool)
    ensures
        r == (spec_hex_val(c) is Some),
{
    let u = c as u32;
    (48 <= u && u <= 57) || (97 <= u && u <= 102) || (65 <= u && u <= 70)
}

/// Sixteen to the `k`th power.
pub open spec fn pow16(k: int) -> int
    decreases k,
{
    if k <= 0 {
        1
    } else {
        16 * pow16(k - 1)
    }
}

proof fn lemma_pow16_pos(k: int)
    ensures
        pow16(k) >= 1,
    decreases k,
{
    if k > 0 {
        lemma_pow16_pos(k - 1);
    }
}

proof fn lemma_pow16_le(j: int, k: int)
    requires
        j <= k,
    ensures
        1 <= pow16(j) <= pow16(k),
    decreases k - j,
{
    if j < k {
        lemma_pow16_le(j, k - 1);
        lemma_pow16_pos(k - 1);
    } else {
        lemma_pow16_pos(j);
    }
}

proof fn lemma_hex_val_run_bound(s: Seq<char>, a: int, b: int)
    requires
        0 <= a <= b <= s.len(),
        forall|x: int| a <= x < b ==> spec_hex_val(#[trigger] s[x]) is Some,
    ensures
        0 <= hex_val_run(s, a, b) < pow16(b - a),
    decreases b - a,
{
    if b <= a {
    } else {
        lemma_hex_val_run_bound(s, a, b - 1);
        let v = hex_val_run(s, a, b - 1);
        let d = spec_hex_val(s[b - 1])->Some_0;
        assert(0 <= d < 16);
        assert(v * 16 + d < 16 * pow16(b - 1 - a)) by (nonlinear_arith)
            requires
                0 <= v < pow16(b - 1 - a),
            0 <= d < 16,
        ;
        assert(v * 16 + d >= 0) by (nonlinear_arith)
            requires
                v >= 0 && d >= 0,
        ;
    }
}

proof fn lemma_hex_val_run_shift(s: Seq<char>, i: int, a: int, b: int)
    requires
        0 <= i,
        0 <= a <= b,
        i + b <= s.len(),
    ensures
        hex_val_run(s.skip(i), a, b) == hex_val_run(s, i + a, i + b),
    decreases b - a,
{
    if b <= a {
    } else {
        lemma_hex_val_run_shift(s, i, a, b - 1);
        assert(s.skip(i)[b - 1] == s[i + b - 1]);
    }
}

/// Resolves every backslash escape in `s`:
/// - `\n`, `\t`, `\r`, `\\`, `\0`, `\'` and `\"` name the matching
///   control or quote character,
/// - `\x` followed by two hex digits names a character by its value,
/// - `\u{...}` with one to six hex digits names a Unicode scalar value.
///
/// The first escape that cannot be decoded is reported: a backslash
/// that begins no known escape as [`EscapeError::InvalidEscape`], a
/// malformed or invalid character value as
/// [`EscapeError::InvalidCharacter`].
#[verifier::rlimit(80)]
pub fn parse_escaped(s: &str) -> (r: Result<String, EscapeError>)
    ensures
        match r {
            Ok(st) => spec_unescape(s@) == Ok::<Seq<char>, EscapeError>(st@),
            Err(e) => spec_unescape(s@) == Err::<Seq<char>, EscapeError>(e),
        },
{
    let n = s.unicode_len();
    let mut out = String::new();
    let mut i: usize = 0;
    proof {
        assert(s@.skip(0) =~= s@);
        assert(out@ =~= Seq::<char>::empty());
    }
    while i < n
        invariant
            0 <= i <= n,
            n == s@.len(),
            spec_unescape(s@) == (match spec_unescape(s@.skip(i as int)) {
                Ok(r2) => Ok::<Seq<char>, EscapeError>(out@ + r2),
                Err(e) => Err::<Seq<char>, EscapeError>(e),
            }),
        decreases n - i,
    {
        let ghost suf = s@.skip(i as int);
        proof {
            assert(suf[0] == s@[i as int]);
        }
        let c = s.get_char(i);
        if c != '\\' {
            let ghost prev = out@;
            push_char(&mut out, c);
            proof {
                assert(suf.skip(1) =~= s@.skip(i + 1));
                match spec_unescape(s@.skip(i + 1)) {
                    Ok(r2) => {
                        assert(prev + (seq![c] + r2) =~= out@ + r2);
                    },
                    Err(_) => {},
                }
            }
            i += 1;
        } else {
            if n - i < 2 {
                return Err(EscapeError::InvalidEscape);
            }
            let e1 = s.get_char(i + 1);
            proof {
                assert(suf[1] == s@[i + 1]);
            }
            let simple: Option<char> = match e1 {
                'n' => Some('\n'),
                't' => Some('\t'),
                'r' => Some('\r'),
                '\\' => Some('\\'),
                '0' => Some('\0'),
                '\'' => Some('\''),
                '"' => Some('"'),
                _ => None,
            };
            match simple {
                Some(ch) => {
                    let ghost prev = out@;
                    push_char(&mut out, ch);
                    proof {
                        assert(spec_escape_head(suf) == Ok::<(char, int), EscapeError>((ch, 2)));
                        assert(suf.skip(2) =~= s@.skip(i + 2));
                        match spec_unescape(s@.skip(i + 2)) {
                            Ok(r2) => {
                                assert(prev + (seq![ch] + r2) =~= out@ + r2);
                            },
                            Err(_) => {},
                        }
                    }
                    i += 2;
                },
                None => {
                    if e1 == 'x' {
                        if n - i < 4 {
                            return Err(EscapeError::InvalidCharacter);
                        }
                        let h = hex_val_char(s.get_char(i + 2));
                        let l = hex_val_char(s.get_char(i + 3));
                        proof {
                            assert(suf[2] == s@[i + 2]);
                            assert(suf[3] == s@[i + 3]);
                        }
                        match (h, l) {
                            (Some(hv), Some(lv)) => {
                                let v: u32 = hv * 16 + lv;
                                match char_from_u32(v) {
                                    Some(ch) => {
                                        let ghost prev = out@;
                                        push_char(&mut out, ch);
                                        proof {
                                            vstd::utf8::char_u32_cast(ch, v);
                                            assert(spec_escape_head(suf) == Ok::<
                                                (char, int),
                                                EscapeError,
                                            >((ch, 4)));
                                            assert(suf.skip(4) =~= s@.skip(i + 4));
                                            match spec_unescape(s@.skip(i + 4)) {
                                                Ok(r2) => {
                                                    assert(prev + (seq![ch] + r2) =~= out@ + r2);
                                                },
                                                Err(_) => {},
                                            }
                                        }
                                        i += 4;
                                    },
                                    None => {
                                        proof {
                                            assert(spec_valid_scalar(v as int));
                                            assert(false);
                                        }
                                        return Err(EscapeError::InvalidCharacter);
                                    },
                                }
                            },
                            _ => {
                                return Err(EscapeError::InvalidCharacter);
                            },
                        }
                    } else if e1 == 'u' {
                        if n - i < 3 {
                            return Err(EscapeError::InvalidCharacter);
                        }
                        let brace = s.get_char(i + 2);
                        proof {
                            assert(suf[2] == s@[i + 2]);
                        }
                        if brace != '{' {
                            return Err(EscapeError::InvalidCharacter);
                        }
                        let mut j = i + 3;
                        let mut val: u32 = 0;
                        while j < n && is_hex_char(s.get_char(j))
                            invariant
                                i + 3 <= j <= n,
                                n == s@.len(),
                                forall|x: int|
                                    i + 3 <= x < j ==> spec_hex_val(#[trigger] s@[x]) is Some,
                                j - (i + 3) <= 6 ==> val as int == hex_val_run(
                                    s@,
                                    i + 3,
                                    j as int,
                                ),
                                val < 0x1000000,
                            decreases n - j,
                        {
                            let hv = match hex_val_char(s.get_char(j)) {
                                Some(x) => x,
                                None => 0,
                            };
                            if j - (i + 3) < 6 {
                                proof {
                                    lemma_hex_val_run_bound(s@, i + 3, j as int);
                                    lemma_pow16_le(j - (i + 3), 5);
                                    assert(pow16(0) == 1);
                                    assert(pow16(1) == 16);
                                    assert(pow16(2) == 256);
                                    assert(pow16(3) == 4096);
                                    assert(pow16(4) == 65536);
                                    assert(pow16(5) == 1048576);
                                }
                                val = val * 16 + hv;
                            }
                            j += 1;
                        }
                        let dcount = j - (i + 3);
                        proof {
                            assert forall|x: int|
                                3 <= x < j - i implies spec_hex_val(#[trigger] suf[x]) is Some by {
                                assert(suf[x] == s@[i + x]);
                            }
                            if j < n {
                                assert(suf[j - i] == s@[j as int]);
                            }
                            lemma_hex_run_end_is(suf, 3, j - i);
                        }
                        if j < n && s.get_char(j) == '}' && 1 <= dcount && dcount <= 6 {
                            proof {
                                assert(suf[j - i] == s@[j as int]);
                                lemma_hex_val_run_shift(s@, i as int, 3, j - i);
                                assert(val as int == hex_val_run(suf, 3, j - i));
                            }
                            if v_is_scalar(val) {
                                match char_from_u32(val) {
                                    Some(ch) => {
                                        let ghost prev = out@;
                                        push_char(&mut out, ch);
                                        proof {
                                            vstd::utf8::char_u32_cast(ch, val);
                                            assert(spec_escape_head(suf) == Ok::<
                                                (char, int),
                                                EscapeError,
                                            >((ch, j - i + 1)));
                                            assert(suf.skip(j - i + 1) =~= s@.skip(j + 1));
                                            match spec_unescape(s@.skip(j + 1)) {
                                                Ok(r2) => {
                                                    assert(prev + (seq![ch] + r2) =~= out@ + r2);
                                                },
                                                Err(_) => {},
                                            }
                                        }
                                        i = j + 1;
                                    },
                                    None => {
                                        proof {
                                            assert(false);
                                        }
                                        return Err(EscapeError::InvalidCharacter);
                                    },
                                }
                            } else {
                                return Err(EscapeError::InvalidCharacter);
                            }
                        } else {
                            return Err(EscapeError::InvalidCharacter);
                        }
                    } else {
                        return Err(EscapeError::InvalidEscape);
                    }
                },
            }
        }
    }
    proof {
        assert(s@.skip(i as int).len() == 0);
        assert(out@ + Seq::<char>::empty() =~= out@);
    }
    Ok(out)
}

/// Whether `n` is a Unicode scalar value.
fn v_is_scalar(n: u32) -> (r: bool)
    ensures
        r == spec_valid_scalar(n as int),
{
    n < 0xD800 || (0xE000 <= n && n <= 0x10FFFF)
}

} // verus!
