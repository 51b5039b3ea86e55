//! Decimal text: rendering and parsing of the integer and fixed-point
//! values that the CSV layer exchanges.

use vstd::prelude::*;

verus! {

/// Relies on std String::push: its documentation promises that it
/// appends the given character to the end of the string.
pub assume_specification[ String::push ](s: &mut String, c: char)
    ensures
        final(s)@ == old(s)@.push(c),
;

/// The decimal digit character for a value below ten.
pub open spec fn dec_digit(d: int) -> char {
    if d == 0 {
        '0'
    } else if d == 1 {
        '1'
    } else if d == 2 {
        '2'
    } else if d == 3 {
        '3'
    } else if d == 4 {
        '4'
    } else if d == 5 {
        '5'
    } else if d == 6 {
        '6'
    } else if d == 7 {
        '7'
    } else if d == 8 {
        '8'
    } else {
        '9'
    }
}

/// Decimal text of a non-negative number, most significant digit first,
/// without sign or leading zeros (a single `0` for zero).
pub open spec fn dec_text_of(n: nat) -> Seq<char>
    decreases n,
{
    if n < 10 {
        seq![dec_digit(n as int)]
    } else {
        dec_text_of(n / 10).push(dec_digit((n % 10) as int))
    }
}

/// Decimal text of a signed number.
pub open spec fn int_text_of(v: int) -> Seq<char> {
    if v < 0 {
        seq!['-'] + dec_text_of((-v) as nat)
    } else {
        dec_text_of(v as nat)
    }
}

/// The fractional digits of a fixed-point value's thousandths part:
/// trailing zeros dropped, but at least one digit (`0` for a whole
/// number).
pub open spec fn frac_text_of(f: int) -> Seq<char> {
    if f % 100 == 0 {
        seq![dec_digit(f / 100)]
    } else if f % 10 == 0 {
        seq![dec_digit(f / 100), dec_digit((f / 10) % 10)]
    } else {
        seq![dec_digit(f / 100), dec_digit((f / 10) % 10), dec_digit(f % 10)]
    }
}

/// Decimal text of a value in thousandths: sign, whole part, a point,
/// and the trimmed fraction, so 21500 reads `21.5` and 22000 reads
/// `22.0`.
pub open spec fn milli_text_of(v: int) -> Seq<char> {
    let sign: Seq<char> = if v < 0 {
        seq!['-']
    } else {
        Seq::<char>::empty()
    };
    let m = if v < 0 {
        -v
    } else {
        v
    };
    sign + dec_text_of((m / 1000) as nat) + seq!['.'] + frac_text_of(m % 1000)
}

/// The digit character of a value below ten.
fn dec_digit_char(d: u64) -> (c: char)
    requires
        d < 10,
    ensures
        c == dec_digit(d as int),
{
    if d == 0 {
        '0'
    } else if d == 1 {
        '1'
    } else if d == 2 {
        '2'
    } else if d == 3 {
        '3'
    } else if d == 4 {
        '4'
    } else if d == 5 {
        '5'
    } else if d == 6 {
        '6'
    } else if d == 7 {
        '7'
    } else if d == 8 {
        '8'
    } else {
        '9'
    }
}

/// Append the decimal text of a non-negative number.
fn push_dec(s: &mut String, n: u64)
    ensures
        final(s)@ == old(s)@ + dec_text_of(n as nat),
    decreases n,
{
    if n < 10 {
        s.push(dec_digit_char(n));
        proof {
            assert(s@ =~= old(s)@ + dec_text_of(n as nat));
        }
    } else {
        push_dec(s, n / 10);
        s.push(dec_digit_char(n % 10));
        proof {
            assert(s@ =~= old(s)@ + dec_text_of(n as nat));
        }
    }
}

/// Append the decimal text of a signed number.
pub fn push_int(s: &mut String, v: i64)
    ensures
        final(s)@ == old(s)@ + int_text_of(v as int),
{
    if v < 0 {
        s.push('-');
        let mag: u64 = (-(v as i128)) as u64;
        push_dec(s, mag);
        proof {
            assert(s@ =~= old(s)@ + int_text_of(v as int));
        }
    } else {
        push_dec(s, v as u64);
    }
}

/// Append the fixed-point text of a value in thousandths.
pub fn push_milli(s: &mut String, v: i64)
    ensures
        final(s)@ == old(s)@ + milli_text_of(v as int),
{
    let mag: u64 = if v < 0 {
        s.push('-');
        (-(v as i128)) as u64
    } else {
        v as u64
    };
    push_dec(s, mag / 1000);
    s.push('.');
    let f = mag % 1000;
    if f % 100 == 0 {
        s.push(dec_digit_char(f / 100));
    } else if f % 10 == 0 {
        s.push(dec_digit_char(f / 100));
        s.push(dec_digit_char((f / 10) % 10));
    } else {
        s.push(dec_digit_char(f / 100));
        s.push(dec_digit_char((f / 10) % 10));
        s.push(dec_digit_char(f % 10));
    }
    proof {
        assert(s@ =~= old(s)@ + milli_text_of(v as int));
    }
}

/// The decimal text of a signed number.
pub fn int_to_text(v: i64) -> (r: String)
    ensures
        r@ == int_text_of(v as int),
{
    let mut s = String::new();
    push_int(&mut s, v);
    proof {
        assert(s@ =~= int_text_of(v as int));
    }
    s
}

/// The fixed-point text of a value in thousandths.
pub fn milli_to_text(v: i64) -> (r: String)
    ensures
        r@ == milli_text_of(v as int),
{
    let mut s = String::new();
    push_milli(&mut s, v);
    proof {
        assert(s@ =~= milli_text_of(v as int));
    }
    s
}

/// Whether a character is a decimal digit.
pub open spec fn is_dec_digit(c: char) -> bool {
    48 <= c as u32 <= 57
}

/// The value of a decimal digit character.
pub open spec fn dec_val(c: char) -> int {
    c as u32 - 48
}

/// Every character of the text is a decimal digit.
pub open spec fn all_dec_digits(s: Seq<char>) -> bool {
    forall|i: int| 0 <= i < s.len() ==> is_dec_digit(#[trigger] s[i])
}

/// The number that a run of decimal digits denotes.
pub open spec fn digits_val(s: Seq<char>) -> int
    decreases s.len(),
{
    if s.len() == 0 {
        0
    } else {
        digits_val(s.drop_last()) * 10 + dec_val(s.last())
    }
}

/// A run of decimal digits denotes a non-negative number.
pub proof fn lemma_digits_val_nonneg(s: Seq<char>)
    requires
        all_dec_digits(s),
    ensures
        digits_val(s) >= 0,
    decreases s.len(),
{
    if s.len() > 0 {
        lemma_digits_val_nonneg(s.drop_last());
    }
}

/// Extending a run of decimal digits never shrinks its value.
pub proof fn lemma_digits_val_mono(s: Seq<char>, k: int)
    requires
        all_dec_digits(s),
        0 <= k <= s.len(),
    ensures
        digits_val(s) >= digits_val(s.take(k)),
    decreases s.len() - k,
{
    if k < s.len() {
        assert(s.take(k + 1).drop_last() =~= s.take(k));
        assert(all_dec_digits(s.take(k))) by {
            assert(forall|i: int| 0 <= i < k ==> s.take(k)[i] == s[i]);
        }
        lemma_digits_val_nonneg(s.take(k));
        lemma_digits_val_mono(s, k + 1);
    } else {
        assert(s.take(k) =~= s);
    }
}

/// The number an integer text denotes: an optional minus sign, then at
/// least one decimal digit, in the range of 64-bit signed numbers.
pub open spec fn i64_text_val(s: Seq<char>) -> Option<int> {
    if s.len() > 0 && s[0] == '-' {
        let d = s.drop_first();
        if d.len() > 0 && all_dec_digits(d) && digits_val(d) <= i64::MAX as int + 1 {
            Some(-digits_val(d))
        } else {
            None
        }
    } else if s.len() > 0 && all_dec_digits(s) && digits_val(s) <= i64::MAX as int {
        Some(digits_val(s))
    } else {
        None
    }
}

/// The first position at or after `i` holding a point, or the length.
pub open spec fn first_dot(s: Seq<char>, i: int) -> int
    decreases s.len() - i,
{
    if i < 0 || i >= s.len() || s[i] == '.' {
        i
    } else {
        first_dot(s, i + 1)
    }
}

/// When position `i` holds the first point at or after `k`, `first_dot`
/// names it.
proof fn lemma_first_dot_from(s: Seq<char>, k: int, i: int)
    requires
        0 <= k <= i < s.len(),
        s[i] == '.',
        forall|j: int| k <= j < i ==> s[j] != '.',
    ensures
        first_dot(s, k) == i,
    decreases i - k,
{
    if k < i {
        lemma_first_dot_from(s, k + 1, i);
    }
}

/// When no position holds a point, `first_dot` is the length.
proof fn lemma_first_dot_none(s: Seq<char>, k: int)
    requires
        0 <= k <= s.len(),
        forall|j: int| k <= j < s.len() ==> s[j] != '.',
    ensures
        first_dot(s, k) == s.len(),
    decreases s.len() - k,
{
    if k < s.len() {
        lemma_first_dot_none(s, k + 1);
    }
}

/// The value in thousandths that a fixed-point text denotes: an optional
/// minus sign, at least one whole digit, and optionally a point followed
/// by one to three fractional digits, the whole fitting 64-bit numbers.
pub open spec fn milli_text_val(s: Seq<char>) -> Option<int> {
    let neg = s.len() > 0 && s[0] == '-';
    let b = if neg {
        s.drop_first()
    } else {
        s
    };
    let dp = first_dot(b, 0);
    let whole = b.subrange(0, dp);
    if whole.len() == 0 || !all_dec_digits(whole) {
        None
    } else if dp == b.len() {
        let m = digits_val(whole) * 1000;
        if m <= i64::MAX as int {
            Some(
                if neg {
                    -m
                } else {
                    m
                },
            )
        } else {
            None
        }
    } else {
        let frac = b.subrange(dp + 1, b.len() as int);
        if 1 <= frac.len() <= 3 && all_dec_digits(frac) {
            let fm: int = if frac.len() == 1 {
                digits_val(frac) * 100
            } else if frac.len() == 2 {
                digits_val(frac) * 10
            } else {
                digits_val(frac)
            };
            let m = digits_val(whole) * 1000 + fm;
            if m <= i64::MAX as int {
                Some(
                    if neg {
                        -m
                    } else {
                        m
                    },
                )
            } else {
                None
            }
        } else {
            None
        }
    }
}

/// Read the digit run between `from` and `to`: its value when every
/// character is a digit and the value stays within `cap`, else nothing.
fn scan_digits(field: &Vec<char>, from: usize, to: usize, cap: u64) -> (r: Option<u64>)
    requires
        from <= to <= field@.len(),
    ensures
        (r is Some) <==> (all_dec_digits(field@.subrange(from as int, to as int)) && digits_val(
            field@.subrange(from as int, to as int),
        ) <= cap as int),
        r is Some ==> r->0 as int == digits_val(field@.subrange(from as int, to as int)),
{
    let ghost whole = field@.subrange(from as int, to as int);
    let mut mag: u128 = 0;
    let mut i: usize = from;
    while i < to
        invariant
            from <= i <= to <= field@.len(),
            all_dec_digits(field@.subrange(from as int, i as int)),
            mag == digits_val(field@.subrange(from as int, i as int)),
            mag <= cap as u128,
        decreases to - i,
    {
        let d = field[i] as u32;
        proof {
            assert(field@.subrange(from as int, i as int + 1).drop_last() =~= field@.subrange(
                from as int,
                i as int,
            ));
            assert(field@.subrange(from as int, i as int + 1).last() == field@[i as int]);
        }
        if d < 48 || d > 57 {
            proof {
                assert(whole[i as int - from as int] == field@[i as int]);
                assert(!all_dec_digits(whole));
            }
            return None;
        }
        proof {
            assert(is_dec_digit(field@[i as int]));
            assert(dec_val(field@[i as int]) == d as int - 48);
            assert forall|j: int|
                0 <= j < i as int + 1 - from as int implies is_dec_digit(
                #[trigger] field@.subrange(from as int, i as int + 1)[j],
            ) by {
                if j < i as int - from as int {
                    assert(field@.subrange(from as int, i as int + 1)[j] == field@.subrange(
                        from as int,
                        i as int,
                    )[j]);
                } else {
                    assert(field@.subrange(from as int, i as int + 1)[j] == field@[i as int]);
                }
            }
        }
        mag = mag * 10 + (d - 48) as u128;
        if mag > cap as u128 {
            proof {
                if all_dec_digits(whole) {
                    lemma_digits_val_mono(whole, i as int + 1 - from as int);
                    assert(whole.take(i as int + 1 - from as int) =~= field@.subrange(
                        from as int,
                        i as int + 1,
                    ));
                }
            }
            return None;
        }
        i = i + 1;
    }
    proof {
        assert(field@.subrange(from as int, to as int) =~= field@.subrange(from as int, i as int));
    }
    Some(mag as u64)
}

/// Parse an integer text; mirrors `i64_text_val`.
pub fn parse_i64_text(field: &Vec<char>) -> (r: Option<i64>)
    ensures
        (r is Some) <==> (i64_text_val(field@) is Some),
        r is Some ==> r->0 as int == i64_text_val(field@)->0,
{
    let n = field.len();
    if n == 0 {
        return None;
    }
    let neg = field[0] == '-';
    let start: usize = if neg {
        1
    } else {
        0
    };
    if n == start {
        return None;
    }
    let cap: u64 = if neg {
        9223372036854775808
    } else {
        9223372036854775807
    };
    proof {
        if neg {
            assert(field@.subrange(1, n as int) =~= field@.drop_first());
        } else {
            assert(field@.subrange(0, n as int) =~= field@);
        }
    }
    match scan_digits(field, start, n, cap) {
        None => None,
        Some(mag) => {
            if neg {
                if mag == 9223372036854775808 {
                    Some(i64::MIN)
                } else {
                    Some(-(mag as i64))
                }
            } else {
                Some(mag as i64)
            }
        },
    }
}

/// Parse a fixed-point text into thousandths; mirrors `milli_text_val`.
pub fn parse_milli_text(field: &Vec<char>) -> (r: Option<i64>)
    ensures
        (r is Some) <==> (milli_text_val(field@) is Some),
        r is Some ==> r->0 as int == milli_text_val(field@)->0,
{
    let n = field.len();
    let neg = n > 0 && field[0] == '-';
    let start: usize = if neg {
        1
    } else {
        0
    };
    let ghost b = if neg {
        field@.drop_first()
    } else {
        field@
    };
    // find the first point in the body
    let mut dp: usize = start;
    while dp < n && field[dp] != '.'
        invariant
            start <= dp <= n,
            n == field@.len(),
            forall|j: int| start <= j < dp ==> field@[j] != '.',
        decreases n - dp,
    {
        dp = dp + 1;
    }
    proof {
        assert forall|j: int| 0 <= j < b.len() implies b[j] == field@[j + start] by {}
        if dp < n {
            lemma_first_dot_from(b, 0, dp as int - start as int);
        } else {
            lemma_first_dot_none(b, 0);
        }
        assert(first_dot(b, 0) == dp - start);
        assert(b.subrange(0, dp as int - start as int) =~= field@.subrange(
            start as int,
            dp as int,
        ));
    }
    if dp == start {
        // empty whole part (covers an empty field and a bare sign)
        return None;
    }
    let whole = match scan_digits(field, start, dp, 9223372036854775807 / 1000) {
        None => {
            proof {
                let wseq = b.subrange(0, dp as int - start as int);
                if all_dec_digits(wseq) {
                    // the scan refused only because the whole part alone
                    // already exceeds what thousandths can carry
                    assert(digits_val(wseq) * 1000 > i64::MAX as int);
                    if (dp as int) - (start as int) < b.len() {
                        let fr = b.subrange(dp as int - start as int + 1, b.len() as int);
                        if all_dec_digits(fr) {
                            lemma_digits_val_nonneg(fr);
                        }
                    }
                }
            }
            return None;
        },
        Some(w) => w,
    };
    if dp == n {
        let m = whole * 1000;
        return Some(if neg {
            -(m as i64)
        } else {
            m as i64
        });
    }
    let flen = n - dp - 1;
    if flen < 1 || flen > 3 {
        proof {
            assert(b.subrange(dp as int - start as int + 1, b.len() as int) =~= field@.subrange(
                dp as int + 1,
                n as int,
            ));
        }
        return None;
    }
    proof {
        assert(b.subrange(dp as int - start as int + 1, b.len() as int) =~= field@.subrange(
            dp as int + 1,
            n as int,
        ));
    }
    let frac = match scan_digits(field, dp + 1, n, 999) {
        None => {
            proof {
                let fr = field@.subrange(dp as int + 1, n as int);
                if all_dec_digits(fr) {
                    lemma_digits_val_bounded(fr);
                }
            }
            return None;
        },
        Some(f) => f,
    };
    let fm: u64 = if flen == 1 {
        frac * 100
    } else if flen == 2 {
        frac * 10
    } else {
        frac
    };
    let m = whole * 1000 + fm;
    if m > 9223372036854775807 {
        return None;
    }
    proof {
        let wseq = b.subrange(0, dp as int - start as int);
        let fseq = b.subrange(dp as int - start as int + 1, b.len() as int);
        assert(whole as int == digits_val(wseq));
        assert(frac as int == digits_val(fseq));
        assert(fseq.len() == flen as int);
        if neg {
            assert(milli_text_val(field@) == Some(-(m as int)));
        } else {
            assert(milli_text_val(field@) == Some(m as int));
        }
    }
    Some(
        if neg {
            -(m as i64)
        } else {
            m as i64
        },
    )
}

/// A short digit run denotes a small number: one digit stays below ten,
/// two below a hundred, three below a thousand.
proof fn lemma_digits_val_bounded(s: Seq<char>)
    requires
        all_dec_digits(s),
        s.len() <= 3,
    ensures
        s.len() <= 1 ==> digits_val(s) <= 9,
        s.len() <= 2 ==> digits_val(s) <= 99,
        digits_val(s) <= 999,
    decreases s.len(),
{
    if s.len() > 0 {
        assert(all_dec_digits(s.drop_last())) by {
            assert(forall|i: int| 0 <= i < s.len() - 1 ==> s.drop_last()[i] == s[i]);
        }
        lemma_digits_val_bounded(s.drop_last());
        lemma_digits_val_nonneg(s.drop_last());
    }
}

} // verus!
