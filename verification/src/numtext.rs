//! Decimal text: parsing attribute values into integers and fixed-point
//! coordinates, and rendering integers for the diagnostic strings.  All of
//! it is specified against the mathematical value of a digit string.

use vstd::prelude::*;

verus! {

/// An ASCII decimal digit.
pub open spec fn is_digit(c: char) -> bool {
    48 <= c as u32 <= 57
}

/// The value of one digit.
pub open spec fn digit_val(c: char) -> nat {
    (c as u32 - 48) as nat
}

/// All characters are digits.
pub open spec fn all_digits(s: Seq<char>) -> bool {
    forall|i: int| 0 <= i < s.len() ==> is_digit(#[trigger] s[i])
}

/// The value of a digit string, most significant digit first.
pub open spec fn dec_val(s: Seq<char>) -> nat
    decreases s.len(),
{
    if s.len() == 0 {
        0
    } else {
        dec_val(s.drop_last()) * 10 + digit_val(s.last())
    }
}

/// A digit string is worth at least any of its prefixes.
pub proof fn lemma_dec_val_prefix(s: Seq<char>, k: int)
    requires
        0 <= k <= s.len(),
    ensures
        dec_val(s.take(k)) <= dec_val(s),
    decreases s.len() - k,
{
    if k < s.len() {
        lemma_dec_val_prefix(s, k + 1);
        assert(s.take(k + 1).drop_last() =~= s.take(k));
        assert(dec_val(s.take(k + 1)) == dec_val(s.take(k)) * 10 + digit_val(s.take(k + 1).last()));
    } else {
        assert(s.take(k) =~= s);
    }
}

/// The digits of a decimal string, sign stripped: the input with one
/// leading `+` (or, where allowed, `-`) removed.
pub open spec fn strip_sign(s: Seq<char>) -> Seq<char> {
    if s.len() > 0 && (s[0] == '+' || s[0] == '-') {
        s.skip(1)
    } else {
        s
    }
}

/// What `parse_usize` accepts: an optional `+`, then one or more digits,
/// with a value that fits the type.
pub open spec fn parse_usize_spec(s: Seq<char>) -> Option<usize> {
    let d = if s.len() > 0 && s[0] == '+' {
        s.skip(1)
    } else {
        s
    };
    if d.len() > 0 && all_digits(d) && dec_val(d) <= usize::MAX {
        Some(dec_val(d) as usize)
    } else {
        None
    }
}

/// What `parse_i32` accepts: an optional sign, then one or more digits,
/// with a value in the type's range.
pub open spec fn parse_i32_spec(s: Seq<char>) -> Option<i32> {
    let neg = s.len() > 0 && s[0] == '-';
    let d = strip_sign(s);
    if d.len() > 0 && all_digits(d) {
        if neg {
            if dec_val(d) <= 0x8000_0000 {
                Some((0 - dec_val(d) as int) as i32)
            } else {
                None
            }
        } else {
            if dec_val(d) <= 0x7fff_ffff {
                Some(dec_val(d) as i32)
            } else {
                None
            }
        }
    } else {
        None
    }
}

/// Parses an unsigned decimal integer, as the store's identifiers are
/// written in the map dataset.
pub fn parse_usize(s: &str) -> (r: Option<usize>)
    ensures
        r == parse_usize_spec(s@),
{
    let len = s.unicode_len();
    let mut i: usize = 0;
    if len > 0 && s.get_char(0) == '+' {
        i = 1;
    }
    let ghost d = if s@.len() > 0 && s@[0] == '+' {
        s@.skip(1)
    } else {
        s@
    };
    proof {
        assert(d.len() == len - i);
        assert(forall|j: int| 0 <= j < d.len() ==> d[j] == s@[j + i]);
    }
    if i == len {
        return None;
    }
    let mut acc: usize = 0;
    let mut j: usize = i;
    #[verifier::loop_isolation(false)]
    while j < len
        invariant
            i <= j <= len,
            all_digits(d.take(j - i)),
            acc == dec_val(d.take(j - i)),
        decreases len - j,
    {
        let c = s.get_char(j);
        let u = c as u32;
        if u < 48 || u > 57 {
            proof {
                assert(!all_digits(d)) by {
                    assert(d[j - i] == s@[j as int]);
                    assert(!is_digit(d[j - i]));
                }
            }
            return None;
        }
        let dig = (u - 48) as usize;
        if acc > (usize::MAX - dig) / 10 {
            proof {
                assert(d.take(j + 1 - i).drop_last() =~= d.take(j - i));
                assert(dec_val(d.take(j + 1 - i)) > usize::MAX);
                lemma_dec_val_prefix(d, j + 1 - i);
            }
            return None;
        }
        acc = acc * 10 + dig;
        proof {
            assert(d.take(j + 1 - i).drop_last() =~= d.take(j - i));
            assert(d.take(j + 1 - i).last() == d[j - i]);
        }
        j = j + 1;
    }
    proof {
        assert(d.take(len - i) =~= d);
    }
    Some(acc)
}

/// Parses a signed decimal integer, as a map node's version is written.
pub fn parse_i32(s: &str) -> (r: Option<i32>)
    ensures
        r == parse_i32_spec(s@),
{
    let len = s.unicode_len();
    let mut i: usize = 0;
    let mut neg = false;
    if len > 0 {
        let c0 = s.get_char(0);
        if c0 == '+' {
            i = 1;
        } else if c0 == '-' {
            i = 1;
            neg = true;
        }
    }
    let ghost d = strip_sign(s@);
    proof {
        assert(d.len() == len - i);
        assert(forall|j: int| 0 <= j < d.len() ==> d[j] == s@[j + i]);
    }
    if i == len {
        return None;
    }
    let bound: u64 = if neg {
        0x8000_0000
    } else {
        0x7fff_ffff
    };
    let mut acc: u64 = 0;
    let mut j: usize = i;
    #[verifier::loop_isolation(false)]
    while j < len
        invariant
            i <= j <= len,
            all_digits(d.take(j - i)),
            acc == dec_val(d.take(j - i)),
            acc <= bound,
        decreases len - j,
    {
        let c = s.get_char(j);
        let u = c as u32;
        if u < 48 || u > 57 {
            proof {
                assert(!all_digits(d)) by {
                    assert(d[j - i] == s@[j as int]);
                    assert(!is_digit(d[j - i]));
                }
            }
            return None;
        }
        let dig = (u - 48) as u64;
        let next = acc * 10 + dig;
        proof {
            assert(d.take(j + 1 - i).drop_last() =~= d.take(j - i));
            assert(d.take(j + 1 - i).last() == d[j - i]);
        }
        if next > bound {
            proof {
                assert(dec_val(d.take(j + 1 - i)) > bound);
                lemma_dec_val_prefix(d, j + 1 - i);
            }
            return None;
        }
        acc = next;
        j = j + 1;
    }
    proof {
        assert(d.take(len - i) =~= d);
    }
    if neg {
        Some((0 - (acc as i64)) as i32)
    } else {
        Some(acc as i32)
    }
}

/// Powers of ten.
pub open spec fn pow10(k: nat) -> nat
    decreases k,
{
    if k == 0 {
        1
    } else {
        10 * pow10((k - 1) as nat)
    }
}

/// The value in nanodegrees of a fractional digit string: the first nine
/// fractional digits count; further digits are truncated away.
pub open spec fn frac_nano(f: Seq<char>) -> nat {
    if f.len() >= 9 {
        dec_val(f.take(9))
    } else {
        dec_val(f) * pow10((9 - f.len()) as nat)
    }
}

/// A split of a digit string at its decimal point: `k` is the position of
/// the one `.`, or the length when there is none; everything else is a
/// digit, and there is at least one digit.
pub open spec fn dot_split_ok(d: Seq<char>, k: int) -> bool {
    &&& 0 <= k <= d.len()
    &&& (k < d.len() ==> d[k] == '.')
    &&& all_digits(d.take(k))
    &&& (k < d.len() ==> all_digits(d.skip(k + 1)))
    &&& (if k < d.len() {
        d.len() > 1
    } else {
        d.len() > 0
    })
}

/// The magnitude in nanodegrees of a split digit string.
pub open spec fn nano_mag(d: Seq<char>, k: int) -> nat {
    dec_val(d.take(k)) * 1_000_000_000 + if k < d.len() {
        frac_nano(d.skip(k + 1))
    } else {
        0
    }
}

/// What `parse_nanodeg` accepts: an optional sign, then a plain decimal
/// number (digits, optionally with one decimal point; `5.`, `.5` and `5`
/// are all accepted), worth its value in nanodegrees, truncated beyond the
/// ninth fractional digit; the magnitude must fit the type.  Exponent
/// forms are not accepted.
pub open spec fn parse_nanodeg_spec(s: Seq<char>) -> Option<i64> {
    let neg = s.len() > 0 && s[0] == '-';
    let d = strip_sign(s);
    if exists|k: int| dot_split_ok(d, k) {
        let k = choose|k: int| dot_split_ok(d, k);
        let mag = nano_mag(d, k);
        if mag <= i64::MAX {
            if neg {
                Some((0 - mag as int) as i64)
            } else {
                Some(mag as i64)
            }
        } else {
            None
        }
    } else {
        None
    }
}

/// A digit string splits at its decimal point in at most one way.
pub proof fn lemma_dot_split_unique(d: Seq<char>, k1: int, k2: int)
    requires
        dot_split_ok(d, k1),
        dot_split_ok(d, k2),
    ensures
        k1 == k2,
{
    if k1 < k2 {
        assert(d.take(k2)[k1] == d[k1]);
        assert(is_digit(d.take(k2)[k1]));
    }
    if k2 < k1 {
        assert(d.take(k1)[k2] == d[k2]);
        assert(is_digit(d.take(k1)[k2]));
    }
}

/// Powers of ten are monotone.
pub proof fn lemma_pow10_le(a: nat, b: nat)
    requires
        a <= b,
    ensures
        pow10(a) <= pow10(b),
    decreases b,
{
    if a < b {
        lemma_pow10_le(a, (b - 1) as nat);
    }
}

/// Nine tens.
pub proof fn lemma_pow10_9()
    ensures
        pow10(9) == 1_000_000_000,
{
    reveal_with_fuel(pow10, 10);
}

/// A split can lie only at the first dot (or at the end, when there is no
/// dot at all).
proof fn lemma_split_at_first_dot(d: Seq<char>, k: int)
    requires
        0 <= k <= d.len(),
        k < d.len() ==> d[k] == '.',
        forall|m: int| 0 <= m < k ==> d[m] != '.',
    ensures
        forall|k2: int| dot_split_ok(d, k2) ==> k2 == k,
{
    assert forall|k2: int| dot_split_ok(d, k2) implies k2 == k by {
        if k2 < k {
            assert(d[k2] != '.');
        } else if k2 > k {
            assert(d.take(k2)[k] == d[k]);
            assert(is_digit(d[k]));
        }
    }
}

/// The digits before the split, capped so that the integer part alone
/// stays within range in nanodegrees; `None` on a non-digit or on
/// overflow.
#[verifier::loop_isolation(false)]
fn int_value(s: &str, from: usize, to: usize) -> (r: Option<u64>)
    requires
        from <= to <= s@.len(),
    ensures
        ({
            let d = s@.subrange(from as int, to as int);
            match r {
                Some(v) => all_digits(d) && v == dec_val(d) && v * 1_000_000_000 <= i64::MAX,
                None => !all_digits(d) || dec_val(d) * 1_000_000_000 > i64::MAX,
            }
        }),
{
    let ghost d = s@.subrange(from as int, to as int);
    let q: u64 = 0x7fff_ffff_ffff_ffff / 1_000_000_000;
    let mut acc: u64 = 0;
    let mut j: usize = from;
    while j < to
        invariant
            from <= j <= to,
            all_digits(d.take(j - from)),
            acc == dec_val(d.take(j - from)),
            acc <= q,
        decreases to - j,
    {
        let c = s.get_char(j);
        let u = c as u32;
        if u < 48 || u > 57 {
            proof {
                assert(!all_digits(d)) by {
                    assert(d[j - from] == s@[j as int]);
                    assert(!is_digit(d[j - from]));
                }
            }
            return None;
        }
        let dig = (u - 48) as u64;
        proof {
            assert(d.take(j + 1 - from).drop_last() =~= d.take(j - from));
            assert(d.take(j + 1 - from).last() == d[j - from]);
        }
        if acc > (q - dig) / 10 {
            proof {
                assert(acc * 10 + dig > q) by (nonlinear_arith)
                    requires
                        acc > (q - dig) / 10,
                        dig <= q,
                ;
                assert(dec_val(d.take(j + 1 - from)) > q);
                lemma_dec_val_prefix(d, j + 1 - from);
                assert(dec_val(d) > q);
                assert(dec_val(d) * 1_000_000_000 > q * 1_000_000_000) by (nonlinear_arith)
                    requires
                        dec_val(d) > q,
                ;
            }
            return None;
        }
        proof {
            assert(acc * 10 + dig <= q) by (nonlinear_arith)
                requires
                    acc <= (q - dig) / 10,
                    dig <= q,
            ;
        }
        acc = acc * 10 + dig;
        j = j + 1;
    }
    proof {
        assert(d.take(to - from) =~= d);
        assert(acc * 1_000_000_000 <= q * 1_000_000_000) by (nonlinear_arith)
            requires
                acc <= q,
        ;
    }
    Some(acc)
}

/// The value in nanodegrees of the fractional digits that start at
/// `start`: the first nine digits count, the rest only have to be digits.
#[verifier::loop_isolation(false)]
fn frac_value(s: &str, start: usize) -> (r: Option<u64>)
    requires
        start <= s@.len(),
    ensures
        ({
            let f = s@.skip(start as int);
            match r {
                Some(v) => all_digits(f) && v == frac_nano(f) && v < 1_000_000_000,
                None => !all_digits(f),
            }
        }),
{
    let ghost f = s@.skip(start as int);
    let len = s.unicode_len();
    let mut frac: u64 = 0;
    let mut cnt: usize = 0;
    let mut j: usize = start;
    while j < len
        invariant
            start <= j <= len,
            all_digits(f.take(j - start)),
            cnt == if j - start <= 9 {
                j - start
            } else {
                9
            },
            frac == dec_val(f.take(cnt as int)),
            frac < pow10(cnt as nat),
            pow10(cnt as nat) <= 1_000_000_000,
        decreases len - j,
    {
        let c = s.get_char(j);
        let u = c as u32;
        if u < 48 || u > 57 {
            proof {
                assert(!all_digits(f)) by {
                    assert(f[j - start] == s@[j as int]);
                    assert(!is_digit(f[j - start]));
                }
            }
            return None;
        }
        proof {
            assert(f.take(j + 1 - start).drop_last() =~= f.take(j - start));
            assert(f.take(j + 1 - start).last() == f[j - start]);
        }
        if cnt < 9 {
            frac = frac * 10 + (u - 48) as u64;
            cnt = cnt + 1;
            proof {
                lemma_pow10_le(cnt as nat, 9);
                lemma_pow10_9();
                assert(pow10(cnt as nat) == 10 * pow10((cnt - 1) as nat));
            }
        }
        j = j + 1;
    }
    let ghost scanned: int = cnt as int;
    proof {
        assert(f.take(len - start) =~= f);
        assert(frac == dec_val(f.take(scanned)) * pow10((cnt - scanned) as nat)) by {
            assert(frac == dec_val(f.take(cnt as int)));
            assert((cnt - scanned) as nat == 0);
            assert(pow10(0) == 1);
            assert(dec_val(f.take(scanned)) * 1 == dec_val(f.take(scanned)));
        }
    }
    while cnt < 9
        invariant
            scanned <= cnt as int <= 9,
            frac == dec_val(f.take(scanned)) * pow10((cnt - scanned) as nat),
            frac < pow10(cnt as nat),
            pow10(cnt as nat) <= 1_000_000_000,
        decreases 9 - cnt,
    {
        proof {
            lemma_pow10_le((cnt + 1) as nat, 9);
            lemma_pow10_9();
            assert(pow10((cnt + 1 - scanned) as nat) == 10 * pow10((cnt - scanned) as nat));
            assert(pow10((cnt + 1) as nat) == 10 * pow10(cnt as nat));
            assert(dec_val(f.take(scanned)) * (10 * pow10((cnt - scanned) as nat)) == (dec_val(
                f.take(scanned),
            ) * pow10((cnt - scanned) as nat)) * 10) by (nonlinear_arith);
        }
        frac = frac * 10;
        cnt = cnt + 1;
    }
    proof {
        lemma_pow10_9();
        if f.len() >= 9 {
            assert(scanned == 9);
            assert(pow10((cnt - scanned) as nat) == 1);
            assert(frac == dec_val(f.take(9)));
        } else {
            assert(scanned == f.len());
            assert(f.take(scanned) =~= f);
            assert(frac == dec_val(f) * pow10((9 - f.len()) as nat));
        }
        assert(frac == frac_nano(f));
    }
    Some(frac)
}

/// Parses a coordinate written as a plain decimal number into signed
/// nanodegrees.  Accepted forms are an optional sign and then digits with
/// at most one decimal point (`48.8566`, `5.`, `.5`, `45`); anything else,
/// and any magnitude beyond the type, yields `None`.
pub fn parse_nanodeg(s: &str) -> (r: Option<i64>)
    ensures
        r == parse_nanodeg_spec(s@),
{
    let len = s.unicode_len();
    let mut i: usize = 0;
    let mut neg = false;
    if len > 0 {
        let c0 = s.get_char(0);
        if c0 == '+' {
            i = 1;
        } else if c0 == '-' {
            i = 1;
            neg = true;
        }
    }
    let ghost d = strip_sign(s@);
    proof {
        assert(d.len() == len - i);
        assert(forall|j: int| 0 <= j < d.len() ==> d[j] == s@[j + i]);
    }
    // the first dot, if any
    let mut dot: usize = len;
    let mut j: usize = i;
    #[verifier::loop_isolation(false)]
    while j < len && dot == len
        invariant
            i <= j <= len,
            i <= len,
            dot <= len,
            dot == len ==> forall|m: int| i <= m < j ==> s@[m] != '.',
            dot < len ==> i <= dot && j == dot + 1 && s@[dot as int] == '.' && forall|m: int|
                i <= m < dot ==> s@[m] != '.',
        decreases len - j,
    {
        if s.get_char(j) == '.' {
            dot = j;
        }
        j = j + 1;
    }
    let ghost k: int = dot - i;
    proof {
        assert(i <= dot <= len);
        assert forall|m: int| 0 <= m < k implies d[m] != '.' by {
            assert(d[m] == s@[m + i]);
        }
        if k < d.len() {
            assert(d[k] == s@[dot as int]);
        }
        lemma_split_at_first_dot(d, k);
    }
    // integer part
    let int_v = match int_value(s, i, dot) {
        Some(v) => v,
        None => {
            proof {
                assert(s@.subrange(i as int, dot as int) =~= d.take(k));
                assert forall|k2: int| dot_split_ok(d, k2) implies nano_mag(d, k2) > i64::MAX by {
                    assert(k2 == k);
                    assert(all_digits(d.take(k)));
                    assert(dec_val(d.take(k)) * 1_000_000_000 > i64::MAX);
                }
                if exists|k2: int| dot_split_ok(d, k2) {
                    let k2 = choose|k2: int| dot_split_ok(d, k2);
                    assert(nano_mag(d, k2) > i64::MAX);
                }
            }
            return None;
        },
    };
    // fractional part
    let mut frac_v: u64 = 0;
    if dot < len {
        frac_v = match frac_value(s, dot + 1) {
            Some(v) => v,
            None => {
                proof {
                    assert(s@.skip(dot + 1) =~= d.skip(k + 1));
                    assert(forall|k2: int| !dot_split_ok(d, k2));
                }
                return None;
            },
        };
    }
    // at least one digit in all
    if dot == i && (dot == len || dot + 1 == len) {
        proof {
            assert(forall|k2: int| !dot_split_ok(d, k2));
        }
        return None;
    }
    proof {
        assert(s@.subrange(i as int, dot as int) =~= d.take(k));
        if dot < len {
            assert(s@.skip(dot + 1) =~= d.skip(k + 1));
        }
        assert(dot_split_ok(d, k));
        assert((choose|k2: int| dot_split_ok(d, k2)) == k) by {
            let k2 = choose|k2: int| dot_split_ok(d, k2);
        }
        assert(nano_mag(d, k) == dec_val(d.take(k)) * 1_000_000_000 + frac_v);
    }
    let max_mag: u64 = 0x7fff_ffff_ffff_ffff;
    if int_v > (max_mag - frac_v) / 1_000_000_000 {
        proof {
            assert(int_v * 1_000_000_000 + frac_v > max_mag) by (nonlinear_arith)
                requires
                    int_v > (max_mag - frac_v) / 1_000_000_000,
                    frac_v < 1_000_000_000,
                    max_mag == 0x7fff_ffff_ffff_ffff,
            ;
            assert(nano_mag(d, k) > i64::MAX);
        }
        return None;
    }
    proof {
        assert(int_v * 1_000_000_000 + frac_v <= max_mag) by (nonlinear_arith)
            requires
                int_v <= (max_mag - frac_v) / 1_000_000_000,
                frac_v < 1_000_000_000,
                int_v * 1_000_000_000 <= max_mag,
                max_mag == 0x7fff_ffff_ffff_ffff,
        ;
    }
    let mag = int_v * 1_000_000_000 + frac_v;
    proof {
        assert(mag == nano_mag(d, k));
    }
    if neg {
        Some(0 - (mag as i64))
    } else {
        Some(mag as i64)
    }
}

} // verus!
