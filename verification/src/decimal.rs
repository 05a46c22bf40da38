//! Fixed-point decimal text.
//!
//! A channel magnitude is held as a whole number of milli-units (so
//! `1250` stands for 1.25 units).  This module prints such a value in
//! its shortest decimal form (`"1.25"`, `"7"`, `"0.004"`) and parses
//! decimal tokens back into milli-units, truncating digits beyond the
//! third fractional place.

use vstd::prelude::*;

verus! {

/// Milli-units per whole unit: magnitudes carry three decimal places.
pub const MILLI_PER_UNIT: u32 = 1000;

pub open spec fn is_digit(c: char) -> bool {
    48 <= c as u32 && c as u32 <= 57
}

pub open spec fn digit_val(c: char) -> int {
    c as u32 - 48
}

/// The character for one decimal digit `d` (0 through 9).
pub open spec fn digit_char(d: int) -> char {
    if d == 0 { '0' }
    else if d == 1 { '1' }
    else if d == 2 { '2' }
    else if d == 3 { '3' }
    else if d == 4 { '4' }
    else if d == 5 { '5' }
    else if d == 6 { '6' }
    else if d == 7 { '7' }
    else if d == 8 { '8' }
    else { '9' }
}

/// Decimal digit string of a non-negative integer, without leading
/// zeros (`0` itself prints as `"0"`).
pub open spec fn dec_digits(n: int) -> Seq<char>
    decreases n,
{
    if n <= 9 {
        seq![digit_char(n)]
    } else {
        dec_digits(n / 10).push(digit_char(n % 10))
    }
}

pub open spec fn all_digits(s: Seq<char>) -> bool {
    forall|i: int| 0 <= i < s.len() ==> is_digit(s[i])
}

/// The integer a digit string stands for, most significant digit first.
pub open spec fn digits_val(s: Seq<char>) -> int
    decreases s.len(),
{
    if s.len() == 0 {
        0
    } else {
        digits_val(s.drop_last()) * 10 + digit_val(s.last())
    }
}

proof fn lemma_digit_char_val(d: int)
    requires
        0 <= d <= 9,
    ensures
        is_digit(digit_char(d)),
        digit_val(digit_char(d)) == d,
{
}

pub proof fn lemma_digits_val_nonneg(s: Seq<char>)
    requires
        all_digits(s),
    ensures
        digits_val(s) >= 0,
    decreases s.len(),
{
    if s.len() > 0 {
        lemma_digits_val_nonneg(s.drop_last());
    }
}

/// Every digit string is worth at least any of its prefixes.
pub proof fn lemma_digits_val_prefix(s: Seq<char>, i: int)
    requires
        all_digits(s),
        0 <= i <= s.len(),
    ensures
        digits_val(s) >= digits_val(s.subrange(0, i)),
    decreases s.len() - i,
{
    if i == s.len() {
        assert(s.subrange(0, i) =~= s);
    } else {
        assert(s.drop_last() =~= s.subrange(0, s.len() - 1));
        lemma_digits_val_prefix(s.subrange(0, s.len() - 1), i);
        assert(s.subrange(0, s.len() - 1).subrange(0, i) =~= s.subrange(0, i));
        lemma_digits_val_nonneg(s.drop_last());
    }
}

/// `dec_digits` really is a digit string, and `digits_val` undoes it.
pub proof fn lemma_dec_digits_val(n: int)
    requires
        n >= 0,
    ensures
        all_digits(dec_digits(n)),
        digits_val(dec_digits(n)) == n,
        dec_digits(n).len() >= 1,
    decreases n,
{
    if n <= 9 {
        lemma_digit_char_val(n);
        assert(dec_digits(n) =~= seq![digit_char(n)]);
        assert(dec_digits(n).drop_last() =~= Seq::<char>::empty());
        assert(digits_val(dec_digits(n)) == digits_val(Seq::<char>::empty()) * 10 + digit_val(
            digit_char(n)));
    } else {
        lemma_dec_digits_val(n / 10);
        lemma_digit_char_val(n % 10);
        assert(dec_digits(n) =~= dec_digits(n / 10).push(digit_char(n % 10)));
        assert(dec_digits(n).len() == dec_digits(n / 10).len() + 1);
        assert(dec_digits(n).drop_last() =~= dec_digits(n / 10));
        assert(dec_digits(n).last() == digit_char(n % 10));
        assert(digits_val(dec_digits(n)) == digits_val(dec_digits(n).drop_last()) * 10 + digit_val(
            dec_digits(n).last()));
        vstd::arithmetic::div_mod::lemma_fundamental_div_mod(n, 10);
        assert(digits_val(dec_digits(n)) == (n / 10) * 10 + (n % 10));
    }
}

/// A single-digit string literal for `d`.
pub fn digit_str(d: u64) -> (r: &'static str)
    requires
        d < 10,
    ensures
        r@ =~= seq![digit_char(d as int)],
{
    proof {
        reveal_strlit("0");
        reveal_strlit("1");
        reveal_strlit("2");
        reveal_strlit("3");
        reveal_strlit("4");
        reveal_strlit("5");
        reveal_strlit("6");
        reveal_strlit("7");
        reveal_strlit("8");
        reveal_strlit("9");
    }
    if d == 0 { "0" }
    else if d == 1 { "1" }
    else if d == 2 { "2" }
    else if d == 3 { "3" }
    else if d == 4 { "4" }
    else if d == 5 { "5" }
    else if d == 6 { "6" }
    else if d == 7 { "7" }
    else if d == 8 { "8" }
    else { "9" }
}

/// Prints `n` in decimal.
pub fn format_u64(n: u64) -> (r: String)
    ensures
        r@ == dec_digits(n as int),
    decreases n,
{
    if n <= 9 {
        String::from_str(digit_str(n))
    } else {
        let mut s = format_u64(n / 10);
        s.append(digit_str(n % 10));
        proof {
            assert(dec_digits(n as int) =~= dec_digits(n as int / 10).push(
                digit_char(n as int % 10)));
            assert(dec_digits(n as int / 10).push(digit_char(n as int % 10)) =~= dec_digits(
                n as int / 10) + seq![digit_char(n as int % 10)]);
        }
        s
    }
}

/// Shortest decimal text of a milli-unit value: the whole part, then a
/// fractional part only if it is non-zero, with trailing zeros dropped.
pub open spec fn milli_text(v: int) -> Seq<char> {
    let whole = v / (MILLI_PER_UNIT as int);
    let frac = v % (MILLI_PER_UNIT as int);
    if frac == 0 {
        dec_digits(whole)
    } else if frac % 100 == 0 {
        dec_digits(whole) + seq!['.', digit_char(frac / 100)]
    } else if frac % 10 == 0 {
        dec_digits(whole) + seq!['.', digit_char(frac / 100), digit_char((frac / 10) % 10)]
    } else {
        dec_digits(whole) + seq![
            '.',
            digit_char(frac / 100),
            digit_char((frac / 10) % 10),
            digit_char(frac % 10),
        ]
    }
}

/// Prints a milli-unit magnitude in its shortest decimal form.
pub fn format_milli(v: u32) -> (r: String)
    ensures
        r@ == milli_text(v as int),
{
    let whole = v / MILLI_PER_UNIT;
    let frac = v % MILLI_PER_UNIT;
    let mut s = format_u64(whole as u64);
    if frac == 0 {
        proof {
            assert(milli_text(v as int) =~= dec_digits(v as int / 1000));
        }
        s
    } else if frac % 100 == 0 {
        s.append(".");
        s.append(digit_str((frac / 100) as u64));
        proof {
            reveal_strlit(".");
            assert(s@ =~= milli_text(v as int));
        }
        s
    } else if frac % 10 == 0 {
        s.append(".");
        s.append(digit_str((frac / 100) as u64));
        s.append(digit_str(((frac / 10) % 10) as u64));
        proof {
            reveal_strlit(".");
            assert(s@ =~= milli_text(v as int));
        }
        s
    } else {
        s.append(".");
        s.append(digit_str((frac / 100) as u64));
        s.append(digit_str(((frac / 10) % 10) as u64));
        s.append(digit_str((frac % 10) as u64));
        proof {
            reveal_strlit(".");
            assert(s@ =~= milli_text(v as int));
        }
        s
    }
}

proof fn lemma_digits_val1(a: char)
    ensures
        digits_val(seq![a]) == digit_val(a),
{
    assert(digits_val(Seq::<char>::empty()) == 0);
    assert(seq![a].drop_last() =~= Seq::<char>::empty());
}

proof fn lemma_digits_val2(a: char, b: char)
    ensures
        digits_val(seq![a, b]) == digit_val(a) * 10 + digit_val(b),
{
    assert(seq![a, b].drop_last() =~= seq![a]);
    lemma_digits_val1(a);
}

proof fn lemma_digits_val3(a: char, b: char, c: char)
    ensures
        digits_val(seq![a, b, c]) == (digit_val(a) * 10 + digit_val(b)) * 10 + digit_val(c),
{
    assert(seq![a, b, c].drop_last() =~= seq![a, b]);
    lemma_digits_val2(a, b);
}

/// Printing a milli-unit value and parsing the text back gives the
/// value again: the serialized form loses nothing.
pub proof fn lemma_milli_text_roundtrip(v: int)
    requires
        0 <= v,
    ensures
        is_decimal(milli_text(v)),
        decimal_milli(milli_text(v)) == v,
{
    let whole = v / 1000;
    let frac = v % 1000;
    vstd::arithmetic::div_mod::lemma_fundamental_div_mod(v, 1000);
    lemma_dec_digits_val(whole);
    let dd = dec_digits(whole);
    let s = milli_text(v);
    if frac == 0 {
        assert(!has_dot(s)) by {
            if has_dot(s) {
                let k = dot_pos(s);
                assert(first_dot_at(s, k));
                assert(is_digit(s[k]));
            }
        }
        assert(digits_val(s) * 1000 == v);
    } else {
        let ll = dd.len() as int;
        let fs = s.subrange(ll + 1, s.len() as int);
        assert forall|j: int| 0 <= j < ll implies s[j] != '.' by {
            assert(s[j] == dd[j]);
            assert(is_digit(dd[j]));
        }
        assert(s[ll] == '.');
        assert(first_dot_at(s, ll));
        lemma_first_dot_unique(s, ll, dot_pos(s));
        assert(s.subrange(0, ll) =~= dd);
        vstd::arithmetic::div_mod::lemma_fundamental_div_mod(frac, 100);
        vstd::arithmetic::div_mod::lemma_fundamental_div_mod(frac, 10);
        vstd::arithmetic::div_mod::lemma_fundamental_div_mod(frac / 10, 10);
        vstd::arithmetic::div_mod::lemma_div_denominator(frac, 10, 10);
        lemma_digit_char_val(frac / 100);
        lemma_digit_char_val((frac / 10) % 10);
        lemma_digit_char_val(frac % 10);
        assert(frac / 100 == (frac / 10) / 10);
        if frac % 100 == 0 {
            assert(fs =~= seq![digit_char(frac / 100)]);
            lemma_digits_val1(digit_char(frac / 100));
            assert(digits_val(fs) == frac / 100);
            assert(frac_milli(fs) == (frac / 100) * 100);
            assert((frac / 100) * 100 == frac);
        } else if frac % 10 == 0 {
            assert(fs =~= seq![digit_char(frac / 100), digit_char((frac / 10) % 10)]);
            lemma_digits_val2(digit_char(frac / 100), digit_char((frac / 10) % 10));
            assert(digits_val(fs) == (frac / 100) * 10 + (frac / 10) % 10);
            assert(digits_val(fs) == frac / 10);
            assert(frac_milli(fs) == (frac / 10) * 10);
            assert((frac / 10) * 10 == frac);
        } else {
            assert(fs =~= seq![
                digit_char(frac / 100),
                digit_char((frac / 10) % 10),
                digit_char(frac % 10),
            ]);
            assert(fs.subrange(0, 3) =~= fs);
            lemma_digits_val3(
                digit_char(frac / 100),
                digit_char((frac / 10) % 10),
                digit_char(frac % 10),
            );
            assert(digits_val(fs) == ((frac / 100) * 10 + (frac / 10) % 10) * 10 + frac % 10);
            assert((frac / 100) * 10 + (frac / 10) % 10 == frac / 10);
            assert(digits_val(fs) == (frac / 10) * 10 + frac % 10);
            assert(frac_milli(fs) == frac);
        }
        assert(decimal_milli(s) == digits_val(dd) * 1000 + frac_milli(fs));
        assert(decimal_milli(s) == v);
    }
}

/// `k` is the position of the first `'.'` in `s`.
pub open spec fn first_dot_at(s: Seq<char>, k: int) -> bool {
    &&& 0 <= k < s.len()
    &&& s[k] == '.'
    &&& forall|j: int| 0 <= j < k ==> s[j] != '.'
}

pub open spec fn has_dot(s: Seq<char>) -> bool {
    exists|k: int| first_dot_at(s, k)
}

pub open spec fn dot_pos(s: Seq<char>) -> int {
    choose|k: int| first_dot_at(s, k)
}

pub proof fn lemma_first_dot_unique(s: Seq<char>, k1: int, k2: int)
    requires
        first_dot_at(s, k1),
        first_dot_at(s, k2),
    ensures
        k1 == k2,
{
    if k1 < k2 {
        assert(s[k1] != '.');
    }
    if k2 < k1 {
        assert(s[k2] != '.');
    }
}

/// A decimal token: a non-empty run of digits, optionally followed by
/// a dot and a non-empty run of digits.
pub open spec fn is_decimal(s: Seq<char>) -> bool {
    if has_dot(s) {
        let k = dot_pos(s);
        &&& 1 <= k
        &&& k + 2 <= s.len()
        &&& all_digits(s.subrange(0, k))
        &&& all_digits(s.subrange(k + 1, s.len() as int))
    } else {
        s.len() >= 1 && all_digits(s)
    }
}

/// The milli-unit worth of a fractional digit string: the first three
/// digits, padded with zeros on the right if fewer are given.
pub open spec fn frac_milli(f: Seq<char>) -> int {
    if f.len() >= 3 {
        digits_val(f.subrange(0, 3))
    } else if f.len() == 2 {
        digits_val(f) * 10
    } else {
        digits_val(f) * 100
    }
}

/// The milli-unit value a decimal token stands for; digits beyond the
/// third fractional place are truncated.
pub open spec fn decimal_milli(s: Seq<char>) -> int {
    if has_dot(s) {
        let k = dot_pos(s);
        digits_val(s.subrange(0, k)) * 1000 + frac_milli(s.subrange(k + 1, s.len() as int))
    } else {
        digits_val(s) * 1000
    }
}

pub open spec fn pow10(n: nat) -> int
    decreases n,
{
    if n == 0 {
        1
    } else {
        10 * pow10((n - 1) as nat)
    }
}

pub proof fn lemma_digits_val_upper(s: Seq<char>)
    requires
        all_digits(s),
    ensures
        digits_val(s) < pow10(s.len()),
    decreases s.len(),
{
    if s.len() > 0 {
        lemma_digits_val_upper(s.drop_last());
    }
}

pub proof fn lemma_frac_milli_nonneg(f: Seq<char>)
    requires
        all_digits(f),
    ensures
        frac_milli(f) >= 0,
{
    if f.len() >= 3 {
        lemma_digits_val_nonneg(f.subrange(0, 3));
    } else {
        lemma_digits_val_nonneg(f);
    }
}

/// Whether the characters of `s` in `[from, to)` are all digits.
fn check_digits(s: &str, from: usize, to: usize) -> (r: bool)
    requires
        from <= to <= s@.len(),
    ensures
        r == all_digits(s@.subrange(from as int, to as int)),
{
    let ghost sub = s@.subrange(from as int, to as int);
    let mut i = from;
    while i < to
        invariant
            from <= i <= to <= s@.len(),
            sub == s@.subrange(from as int, to as int),
            forall|j: int| from <= j < i ==> is_digit(s@[j]),
        decreases to - i,
    {
        let c = s.get_char(i);
        let cu = c as u32;
        if cu < 48 || cu > 57 {
            proof {
                assert(sub[i - from] == s@[i as int]);
            }
            return false;
        }
        i += 1;
    }
    proof {
        assert forall|j: int| 0 <= j < sub.len() implies is_digit(sub[j]) by {
            assert(sub[j] == s@[from + j]);
        }
    }
    true
}

/// The value of the digit run of `s` in `[from, to)`, or `None` when a
/// character there is not a digit or the value does not fit in `u32`.
fn parse_digits(s: &str, from: usize, to: usize) -> (r: Option<u64>)
    requires
        from <= to <= s@.len(),
    ensures
        match r {
            Some(v) => {
                &&& all_digits(s@.subrange(from as int, to as int))
                &&& v == digits_val(s@.subrange(from as int, to as int))
                &&& v <= u32::MAX
            },
            None => !all_digits(s@.subrange(from as int, to as int)) || digits_val(
                s@.subrange(from as int, to as int),
            ) > u32::MAX,
        },
{
    let ghost sub = s@.subrange(from as int, to as int);
    let mut i = from;
    let mut acc: u64 = 0;
    while i < to
        invariant
            from <= i <= to <= s@.len(),
            sub == s@.subrange(from as int, to as int),
            all_digits(s@.subrange(from as int, i as int)),
            acc == digits_val(s@.subrange(from as int, i as int)),
            acc <= u32::MAX,
        decreases to - i,
    {
        let c = s.get_char(i);
        let cu = c as u32;
        if cu < 48 || cu > 57 {
            proof {
                assert(sub[i - from] == s@[i as int]);
            }
            return None;
        }
        let d = (cu - 48) as u64;
        proof {
            assert(s@.subrange(from as int, i + 1).drop_last() =~= s@.subrange(
                from as int,
                i as int,
            ));
            assert(s@.subrange(from as int, i + 1).last() == s@[i as int]);
        }
        let next = acc * 10 + d;
        if next > u32::MAX as u64 {
            proof {
                if all_digits(sub) {
                    lemma_digits_val_prefix(sub, i + 1 - from);
                    assert(sub.subrange(0, i + 1 - from) =~= s@.subrange(from as int, i + 1));
                }
            }
            return None;
        }
        acc = next;
        i += 1;
    }
    proof {
        assert(s@.subrange(from as int, i as int) =~= sub);
    }
    Some(acc)
}

/// Parses one decimal token into milli-units; `None` when the token is
/// not decimal text or its value does not fit.
pub fn parse_milli(tok: &str) -> (r: Option<u32>)
    ensures
        match r {
            Some(v) => is_decimal(tok@) && v == decimal_milli(tok@) && decimal_milli(tok@)
                <= u32::MAX,
            None => !is_decimal(tok@) || decimal_milli(tok@) > u32::MAX,
        },
{
    let len = tok.unicode_len();
    let mut dot: Option<usize> = None;
    let mut i: usize = 0;
    while i < len
        invariant
            i <= len,
            len == tok@.len(),
            match dot {
                None => forall|j: int| 0 <= j < i ==> tok@[j] != '.',
                Some(k) => first_dot_at(tok@, k as int),
            },
        decreases len - i,
    {
        if dot.is_none() {
            let c = tok.get_char(i);
            if c == '.' {
                dot = Some(i);
            }
        }
        i += 1;
    }
    match dot {
        None => {
            proof {
                if has_dot(tok@) {
                    let k = dot_pos(tok@);
                    assert(first_dot_at(tok@, k));
                    assert(false);
                }
            }
            if len == 0 {
                return None;
            }
            match parse_digits(tok, 0, len) {
                Some(v) => {
                    proof {
                        assert(tok@.subrange(0, len as int) =~= tok@);
                    }
                    let total = v * 1000;
                    if total > u32::MAX as u64 {
                        None
                    } else {
                        Some(total as u32)
                    }
                },
                None => {
                    proof {
                        assert(tok@.subrange(0, len as int) =~= tok@);
                        if all_digits(tok@) {
                            lemma_digits_val_nonneg(tok@);
                        }
                    }
                    None
                },
            }
        },
        Some(k) => {
            proof {
                assert(has_dot(tok@));
                lemma_first_dot_unique(tok@, k as int, dot_pos(tok@));
            }
            if k == 0 || len - k < 2 {
                return None;
            }
            let ghost intpart = tok@.subrange(0, k as int);
            let ghost fracpart = tok@.subrange(k as int + 1, len as int);
            if !check_digits(tok, k + 1, len) {
                return None;
            }
            proof {
                lemma_frac_milli_nonneg(fracpart);
            }
            match parse_digits(tok, 0, k) {
                Some(ip) => {
                    let fl = len - (k + 1);
                    let fm: u64 = if fl >= 3 {
                        proof {
                            assert(fracpart.subrange(0, 3) =~= tok@.subrange(
                                k as int + 1,
                                k as int + 4,
                            ));
                            assert forall|j: int| 0 <= j < 3 implies is_digit(
                                #[trigger] fracpart.subrange(0, 3)[j],
                            ) by {
                                assert(fracpart.subrange(0, 3)[j] == fracpart[j]);
                            }
                            lemma_digits_val_upper(fracpart.subrange(0, 3));
                            assert(pow10(0) == 1);
                            assert(pow10(1) == 10);
                            assert(pow10(2) == 100);
                            assert(pow10(3) == 1000);
                        }
                        match parse_digits(tok, k + 1, k + 4) {
                            Some(f3) => f3,
                            None => {
                                proof {
                                    assert(false);
                                }
                                0
                            },
                        }
                    } else {
                        proof {
                            lemma_digits_val_upper(fracpart);
                            assert(pow10(0) == 1);
                            assert(pow10(1) == 10);
                            assert(pow10(2) == 100);
                        }
                        match parse_digits(tok, k + 1, len) {
                            Some(fv) => {
                                if fl == 2 {
                                    fv * 10
                                } else {
                                    fv * 100
                                }
                            },
                            None => {
                                proof {
                                    assert(false);
                                }
                                0
                            },
                        }
                    };
                    let total = ip * 1000 + fm;
                    proof {
                        assert(decimal_milli(tok@) == digits_val(intpart) * 1000 + frac_milli(
                            fracpart,
                        ));
                        assert(total == decimal_milli(tok@));
                    }
                    if total > u32::MAX as u64 {
                        None
                    } else {
                        Some(total as u32)
                    }
                },
                None => {
                    proof {
                        if is_decimal(tok@) {
                            lemma_digits_val_nonneg(intpart);
                        }
                    }
                    None
                },
            }
        },
    }
}

} // verus!
