//! Text forms of amounts and argument tokens.
//!
//! Decimal rendering of fixed-point amounts, the decimal-token grammar used
//! by the request builder, and JSON string escaping. Every executable
//! function is specified against a small recursive character-sequence
//! function, so the exact wire text of a request is pinned down.

use vstd::prelude::*;

verus! {

use crate::money::MAX_AMOUNT_UNITS;
use crate::money::UNITS_PER_COIN;
use crate::money::round_half_up;
use vstd::string::StrSliceExecFns;
use vstd::string::StringExecFns;

/// The decimal digit character for a value below ten.
pub open spec fn digit_char(d: int) -> char {
    if d == 0 { '0' }
    else if d == 1 { '1' }
    else if d == 2 { '2' }
    else if d == 3 { '3' }
    else if d == 4 { '4' }
    else if d == 5 { '5' }
    else if d == 6 { '6' }
    else if d == 7 { '7' }
    else if d == 8 { '8' }
    else { '9' }
}

/// The lower-case hexadecimal digit character for a value below sixteen.
pub open spec fn hex_char(d: int) -> char {
    if d < 10 { digit_char(d) }
    else if d == 10 { 'a' }
    else if d == 11 { 'b' }
    else if d == 12 { 'c' }
    else if d == 13 { 'd' }
    else if d == 14 { 'e' }
    else { 'f' }
}

pub open spec fn is_digit(c: char) -> bool {
    '0' as u32 <= c as u32 && c as u32 <= '9' as u32
}

pub open spec fn digit_val(c: char) -> int {
    c as u32 - '0' as u32
}

pub open spec fn all_digits(s: Seq<char>) -> bool {
    forall|i: int| 0 <= i < s.len() ==> is_digit(#[trigger] s[i])
}

/// The number a digit string denotes, most significant digit first.
pub open spec fn digits_val(s: Seq<char>) -> int
    decreases s.len(),
{
    if s.len() == 0 {
        0
    } else {
        digits_val(s.drop_last()) * 10 + digit_val(s.last())
    }
}

pub open spec fn pow10(k: nat) -> int
    decreases k,
{
    if k == 0 {
        1
    } else {
        10 * pow10((k - 1) as nat)
    }
}

/// The decimal digits of `n`, without a sign and without leading zeros.
pub open spec fn dec_chars(n: nat) -> Seq<char>
    decreases n,
{
    if n < 10 {
        seq![digit_char(n as int)]
    } else {
        dec_chars(n / 10) + seq![digit_char((n % 10) as int)]
    }
}

/// The low `w` decimal digits of `n`, zero-padded to exactly `w` characters.
pub open spec fn fixed_chars(n: nat, w: nat) -> Seq<char>
    decreases w,
{
    if w == 0 {
        Seq::empty()
    } else {
        fixed_chars(n / 10, (w - 1) as nat) + seq![digit_char((n % 10) as int)]
    }
}

/// The canonical decimal text of an amount in minor units: the whole-coin
/// part, then, only if the amount is not a whole number of coins, a point
/// and all eight minor-unit digits.
pub open spec fn amount_chars(units: int) -> Seq<char> {
    let whole = (units / (UNITS_PER_COIN as int)) as nat;
    let frac = (units % (UNITS_PER_COIN as int)) as nat;
    if frac == 0 {
        dec_chars(whole)
    } else {
        dec_chars(whole) + seq!['.'] + fixed_chars(frac, 8)
    }
}

/// How one character is written inside a JSON string literal: quote and
/// backslash are escaped, control characters take the universal escape,
/// everything else stands as itself.
pub open spec fn esc_char(c: char) -> Seq<char> {
    if c == '"' {
        seq!['\\', '"']
    } else if c == '\\' {
        seq!['\\', '\\']
    } else if (c as u32) < 32 {
        seq!['\\', 'u', '0', '0', hex_char(c as u32 as int / 16), hex_char(c as u32 as int % 16)]
    } else {
        seq![c]
    }
}

/// A whole character sequence written inside a JSON string literal.
pub open spec fn json_escaped(s: Seq<char>) -> Seq<char>
    decreases s.len(),
{
    if s.len() == 0 {
        Seq::empty()
    } else {
        json_escaped(s.drop_last()) + esc_char(s.last())
    }
}

/// The one-character string for a decimal digit value.
pub fn digit_str(d: u64) -> (r: &'static str)
    requires
        d < 10,
    ensures
        r@ == seq![digit_char(d as int)],
{
    proof {
        reveal_strlit("0");
        reveal_strlit("1");
        reveal_strlit("2");
        reveal_strlit("3");
        reveal_strlit("4");
        reveal_strlit("5");
        reveal_strlit("6");
        reveal_strlit("7");
        reveal_strlit("8");
        reveal_strlit("9");
    }
    let r = match d {
        0 => "0",
        1 => "1",
        2 => "2",
        3 => "3",
        4 => "4",
        5 => "5",
        6 => "6",
        7 => "7",
        8 => "8",
        _ => "9",
    };
    proof {
        assert(r@ =~= seq![digit_char(d as int)]);
    }
    r
}

/// The one-character string for a hexadecimal digit value.
pub fn hex_str(d: u64) -> (r: &'static str)
    requires
        d < 16,
    ensures
        r@ == seq![hex_char(d as int)],
{
    if d < 10 {
        digit_str(d)
    } else {
        proof {
            reveal_strlit("a");
            reveal_strlit("b");
            reveal_strlit("c");
            reveal_strlit("d");
            reveal_strlit("e");
            reveal_strlit("f");
        }
        let r = match d {
            10 => "a",
            11 => "b",
            12 => "c",
            13 => "d",
            14 => "e",
            _ => "f",
        };
        proof {
            assert(r@ =~= seq![hex_char(d as int)]);
        }
        r
    }
}

/// Renders a nonnegative integer in decimal.
pub fn render_nat(n: u64) -> (s: String)
    ensures
        s@ == dec_chars(n as nat),
    decreases n,
{
    if n < 10 {
        digit_str(n).to_owned()
    } else {
        let mut s = render_nat(n / 10);
        s.append(digit_str(n % 10));
        proof {
            assert(s@ =~= dec_chars(n as nat));
        }
        s
    }
}

/// Renders the low `w` decimal digits of `n`, zero-padded to width `w`.
pub fn render_fixed(n: u64, w: u64) -> (s: String)
    ensures
        s@ == fixed_chars(n as nat, w as nat),
    decreases w,
{
    if w == 0 {
        let s = String::new();
        proof {
            assert(s@ =~= fixed_chars(n as nat, 0));
        }
        s
    } else {
        let mut s = render_fixed(n / 10, w - 1);
        s.append(digit_str(n % 10));
        proof {
            assert(s@ =~= fixed_chars(n as nat, w as nat));
        }
        s
    }
}

/// Renders an amount of minor units as canonical decimal coin text.
pub fn render_amount(units: u64) -> (s: String)
    ensures
        s@ == amount_chars(units as int),
{
    let whole = units / UNITS_PER_COIN;
    let frac = units % UNITS_PER_COIN;
    if frac == 0 {
        render_nat(whole)
    } else {
        let mut s = render_nat(whole);
        proof {
            reveal_strlit(".");
            assert("."@ =~= seq!['.']);
        }
        s.append(".");
        let f = render_fixed(frac, 8);
        s.append(f.as_str());
        proof {
            assert(s@ =~= amount_chars(units as int));
        }
        s
    }
}

/// Escapes a string for inclusion in a JSON string literal.
pub fn json_escape(s: &str) -> (out: String)
    ensures
        out@ == json_escaped(s@),
{
    let n = s.unicode_len();
    let mut out = String::new();
    let mut i: usize = 0;
    proof {
        assert(s@.take(0) =~= Seq::<char>::empty());
    }
    while i < n
        invariant
            i <= n,
            n == s@.len(),
            out@ == json_escaped(s@.take(i as int)),
        decreases n - i,
    {
        let c = s.get_char(i);
        if c == '"' {
            proof {
                reveal_strlit("\\\"");
                assert("\\\""@ =~= seq!['\\', '"']);
            }
            out.append("\\\"");
        } else if c == '\\' {
            proof {
                reveal_strlit("\\\\");
                assert("\\\\"@ =~= seq!['\\', '\\']);
            }
            out.append("\\\\");
        } else if (c as u32) < 32 {
            let v = c as u32;
            proof {
                reveal_strlit("\\u00");
                assert("\\u00"@ =~= seq!['\\', 'u', '0', '0']);
            }
            out.append("\\u00");
            out.append(hex_str((v / 16) as u64));
            out.append(hex_str((v % 16) as u64));
        } else {
            let piece = s.substring_char(i, i + 1);
            proof {
                assert(piece@ =~= seq![s@[i as int]]);
            }
            out.append(piece);
        }
        proof {
            assert(s@.take(i + 1).drop_last() =~= s@.take(i as int));
            assert(s@.take(i + 1).last() == s@[i as int]);
            assert(out@ =~= json_escaped(s@.take(i + 1)));
        }
        i = i + 1;
    }
    proof {
        assert(s@.take(n as int) =~= s@);
    }
    out
}

/// Index of the first occurrence of `c` in `s`, or `s.len()` if absent.
pub open spec fn char_index(s: Seq<char>, c: char) -> int
    decreases s.len(),
{
    if s.len() == 0 {
        0
    } else if s[0] == c {
        0
    } else {
        1 + char_index(s.drop_first(), c)
    }
}

pub proof fn lemma_char_index(s: Seq<char>, c: char)
    ensures
        0 <= char_index(s, c) <= s.len(),
        char_index(s, c) < s.len() ==> s[char_index(s, c)] == c,
        forall|j: int| 0 <= j < char_index(s, c) ==> s[j] != c,
    decreases s.len(),
{
    if s.len() != 0 && s[0] != c {
        lemma_char_index(s.drop_first(), c);
        assert forall|j: int| 0 <= j < char_index(s, c) implies s[j] != c by {
            if j > 0 {
                assert(s.drop_first()[j - 1] == s[j]);
            }
        }
        if char_index(s, c) < s.len() {
            assert(s.drop_first()[char_index(s.drop_first(), c)] == s[char_index(s, c)]);
        }
    }
}

/// The first index at which `c` stands is the unique index with nothing
/// equal to `c` before it.
pub proof fn lemma_char_index_is_first(s: Seq<char>, c: char, i: int)
    requires
        0 <= i <= s.len(),
        forall|j: int| 0 <= j < i ==> s[j] != c,
        i < s.len() ==> s[i] == c,
    ensures
        char_index(s, c) == i,
{
    lemma_char_index(s, c);
    let ci = char_index(s, c);
    if i < s.len() {
        if ci < i {
            assert(s[ci] != c);
            assert(false);
        }
        if ci > i {
            assert(s[i] != c);
            assert(false);
        }
    } else {
        if ci < s.len() {
            assert(s[ci] != c);
            assert(false);
        }
    }
}

pub proof fn lemma_pow10_pos(k: nat)
    ensures
        pow10(k) >= 1,
    decreases k,
{
    if k > 0 {
        lemma_pow10_pos((k - 1) as nat);
    }
}

pub proof fn lemma_pow10_le(a: nat, b: nat)
    requires
        a <= b,
    ensures
        pow10(a) <= pow10(b),
    decreases b,
{
    if a < b {
        lemma_pow10_le(a, (b - 1) as nat);
        lemma_pow10_pos((b - 1) as nat);
    }
}

/// A digit string of length `l` denotes a value below ten to the `l`.
pub proof fn lemma_digits_val_bound(s: Seq<char>)
    requires
        all_digits(s),
    ensures
        0 <= digits_val(s) < pow10(s.len()),
    decreases s.len(),
{
    if s.len() > 0 {
        assert(forall|i: int| 0 <= i < s.drop_last().len() ==> is_digit(#[trigger] s.drop_last()[i]));
        lemma_digits_val_bound(s.drop_last());
        assert(is_digit(s.last()));
        assert(0 <= digit_val(s.last()) <= 9);
    }
}

/// Finds the first occurrence of `c` in `s`, or the character length of
/// `s` if `c` does not occur.
pub fn find_char(s: &str, c: char) -> (i: usize)
    ensures
        i == char_index(s@, c),
        i <= s@.len(),
{
    let n = s.unicode_len();
    let mut i: usize = 0;
    while i < n
        invariant
            i <= n,
            n == s@.len(),
            forall|j: int| 0 <= j < i ==> s@[j] != c,
        decreases n - i,
    {
        if s.get_char(i) == c {
            proof {
                lemma_char_index_is_first(s@, c, i as int);
            }
            return i;
        }
        i = i + 1;
    }
    proof {
        lemma_char_index_is_first(s@, c, n as int);
    }
    n
}

/// The integer part of a decimal token: everything before the first point.
pub open spec fn int_part(s: Seq<char>) -> Seq<char> {
    s.take(char_index(s, '.'))
}

pub open spec fn has_frac(s: Seq<char>) -> bool {
    char_index(s, '.') < s.len()
}

/// The fraction part of a decimal token: everything after the first point.
pub open spec fn frac_part(s: Seq<char>) -> Seq<char> {
    if has_frac(s) {
        s.skip(char_index(s, '.') + 1)
    } else {
        Seq::empty()
    }
}

/// An unsigned decimal amount token: up to ten integer digits without a
/// leading zero (except a lone zero), optionally a point and one to
/// seventeen fraction digits.
pub open spec fn is_number_token(s: Seq<char>) -> bool {
    &&& 1 <= int_part(s).len() <= 10
    &&& all_digits(int_part(s))
    &&& (int_part(s).len() == 1 || int_part(s)[0] != '0')
    &&& (has_frac(s) ==> 1 <= frac_part(s).len() <= 17 && all_digits(frac_part(s)))
}

/// The amount a decimal token denotes, in minor units, with fraction
/// digits beyond the eighth rounded half-up.
pub open spec fn token_units(s: Seq<char>) -> int {
    round_half_up(
        digits_val(int_part(s) + frac_part(s)) * (UNITS_PER_COIN as int),
        pow10(frac_part(s).len()),
    )
}

/// Parses an unsigned decimal amount token into minor units, rounding
/// fraction digits beyond the eighth half-up: the precision helper applied
/// to textual amounts. Returns the amount exactly when the token fits the
/// decimal grammar and denotes a representable amount.
pub fn parse_amount_token(tok: &str) -> (r: Option<u64>)
    ensures
        r is Some <==> is_number_token(tok@) && token_units(tok@) <= MAX_AMOUNT_UNITS as int,
        r is Some ==> 0 <= token_units(tok@) && r == Some((token_units(tok@)) as u64),
{
    let n = tok.unicode_len();
    let di = find_char(tok, '.');
    if di < 1 || di > 10 {
        return None;
    }
    let mut i: usize = 0;
    while i < di
        invariant
            i <= di,
            di <= n,
            n == tok@.len(),
            di == char_index(tok@, '.'),
            forall|j: int| 0 <= j < i ==> is_digit(#[trigger] tok@[j]),
        decreases di - i,
    {
        let c = tok.get_char(i);
        if (c as u32) < 48 || (c as u32) > 57 {
            proof {
                assert(int_part(tok@)[i as int] == tok@[i as int]);
                assert(!is_digit(int_part(tok@)[i as int]));
            }
            return None;
        }
        i = i + 1;
    }
    proof {
        assert(forall|j: int| 0 <= j < di ==> is_digit(#[trigger] int_part(tok@)[j]));
    }
    if di > 1 && tok.get_char(0) == '0' {
        proof {
            assert(int_part(tok@)[0] == '0');
        }
        return None;
    }
    let mut flen: usize = 0;
    if di < n {
        flen = n - di - 1;
        if flen < 1 || flen > 17 {
            return None;
        }
        let mut m: usize = 0;
        while m < flen
            invariant
                m <= flen,
                flen == n - di - 1,
                di < n,
                n == tok@.len(),
                di == char_index(tok@, '.'),
                forall|j: int| 0 <= j < m ==> is_digit(#[trigger] tok@[di + 1 + j]),
            decreases flen - m,
        {
            let c = tok.get_char(di + 1 + m);
            if (c as u32) < 48 || (c as u32) > 57 {
                proof {
                    assert(frac_part(tok@)[m as int] == tok@[di + 1 + m]);
                    assert(!is_digit(frac_part(tok@)[m as int]));
                }
                return None;
            }
            m = m + 1;
        }
        proof {
            assert(forall|j: int| 0 <= j < flen ==> #[trigger] frac_part(tok@)[j] == tok@[di + 1 + j]);
        }
    }
    let ghost full = int_part(tok@) + frac_part(tok@);
    proof {
        assert(full.len() == di + flen);
        assert(forall|j: int| 0 <= j < di ==> #[trigger] full[j] == tok@[j]);
        assert(forall|j: int| di <= j < di + flen ==> #[trigger] full[j] == tok@[j + 1]);
        assert(all_digits(full));
        assert(is_number_token(tok@));
        lemma_pow10_le((di + flen) as nat, 27);
        assert(pow10(27) == 1_000_000_000_000_000_000_000_000_000int) by {
            reveal_with_fuel(pow10, 28);
        }
    }
    let mut acc: u128 = 0;
    let mut idx: usize = 0;
    while idx < di
        invariant
            idx <= di,
            di + flen <= 27,
            di <= n,
            n == tok@.len(),
            full.len() == di + flen,
            all_digits(full),
            forall|j: int| 0 <= j < di ==> #[trigger] full[j] == tok@[j],
            acc == digits_val(full.take(idx as int)),
            pow10(27) == 1_000_000_000_000_000_000_000_000_000int,
        decreases di - idx,
    {
        let c = tok.get_char(idx);
        proof {
            assert(full.take(idx as int).len() == idx);
            assert(forall|j: int| 0 <= j < idx ==> full.take(idx as int)[j] == full[j]);
            lemma_digits_val_bound(full.take(idx as int));
            lemma_pow10_le(idx as nat, 26);
            assert(pow10(26) <= pow10(27)) by {
                lemma_pow10_le(26, 27);
            }
            assert(full.take(idx + 1).drop_last() =~= full.take(idx as int));
            assert(full.take(idx + 1).last() == full[idx as int]);
            assert(full[idx as int] == tok@[idx as int]);
            assert(is_digit(full[idx as int]));
        }
        acc = acc * 10 + ((c as u32) - 48) as u128;
        idx = idx + 1;
    }
    if di < n {
        let mut m: usize = 0;
        while m < flen
            invariant
                m <= flen,
                di < n,
                flen == n - di - 1,
                di + flen <= 27,
                n == tok@.len(),
                full.len() == di + flen,
                all_digits(full),
                forall|j: int| di <= j < di + flen ==> #[trigger] full[j] == tok@[j + 1],
                acc == digits_val(full.take(di + m)),
                pow10(27) == 1_000_000_000_000_000_000_000_000_000int,
            decreases flen - m,
        {
            let c = tok.get_char(di + 1 + m);
            proof {
                assert(full.take(di + m).len() == di + m);
                lemma_digits_val_bound(full.take(di + m));
                lemma_pow10_le((di + m) as nat, 26);
                assert(pow10(26) <= pow10(27)) by {
                    lemma_pow10_le(26, 27);
                }
                assert(full.take(di + m + 1).drop_last() =~= full.take(di + m));
                assert(full.take(di + m + 1).last() == full[di + m]);
                assert(full[di + m] == tok@[di + 1 + m]);
                assert(is_digit(full[di + m]));
            }
            acc = acc * 10 + ((c as u32) - 48) as u128;
            m = m + 1;
        }
    }
    proof {
        assert(full.take(di + flen) =~= full);
        lemma_digits_val_bound(full);
    }
    let mut pw: u128 = 1;
    let mut t: usize = 0;
    while t < flen
        invariant
            t <= flen,
            flen <= 17,
            pw == pow10(t as nat),
        decreases flen - t,
    {
        proof {
            lemma_pow10_le(t as nat, 17);
            assert(pow10(17) == 100_000_000_000_000_000int) by {
                reveal_with_fuel(pow10, 18);
            }
            lemma_pow10_pos(t as nat);
        }
        pw = pw * 10;
        t = t + 1;
    }
    proof {
        lemma_pow10_pos(flen as nat);
        lemma_pow10_le(flen as nat, 17);
        assert(pow10(17) == 100_000_000_000_000_000int) by {
            reveal_with_fuel(pow10, 18);
        }
        assert(frac_part(tok@).len() == flen);
    }
    let wide: u128 = acc * (UNITS_PER_COIN as u128) + pw / 2;
    let q: u128 = wide / pw;
    proof {
        assert(q == token_units(tok@));
        assert(q >= 0);
    }
    if q > MAX_AMOUNT_UNITS as u128 {
        None
    } else {
        Some(q as u64)
    }
}

/// Decimal digit text denotes its number: the digits of `n` are digits,
/// there is at least one, the first is zero only for the lone zero, and
/// they evaluate back to `n`.
pub proof fn lemma_dec_chars_value(n: nat)
    ensures
        all_digits(dec_chars(n)),
        1 <= dec_chars(n).len(),
        digits_val(dec_chars(n)) == n,
        n < 10 ==> dec_chars(n).len() == 1,
        n >= 10 ==> dec_chars(n)[0] != '0',
        n >= 1 ==> dec_chars(n)[0] != '0',
    decreases n,
{
    if n < 10 {
        let s = dec_chars(n);
        assert(s.drop_last() =~= Seq::<char>::empty());
        assert(s.last() == digit_char(n as int));
        assert(digit_val(digit_char(n as int)) == n);
        assert(digits_val(s) == digits_val(Seq::<char>::empty()) * 10 + digit_val(
            digit_char(n as int),
        ));
    } else {
        lemma_dec_chars_value(n / 10);
        let a = dec_chars(n / 10);
        let s = dec_chars(n);
        assert(s == a + seq![digit_char((n % 10) as int)]);
        assert(s.drop_last() =~= a);
        assert(s.last() == digit_char((n % 10) as int));
        assert(digit_val(digit_char((n % 10) as int)) == n % 10);
        assert(digits_val(s) == digits_val(a) * 10 + n % 10);
        vstd::arithmetic::div_mod::lemma_fundamental_div_mod(n as int, 10);
        assert(s[0] == a[0]);
        assert(n / 10 >= 1);
    }
}

/// A number below ten to the `k` takes at most `k` digits.
pub proof fn lemma_dec_chars_len(n: nat, k: nat)
    requires
        1 <= k,
        n < pow10(k),
    ensures
        dec_chars(n).len() <= k,
    decreases n,
{
    if n >= 10 {
        assert(pow10(k) == 10 * pow10((k - 1) as nat));
        lemma_pow10_pos((k - 1) as nat);
        if k == 1 {
            assert(pow10(1) == 10) by {
                reveal_with_fuel(pow10, 2);
            }
            assert(false);
        }
        vstd::arithmetic::div_mod::lemma_fundamental_div_mod(n as int, 10);
        vstd::arithmetic::div_mod::lemma_mod_bound(n as int, 10);
        assert(n / 10 < pow10((k - 1) as nat));
        lemma_dec_chars_len(n / 10, (k - 1) as nat);
    }
}

/// Zero-padded digit text denotes its number.
pub proof fn lemma_fixed_chars_value(n: nat, w: nat)
    ensures
        all_digits(fixed_chars(n, w)),
        fixed_chars(n, w).len() == w,
        n < pow10(w) ==> digits_val(fixed_chars(n, w)) == n,
    decreases w,
{
    if w > 0 {
        lemma_fixed_chars_value(n / 10, (w - 1) as nat);
        let a = fixed_chars(n / 10, (w - 1) as nat);
        let s = fixed_chars(n, w);
        assert(s == a + seq![digit_char((n % 10) as int)]);
        assert(s.drop_last() =~= a);
        assert(digit_val(digit_char((n % 10) as int)) == n % 10);
        if n < pow10(w) {
            assert(pow10(w) == 10 * pow10((w - 1) as nat));
            vstd::arithmetic::div_mod::lemma_fundamental_div_mod(n as int, 10);
            vstd::arithmetic::div_mod::lemma_mod_bound(n as int, 10);
            assert(n / 10 < pow10((w - 1) as nat));
            assert(digits_val(s) == digits_val(a) * 10 + n % 10);
        }
    }
}

/// Evaluating concatenated digit strings: the left part is scaled by ten
/// to the length of the right part.
pub proof fn lemma_digits_val_concat(a: Seq<char>, b: Seq<char>)
    ensures
        digits_val(a + b) == digits_val(a) * pow10(b.len()) + digits_val(b),
    decreases b.len(),
{
    if b.len() == 0 {
        assert(a + b =~= a);
        assert(pow10(0) == 1);
        assert(digits_val(a) * 1 == digits_val(a));
    } else {
        lemma_digits_val_concat(a, b.drop_last());
        let s = a + b;
        assert(s.drop_last() =~= a + b.drop_last());
        assert(s.last() == b.last());
        assert(digits_val(s) == digits_val(a + b.drop_last()) * 10 + digit_val(b.last()));
        assert(pow10(b.len()) == 10 * pow10((b.len() - 1) as nat));
        let p = pow10((b.len() - 1) as nat);
        assert((digits_val(a) * p + digits_val(b.drop_last())) * 10 == digits_val(a) * (10 * p)
            + digits_val(b.drop_last()) * 10) by (nonlinear_arith);
    }
}

/// A string of digits holds no point, so it is all integer part.
pub proof fn lemma_digits_have_no_point(s: Seq<char>)
    requires
        all_digits(s),
    ensures
        char_index(s, '.') == s.len(),
{
    assert forall|j: int| 0 <= j < s.len() implies s[j] != '.' by {
        assert(is_digit(s[j]));
        assert(s[j] as u32 >= '0' as u32);
        assert(('.' as u32) < ('0' as u32));
    }
    lemma_char_index_is_first(s, '.', s.len() as int);
}

/// The canonical decimal text of a representable amount is a number token
/// again, and it denotes exactly the amount it was rendered from: the
/// renderer and the token grammar agree.
pub proof fn lemma_amount_text_round_trip(u: u64)
    requires
        u <= MAX_AMOUNT_UNITS,
    ensures
        is_number_token(amount_chars(u as int)),
        token_units(amount_chars(u as int)) == u,
{
    let c = UNITS_PER_COIN as int;
    let whole = (u as int / c) as nat;
    let frac = (u as int % c) as nat;
    vstd::arithmetic::div_mod::lemma_fundamental_div_mod(u as int, c);
    vstd::arithmetic::div_mod::lemma_mod_bound(u as int, c);
    vstd::arithmetic::div_mod::lemma_div_pos_is_pos(u as int, c);
    assert(whole <= 21_000_000) by {
        vstd::arithmetic::div_mod::lemma_div_is_ordered(
            u as int,
            MAX_AMOUNT_UNITS as int,
            c,
        );
        vstd::arithmetic::div_mod::lemma_div_multiples_vanish(21_000_000, c);
        assert(MAX_AMOUNT_UNITS as int == c * 21_000_000);
    }
    assert(pow10(8) == 100_000_000int) by {
        reveal_with_fuel(pow10, 9);
    }
    lemma_dec_chars_value(whole);
    lemma_dec_chars_len(whole, 8);
    let a = dec_chars(whole);
    let s = amount_chars(u as int);
    if frac == 0 {
        assert(s == a);
        lemma_digits_have_no_point(s);
        assert(int_part(s) =~= s);
        assert(!has_frac(s));
        assert(is_number_token(s));
        assert(int_part(s) + frac_part(s) =~= s);
        assert(digits_val(s) == whole);
        assert(pow10(0) == 1);
        assert(token_units(s) == (whole * c + 1int / 2) / 1);
        assert(1int / 2 == 0int) by {
            vstd::arithmetic::div_mod::lemma_basic_div(1, 2);
        }
        vstd::arithmetic::div_mod::lemma_div_multiples_vanish(whole * c, 1);
        assert(whole as int * c == c * whole);
        assert(token_units(s) == u);
    } else {
        lemma_fixed_chars_value(frac, 8);
        let b = fixed_chars(frac, 8);
        assert(s == a + seq!['.'] + b);
        assert(s.len() == a.len() + 1 + 8);
        assert forall|j: int| 0 <= j < a.len() implies s[j] != '.' by {
            assert(s[j] == a[j]);
            assert(is_digit(a[j]));
            assert(a[j] as u32 >= '0' as u32);
        }
        assert(s[a.len() as int] == '.');
        lemma_char_index_is_first(s, '.', a.len() as int);
        assert(int_part(s) =~= a);
        assert(has_frac(s));
        assert(frac_part(s) =~= b);
        assert(is_number_token(s));
        assert(int_part(s) + frac_part(s) == a + b);
        lemma_digits_val_concat(a, b);
        assert(digits_val(a + b) == whole * pow10(8) + frac);
        assert(token_units(s) == round_half_up((whole * pow10(8) + frac) * c, pow10(8)));
        assert(whole * pow10(8) + frac == u as int) by {
            assert(whole as int * pow10(8) == c * whole) by (nonlinear_arith)
                requires pow10(8) == c;
        }
        assert(pow10(8) / 2 == 50_000_000int);
        vstd::arithmetic::div_mod::lemma_div_multiples_vanish_fancy(u as int, 50_000_000, c);
        assert((u as int) * c + 50_000_000 == c * (u as int) + 50_000_000) by (nonlinear_arith);
        assert(token_units(s) == u);
    }
}


/// Whether a character is a hexadecimal digit, either case.
pub open spec fn is_hex_digit(c: char) -> bool {
    is_digit(c) || ('a' as u32 <= c as u32 && c as u32 <= 'f' as u32) || ('A' as u32 <= c as u32
        && c as u32 <= 'F' as u32)
}

/// The value of a hexadecimal digit, either case.
pub open spec fn hex_digit_val(c: char) -> int {
    if is_digit(c) {
        digit_val(c)
    } else if 'a' as u32 <= c as u32 && c as u32 <= 'f' as u32 {
        c as u32 - 'a' as u32 + 10
    } else {
        c as u32 - 'A' as u32 + 10
    }
}

/// The control character with a given code below thirty-two.
pub open spec fn control_char(v: int) -> char {
    if v == 0 { '\u{0}' }
    else if v == 1 { '\u{1}' }
    else if v == 2 { '\u{2}' }
    else if v == 3 { '\u{3}' }
    else if v == 4 { '\u{4}' }
    else if v == 5 { '\u{5}' }
    else if v == 6 { '\u{6}' }
    else if v == 7 { '\u{7}' }
    else if v == 8 { '\u{8}' }
    else if v == 9 { '\u{9}' }
    else if v == 10 { '\u{a}' }
    else if v == 11 { '\u{b}' }
    else if v == 12 { '\u{c}' }
    else if v == 13 { '\u{d}' }
    else if v == 14 { '\u{e}' }
    else if v == 15 { '\u{f}' }
    else if v == 16 { '\u{10}' }
    else if v == 17 { '\u{11}' }
    else if v == 18 { '\u{12}' }
    else if v == 19 { '\u{13}' }
    else if v == 20 { '\u{14}' }
    else if v == 21 { '\u{15}' }
    else if v == 22 { '\u{16}' }
    else if v == 23 { '\u{17}' }
    else if v == 24 { '\u{18}' }
    else if v == 25 { '\u{19}' }
    else if v == 26 { '\u{1a}' }
    else if v == 27 { '\u{1b}' }
    else if v == 28 { '\u{1c}' }
    else if v == 29 { '\u{1d}' }
    else if v == 30 { '\u{1e}' }
    else { '\u{1f}' }
}

/// What a short escape code stands for, if it is one: the eight
/// single-character escapes of JSON string literals.
pub open spec fn short_escape(c: char) -> Option<char> {
    if c == '"' {
        Some('"')
    } else if c == '\\' {
        Some('\\')
    } else if c == '/' {
        Some('/')
    } else if c == 'b' {
        Some('\u{8}')
    } else if c == 'f' {
        Some('\u{c}')
    } else if c == 'n' {
        Some('\n')
    } else if c == 'r' {
        Some('\r')
    } else if c == 't' {
        Some('\t')
    } else {
        None
    }
}

/// Reads the inside of a JSON string literal: raw characters stand as
/// themselves, the short escapes and the two-hex-digit universal escape
/// (the forms the escaper emits) are decoded, and a stray quote,
/// backslash or raw control character makes the text invalid. Universal
/// escapes of larger code points are not read; such a token stays a
/// literal string.
pub open spec fn unquoted(s: Seq<char>) -> Option<Seq<char>>
    decreases s.len(),
{
    if s.len() == 0 {
        Some(Seq::empty())
    } else if s[0] == '\\' {
        if s.len() < 2 {
            None
        } else {
            match short_escape(s[1]) {
                Some(e) => match unquoted(s.skip(2)) {
                    Some(r) => Some(seq![e] + r),
                    None => None,
                },
                None => if s.len() >= 6 && s[1] == 'u' && s[2] == '0' && s[3] == '0' && (s[4] == '0'
                    || s[4] == '1') && is_hex_digit(s[5]) {
                    match unquoted(s.skip(6)) {
                        Some(r) => Some(
                            seq![control_char(16 * hex_digit_val(s[4]) + hex_digit_val(s[5]))] + r,
                        ),
                        None => None,
                    }
                } else {
                    None
                },
            }
        }
    } else if s[0] == '"' || (s[0] as u32) < 32 {
        None
    } else {
        match unquoted(s.drop_first()) {
            Some(r) => Some(seq![s[0]] + r),
            None => None,
        }
    }
}

/// The text a complete quoted token denotes: a quote on either end and a
/// valid inside.
pub open spec fn quoted_value(s: Seq<char>) -> Option<Seq<char>> {
    if s.len() >= 2 && s[0] == '"' && s[s.len() - 1] == '"' {
        unquoted(s.subrange(1, s.len() - 1))
    } else {
        None
    }
}

/// The one-character string for a control character code.
pub fn control_char_str(v: u64) -> (r: &'static str)
    requires
        v < 32,
    ensures
        r@ == seq![control_char(v as int)],
{
    proof {
        reveal_strlit("\u{0}");
        reveal_strlit("\u{1}");
        reveal_strlit("\u{2}");
        reveal_strlit("\u{3}");
        reveal_strlit("\u{4}");
        reveal_strlit("\u{5}");
        reveal_strlit("\u{6}");
        reveal_strlit("\u{7}");
        reveal_strlit("\u{8}");
        reveal_strlit("\u{9}");
        reveal_strlit("\u{a}");
        reveal_strlit("\u{b}");
        reveal_strlit("\u{c}");
        reveal_strlit("\u{d}");
        reveal_strlit("\u{e}");
        reveal_strlit("\u{f}");
        reveal_strlit("\u{10}");
        reveal_strlit("\u{11}");
        reveal_strlit("\u{12}");
        reveal_strlit("\u{13}");
        reveal_strlit("\u{14}");
        reveal_strlit("\u{15}");
        reveal_strlit("\u{16}");
        reveal_strlit("\u{17}");
        reveal_strlit("\u{18}");
        reveal_strlit("\u{19}");
        reveal_strlit("\u{1a}");
        reveal_strlit("\u{1b}");
        reveal_strlit("\u{1c}");
        reveal_strlit("\u{1d}");
        reveal_strlit("\u{1e}");
        reveal_strlit("\u{1f}");
    }
    let r = match v {
        0 => "\u{0}",
        1 => "\u{1}",
        2 => "\u{2}",
        3 => "\u{3}",
        4 => "\u{4}",
        5 => "\u{5}",
        6 => "\u{6}",
        7 => "\u{7}",
        8 => "\u{8}",
        9 => "\u{9}",
        10 => "\u{a}",
        11 => "\u{b}",
        12 => "\u{c}",
        13 => "\u{d}",
        14 => "\u{e}",
        15 => "\u{f}",
        16 => "\u{10}",
        17 => "\u{11}",
        18 => "\u{12}",
        19 => "\u{13}",
        20 => "\u{14}",
        21 => "\u{15}",
        22 => "\u{16}",
        23 => "\u{17}",
        24 => "\u{18}",
        25 => "\u{19}",
        26 => "\u{1a}",
        27 => "\u{1b}",
        28 => "\u{1c}",
        29 => "\u{1d}",
        30 => "\u{1e}",
        _ => "\u{1f}",
    };
    proof {
        assert(r@ =~= seq![control_char(v as int)]);
    }
    r
}

/// The replacement string for a short escape code, if it is one.
pub fn short_escape_str(c: char) -> (r: Option<&'static str>)
    ensures
        (match r {
            Option::Some(t) => t@.len() == 1 && short_escape(c) == Option::Some(t@[0]),
            Option::None => short_escape(c) is None,
        }),
{
    proof {
        reveal_strlit("\"");
        reveal_strlit("\\");
        reveal_strlit("/");
        reveal_strlit("\u{8}");
        reveal_strlit("\u{c}");
        reveal_strlit("\n");
        reveal_strlit("\r");
        reveal_strlit("\t");
    }
    match c {
        '"' => Some("\""),
        '\\' => Some("\\"),
        '/' => Some("/"),
        'b' => Some("\u{8}"),
        'f' => Some("\u{c}"),
        'n' => Some("\n"),
        'r' => Some("\r"),
        't' => Some("\t"),
        _ => None,
    }
}

/// The value of a hexadecimal digit character, either case.
pub fn hex_val(c: char) -> (v: u64)
    requires
        is_hex_digit(c),
    ensures
        v == hex_digit_val(c),
        v < 16,
{
    let u = c as u32;
    if u >= 'a' as u32 && u <= 'f' as u32 {
        (u - 'a' as u32 + 10) as u64
    } else if u >= 'A' as u32 && u <= 'F' as u32 {
        (u - 'A' as u32 + 10) as u64
    } else {
        (u - '0' as u32) as u64
    }
}

/// Decodes the inside of a JSON string literal, or nothing where the text
/// is not a valid literal body.
pub fn unquote(s: &str) -> (r: Option<String>)
    ensures
        r is Some <==> unquoted(s@) is Some,
        (match r {
            Option::Some(t) => unquoted(s@) == Option::Some(t@),
            Option::None => true,
        }),
    decreases s@.len(),
{
    let n = s.unicode_len();
    if n == 0 {
        let out = String::new();
        proof {
            assert(unquoted(s@) == Option::Some(Seq::<char>::empty()));
        }
        return Some(out);
    }
    let c0 = s.get_char(0);
    if c0 == '\\' {
        if n < 2 {
            return None;
        }
        let c1 = s.get_char(1);
        match short_escape_str(c1) {
            Option::Some(lit) => {
                let rest = s.substring_char(2, n);
                proof {
                    assert(rest@ =~= s@.skip(2));
                }
                match unquote(rest) {
                    Option::Some(tail) => {
                        let mut out = lit.to_owned();
                        out.append(tail.as_str());
                        proof {
                            assert(seq![lit@[0]] =~= lit@);
                            assert(unquoted(s@) == Option::Some(out@));
                        }
                        Some(out)
                    },
                    Option::None => None,
                }
            },
            Option::None => {
                if n >= 6 && c1 == 'u' {
                    let c2 = s.get_char(2);
                    let c3 = s.get_char(3);
                    let c4 = s.get_char(4);
                    let c5 = s.get_char(5);
                    let hex5 = {
                        let u = c5 as u32;
                        (u >= '0' as u32 && u <= '9' as u32) || (u >= 'a' as u32 && u <= 'f' as u32)
                            || (u >= 'A' as u32 && u <= 'F' as u32)
                    };
                    if c2 == '0' && c3 == '0' && (c4 == '0' || c4 == '1') && hex5 {
                        let v = 16 * hex_val(c4) + hex_val(c5);
                        let lit = control_char_str(v);
                        let rest = s.substring_char(6, n);
                        proof {
                            assert(rest@ =~= s@.skip(6));
                        }
                        match unquote(rest) {
                            Option::Some(tail) => {
                                let mut out = lit.to_owned();
                                out.append(tail.as_str());
                                proof {
                                    assert(unquoted(s@) == Option::Some(out@));
                                }
                                Some(out)
                            },
                            Option::None => None,
                        }
                    } else {
                        None
                    }
                } else {
                    None
                }
            },
        }
    } else if c0 == '"' || (c0 as u32) < 32 {
        None
    } else {
        let rest = s.substring_char(1, n);
        proof {
            assert(rest@ =~= s@.drop_first());
        }
        match unquote(rest) {
            Option::Some(tail) => {
                let piece = s.substring_char(0, 1);
                let mut out = piece.to_owned();
                out.append(tail.as_str());
                proof {
                    assert(piece@ =~= seq![s@[0]]);
                    assert(unquoted(s@) == Option::Some(out@));
                }
                Some(out)
            },
            Option::None => None,
        }
    }
}

} // verus!
