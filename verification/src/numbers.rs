//! Numbers written as text, and lengths counted in UTF-8 bytes.

use vstd::prelude::*;

use crate::text;
use crate::views;

verus! {

// ── Writing numbers ──────────────────────────────────────────────────────

/// The character of a digit below ten.
pub open spec fn digit_char(d: nat) -> char {
    (48 + d) as char
}

/// A number in the given radix (at most ten), most significant digit first, without
/// leading zeros.
pub open spec fn numeral(n: nat, radix: nat) -> Seq<char>
    decreases n,
{
    if radix < 2 || n < radix {
        seq![digit_char(n)]
    } else {
        proof {
            vstd::arithmetic::div_mod::lemma_div_decreases(n as int, radix as int);
        }
        numeral(n / radix, radix).push(digit_char(n % radix))
    }
}

/// A number in decimal.
pub open spec fn dec(n: nat) -> Seq<char> {
    numeral(n, 10)
}

/// A number in octal.
pub open spec fn oct(n: nat) -> Seq<char> {
    numeral(n, 8)
}

fn numeral_of(n: u128, radix: u128) -> (r: String)
    requires
        2 <= radix <= 10,
    ensures
        r@ == numeral(n as nat, radix as nat),
    decreases n,
{
    if n < radix {
        let mut s: String = String::new();
        let d: u8 = n as u8;
        s.push((48 + d) as char);
        proof {
            assert(s@ =~= seq![digit_char(n as nat)]);
        }
        s
    } else {
        proof {
            vstd::arithmetic::div_mod::lemma_div_decreases(n as int, radix as int);
        }
        let mut s = numeral_of(n / radix, radix);
        let d: u8 = (n % radix) as u8;
        s.push((48 + d) as char);
        s
    }
}

/// A number in decimal.
pub fn decimal(n: u64) -> (r: String)
    ensures
        r@ == dec(n as nat),
{
    numeral_of(n as u128, 10)
}

/// A number in decimal.
pub fn decimal_wide(n: u128) -> (r: String)
    ensures
        r@ == dec(n as nat),
{
    numeral_of(n, 10)
}

/// A number in decimal.
pub fn decimal_usize(n: usize) -> (r: String)
    ensures
        r@ == dec(n as nat),
{
    numeral_of(n as u128, 10)
}

/// A number in octal.
pub fn octal(n: u32) -> (r: String)
    ensures
        r@ == oct(n as nat),
{
    numeral_of(n as u128, 8)
}

/// The upper-case hexadecimal digit of a value below sixteen.
pub open spec fn hex_char(d: int) -> char {
    if d < 10 {
        (48 + d) as char
    } else {
        (55 + d) as char
    }
}

fn hex_char_of(d: u32) -> (r: char)
    requires
        d < 16,
    ensures
        r == hex_char(d as int),
{
    let b: u8 = d as u8;
    if b < 10 {
        (48 + b) as char
    } else {
        (55 + b) as char
    }
}

/// The low sixteen bits of a number as four upper-case hexadecimal digits.
pub open spec fn hex4(n: int) -> Seq<char> {
    seq![
        hex_char((n / 4096) % 16),
        hex_char((n / 256) % 16),
        hex_char((n / 16) % 16),
        hex_char(n % 16),
    ]
}

/// The low sixteen bits of a number as four upper-case hexadecimal digits.
pub fn hex4_of(n: u32) -> (r: String)
    ensures
        r@ == hex4(n as int),
{
    let mut s: String = String::new();
    s.push(hex_char_of((n / 4096) % 16));
    s.push(hex_char_of((n / 256) % 16));
    s.push(hex_char_of((n / 16) % 16));
    s.push(hex_char_of(n % 16));
    proof {
        assert(s@ =~= hex4(n as int));
    }
    s
}

// ── Reading numbers ──────────────────────────────────────────────────────

/// A digit of the radix (at most ten).
pub open spec fn is_radix_digit(c: char, radix: int) -> bool {
    48 <= (c as u32) && (c as u32) < 48 + radix
}

/// The value of a row of digits.
pub open spec fn digits_value(s: Seq<char>, radix: int) -> int
    decreases s.len(),
{
    if s.len() == 0 {
        0
    } else {
        digits_value(s.drop_last(), radix) * radix + (s.last() as u32 - 48)
    }
}

/// The digits of a number as it may be written: an optional plus sign in front.
pub open spec fn unsigned_part(s: Seq<char>) -> Seq<char> {
    if s.len() > 0 && s[0] == '+' {
        s.skip(1)
    } else {
        s
    }
}

/// Whether a text is an unsigned number of the radix: an optional plus sign, then
/// one digit or more.
pub open spec fn is_unsigned(s: Seq<char>, radix: int) -> bool {
    let d = unsigned_part(s);
    d.len() > 0 && forall|i: int| 0 <= i < d.len() ==> is_radix_digit(#[trigger] d[i], radix)
}

/// The number that a text spells, when it spells one of at most `max`.
pub open spec fn parse_unsigned(s: Seq<char>, radix: int, max: int) -> Option<int> {
    if is_unsigned(s, radix) && digits_value(unsigned_part(s), radix) <= max {
        Some(digits_value(unsigned_part(s), radix))
    } else {
        None
    }
}

/// Read an unsigned number of at most `max`.
pub fn read_unsigned(s: &str, radix: u64, max: u64) -> (r: Option<u64>)
    requires
        2 <= radix <= 10,
    ensures
        r is Some == parse_unsigned(s@, radix as int, max as int) is Some,
        r is Some ==> r->0 == parse_unsigned(s@, radix as int, max as int)->0,
        r is Some ==> r->0 <= max,
{
    let v = text::chars_of(s);
    let start: usize = if v.len() > 0 && v[0] == '+' { 1 } else { 0 };
    let ghost d = unsigned_part(s@);
    proof {
        if start == 0 {
            assert(v@.skip(0) =~= v@);
        }
        assert(d == v@.skip(start as int));
        assert(d.take(0) =~= Seq::empty());
    }
    if start == v.len() {
        return None;
    }
    let mut total: u64 = 0;
    let mut over = false;
    let mut i: usize = start;
    while i < v.len()
        invariant
            start <= i <= v.len(),
            start < v.len(),
            2 <= radix <= 10,
            v@ == s@,
            d == unsigned_part(s@),
            d == v@.skip(start as int),
            forall|j: int| 0 <= j < i - start ==> is_radix_digit(#[trigger] d[j], radix as int),
            !over ==> total == digits_value(d.take(i - start), radix as int),
            !over ==> total <= max,
            over ==> digits_value(d.take(i - start), radix as int) > max,
        decreases v.len() - i,
    {
        let c: u32 = v[i] as u32;
        proof {
            assert(d[i - start] == v@[i as int]);
            views::lemma_take_step(d, i - start);
        }
        if c < 48 || (c - 48) as u64 >= radix {
            proof {
                assert(!is_radix_digit(d[i - start], radix as int));
            }
            return None;
        }
        let x: u64 = (c - 48) as u64;
        let ghost before = digits_value(d.take(i - start), radix as int);
        proof {
            assert(before > max ==> before * radix + x > max) by (nonlinear_arith)
                requires
                    radix >= 2,
                    x >= 0,
                    max >= 0,
            ;
        }
        if !over {
            match total.checked_mul(radix) {
                Some(m) => match m.checked_add(x) {
                    Some(t) => {
                        total = t;
                        if t > max {
                            over = true;
                        }
                    },
                    None => {
                        over = true;
                    },
                },
                None => {
                    over = true;
                },
            }
        }
        i = i + 1;
    }
    proof {
        views::lemma_take_all(d);
    }
    if over {
        None
    } else {
        Some(total)
    }
}

/// A text begins with digits whose value exceeds `max`.
pub open spec fn overflows(d: Seq<char>, radix: int, max: int) -> bool {
    exists|k: int|
        0 <= k <= d.len() && all_digits(#[trigger] d.take(k), radix) && digits_value(
            d.take(k),
            radix,
        ) > max
}

/// A text is made of digits only.
pub open spec fn all_digits(d: Seq<char>, radix: int) -> bool {
    forall|i: int| 0 <= i < d.len() ==> is_radix_digit(#[trigger] d[i], radix)
}

/// Why a text does not spell a number of at most `max`: it is empty, its digits run over
/// the bound, or there is something else in it than digits, whichever comes first.
pub open spec fn number_fault(s: Seq<char>, radix: int, max: int) -> Seq<char> {
    if s.len() == 0 {
        "cannot parse integer from empty string"@
    } else if overflows(unsigned_part(s), radix, max) {
        "number too large to fit in target type"@
    } else {
        "invalid digit found in string"@
    }
}

/// See [`number_fault`].
pub fn fault_of(s: &str, radix: u64, max: u64) -> (r: String)
    requires
        2 <= radix <= 10,
    ensures
        r@ == number_fault(s@, radix as int, max as int),
{
    let v = text::chars_of(s);
    if v.len() == 0 {
        return text::owned("cannot parse integer from empty string");
    }
    let start: usize = if v[0] == '+' {
        1
    } else {
        0
    };
    let ghost d = unsigned_part(s@);
    proof {
        if start == 0 {
            assert(v@.skip(0) =~= v@);
        }
        assert(d.take(0) =~= Seq::empty());
    }
    let mut total: u64 = 0;
    let mut i: usize = start;
    while i < v.len()
        invariant
            start <= i <= v.len(),
            0 < v.len(),
            2 <= radix <= 10,
            v@ == s@,
            d == unsigned_part(s@),
            d == v@.skip(start as int),
            all_digits(d.take(i - start), radix as int),
            total == digits_value(d.take(i - start), radix as int),
            forall|k: int|
                0 <= k <= i - start ==> digits_value(#[trigger] d.take(k), radix as int) <= max,
        decreases v.len() - i,
    {
        let c: u32 = v[i] as u32;
        let ghost k = i - start;
        proof {
            assert(d[k] == v@[i as int]);
            views::lemma_take_step(d, k);
        }
        if c < 48 || (c - 48) as u64 >= radix {
            proof {
                assert forall|j: int|
                    0 <= j <= d.len() && all_digits(#[trigger] d.take(j), radix as int) implies
                    digits_value(d.take(j), radix as int) <= max by {
                    if j > k {
                        assert(d.take(j)[k] == d[k]);
                        assert(!is_radix_digit(d.take(j)[k], radix as int));
                    }
                }
            }
            return text::owned("invalid digit found in string");
        }
        let x: u64 = (c - 48) as u64;
        proof {
            assert forall|j: int| 0 <= j < k + 1 implies is_radix_digit(
                #[trigger] d.take(k + 1)[j],
                radix as int,
            ) by {
                if j < k {
                    assert(d.take(k + 1)[j] == d.take(k)[j]);
                }
            }
        }
        let next: Option<u64> = match total.checked_mul(radix) {
            Some(m) => m.checked_add(x),
            None => None,
        };
        match next {
            Some(t) if t <= max => {
                total = t;
            },
            _ => {
                assert(all_digits(d.take(k + 1), radix as int));
                assert(digits_value(d.take(k + 1), radix as int) > max);
                return text::owned("number too large to fit in target type");
            },
        }
        i = i + 1;
    }
    proof {
        assert forall|j: int| 0 <= j <= d.len() implies digits_value(
            #[trigger] d.take(j),
            radix as int,
        ) <= max by {}
    }
    text::owned("invalid digit found in string")
}

/// Read a decimal number that fits 32 bits.
pub fn read_u32(s: &str) -> (r: Option<u32>)
    ensures
        r is Some == parse_unsigned(s@, 10, u32::MAX as int) is Some,
        r is Some ==> r->0 == parse_unsigned(s@, 10, u32::MAX as int)->0,
{
    match read_unsigned(s, 10, u32::MAX as u64) {
        Some(n) => Some(n as u32),
        None => None,
    }
}

// ── Lengths in UTF-8 bytes ───────────────────────────────────────────────

/// The number of bytes that UTF-8 gives a character.
pub open spec fn utf8_width(c: char) -> nat {
    if (c as u32) < 0x80 {
        1
    } else if (c as u32) < 0x800 {
        2
    } else if (c as u32) < 0x10000 {
        3
    } else {
        4
    }
}

fn utf8_width_of(c: char) -> (r: usize)
    ensures
        r == utf8_width(c),
{
    let n: u32 = c as u32;
    if n < 0x80 {
        1
    } else if n < 0x800 {
        2
    } else if n < 0x10000 {
        3
    } else {
        4
    }
}

/// The number of bytes that UTF-8 gives a text.
pub open spec fn utf8_len(s: Seq<char>) -> nat
    decreases s.len(),
{
    if s.len() == 0 {
        0
    } else {
        utf8_len(s.drop_last()) + utf8_width(s.last())
    }
}

/// The longest beginning of a text that has at most `limit` UTF-8 bytes.
pub open spec fn clip(s: Seq<char>, limit: nat) -> Seq<char>
    decreases s.len(),
{
    if utf8_len(s) <= limit || s.len() == 0 {
        s
    } else {
        clip(s.drop_last(), limit)
    }
}

proof fn lemma_utf8_len_grows(s: Seq<char>, i: int)
    requires
        0 <= i <= s.len(),
    ensures
        utf8_len(s.take(i)) <= utf8_len(s),
    decreases s.len(),
{
    if i == s.len() {
        views::lemma_take_all(s);
    } else {
        lemma_utf8_len_grows(s.drop_last(), i);
        assert(s.drop_last().take(i) =~= s.take(i));
    }
}

proof fn lemma_clip_at(s: Seq<char>, limit: nat, i: int)
    requires
        0 <= i <= s.len(),
        utf8_len(s.take(i)) <= limit,
        i < s.len() ==> utf8_len(s.take(i + 1)) > limit,
    ensures
        clip(s, limit) == s.take(i),
    decreases s.len(),
{
    if i == s.len() {
        views::lemma_take_all(s);
    } else {
        lemma_utf8_len_grows(s, i + 1);
        assert(s.drop_last().take(i) =~= s.take(i));
        if i + 1 < s.len() {
            assert(s.drop_last().take(i + 1) =~= s.take(i + 1));
        }
        lemma_clip_at(s.drop_last(), limit, i);
    }
}

/// The longest beginning of a string that has at most `limit` UTF-8 bytes, and
/// whether that leaves something out.
pub fn clipped(s: &str, limit: usize) -> (r: (String, bool))
    ensures
        r.0@ == clip(s@, limit as nat),
        r.1 == (utf8_len(s@) > limit),
{
    let v = text::chars_of(s);
    let mut i: usize = 0;
    let mut total: usize = 0;
    proof {
        assert(s@.take(0) =~= Seq::empty());
    }
    while i < v.len() && utf8_width_of(v[i]) <= limit - total
        invariant
            i <= v.len(),
            v@ == s@,
            total <= limit,
            total == utf8_len(s@.take(i as int)),
        decreases v.len() - i,
    {
        proof {
            views::lemma_take_step(s@, i as int);
        }
        total = total + utf8_width_of(v[i]);
        i = i + 1;
    }
    proof {
        if i < v.len() {
            views::lemma_take_step(s@, i as int);
            lemma_utf8_len_grows(s@, i + 1);
        } else {
            views::lemma_take_all(s@);
        }
        lemma_clip_at(s@, limit as nat, i as int);
        assert(v@.subrange(0, i as int) =~= s@.take(i as int));
    }
    (text::string_of(&v, 0, i), i < v.len())
}

// ── Laws ─────────────────────────────────────────────────────────────────

/// A numeral is made of digits, and their value is the number.
pub proof fn lemma_numeral(n: nat, radix: nat)
    requires
        2 <= radix <= 10,
    ensures
        numeral(n, radix).len() > 0,
        forall|i: int|
            0 <= i < numeral(n, radix).len() ==> is_radix_digit(
                #[trigger] numeral(n, radix)[i],
                radix as int,
            ),
        digits_value(numeral(n, radix), radix as int) == n,
    decreases n,
{
    let s = numeral(n, radix);
    if n < radix {
        assert(s.drop_last() =~= Seq::empty());
        assert(digits_value(s.drop_last(), radix as int) == 0);
        assert(0 * radix == 0) by (nonlinear_arith);
    } else {
        vstd::arithmetic::div_mod::lemma_div_decreases(n as int, radix as int);
        lemma_numeral(n / radix, radix);
        let head = numeral(n / radix, radix);
        assert(s.drop_last() =~= head);
        vstd::arithmetic::div_mod::lemma_fundamental_div_mod(n as int, radix as int);
        assert(n / radix * radix == radix * (n / radix)) by (nonlinear_arith);
        vstd::arithmetic::div_mod::lemma_mod_bound(n as int, radix as int);
        assert forall|i: int| 0 <= i < s.len() implies is_radix_digit(
            #[trigger] s[i],
            radix as int,
        ) by {
            if i < head.len() {
                assert(s[i] == head[i]);
            }
        }
    }
}

/// A number that was written is read back.
pub proof fn law_number_read_back(n: nat, radix: nat, max: int)
    requires
        2 <= radix <= 10,
        n <= max,
    ensures
        parse_unsigned(numeral(n, radix), radix as int, max) == Some(n as int),
{
    lemma_numeral(n, radix);
    let s = numeral(n, radix);
    assert(is_radix_digit(s[0], radix as int));
    assert(unsigned_part(s) == s);
}

/// A text that is clipped to a number of bytes is the longest beginning of it that fits; a
/// text that fits is left whole.
pub proof fn law_clip(s: Seq<char>, limit: nat)
    ensures
        clip(s, limit).len() <= s.len(),
        clip(s, limit) == s.take(clip(s, limit).len() as int),
        utf8_len(clip(s, limit)) <= limit,
        utf8_len(s) <= limit ==> clip(s, limit) == s,
        forall|k: int|
            clip(s, limit).len() < k <= s.len() ==> utf8_len(#[trigger] s.take(k)) > limit,
    decreases s.len(),
{
    if utf8_len(s) <= limit || s.len() == 0 {
        assert(s.take(s.len() as int) =~= s);
    } else {
        let t = s.drop_last();
        law_clip(t, limit);
        let c = clip(t, limit);
        assert(t.take(c.len() as int) =~= s.take(c.len() as int));
        assert forall|k: int| c.len() < k <= s.len() implies utf8_len(#[trigger] s.take(k))
            > limit by {
            if k == s.len() {
                assert(s.take(k) =~= s);
            } else {
                assert(s.take(k) =~= t.take(k));
            }
        }
    }
}

} // verus!
