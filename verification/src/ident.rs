//! Time-sortable 128-bit record identifiers.
//!
//! The high-order bits of an identifier encode its creation time, so sorting
//! identifiers numerically sorts records by creation time. Fresh identifiers
//! are minted through the `ulid` crate; the canonical 26-character text
//! encoding (base 32, most significant digit first, over an alphabet whose
//! character codes ascend with the digit value) is implemented and verified
//! here. Because the alphabet ascends and every encoding has the same length,
//! sorting encodings as text sorts the identifiers numerically; this is proved
//! in [`lemma_encoding_preserves_order`].

use vstd::arithmetic::div_mod::{
    lemma_div_denominator, lemma_div_is_ordered, lemma_fundamental_div_mod, lemma_basic_div,
    lemma_multiply_divide_lt, lemma_small_mod, lemma_hoist_over_denominator, lemma_div_basics,
    lemma_mod_multiples_vanish, lemma_mod_division_less_than_divisor,
};
use vstd::prelude::*;

use crate::text::{chars_to_string, str_to_chars};

verus! {

/// A 128-bit record identifier. Equality is bitwise; the numeric order of the
/// raw bits equals creation-time order for minted identifiers.
#[derive(Clone, Copy, PartialEq, Eq, Structural, Debug)]
pub struct RecordId {
    pub bits: u128,
}

/// 32 raised to the power `k`.
pub open spec fn pow32(k: nat) -> nat
    decreases k,
{
    if k == 0 {
        1
    } else {
        32 * pow32((k - 1) as nat)
    }
}

/// The character that encodes the base-32 digit `v`.
pub open spec fn digit_char(v: int) -> char {
    if v == 0 { '0' } else if v == 1 { '1' } else if v == 2 { '2' } else if v == 3 { '3' }
    else if v == 4 { '4' } else if v == 5 { '5' } else if v == 6 { '6' } else if v == 7 { '7' }
    else if v == 8 { '8' } else if v == 9 { '9' } else if v == 10 { 'A' } else if v == 11 { 'B' }
    else if v == 12 { 'C' } else if v == 13 { 'D' } else if v == 14 { 'E' } else if v == 15 { 'F' }
    else if v == 16 { 'G' } else if v == 17 { 'H' } else if v == 18 { 'J' } else if v == 19 { 'K' }
    else if v == 20 { 'M' } else if v == 21 { 'N' } else if v == 22 { 'P' } else if v == 23 { 'Q' }
    else if v == 24 { 'R' } else if v == 25 { 'S' } else if v == 26 { 'T' } else if v == 27 { 'V' }
    else if v == 28 { 'W' } else if v == 29 { 'X' } else if v == 30 { 'Y' } else { 'Z' }
}

/// The digit value of a character of the encoding alphabet; letters are read
/// in either case, and 32 marks a character outside the alphabet.
pub open spec fn char_val(c: char) -> nat {
    if c == '0' { 0 } else if c == '1' { 1 } else if c == '2' { 2 } else if c == '3' { 3 }
    else if c == '4' { 4 } else if c == '5' { 5 } else if c == '6' { 6 } else if c == '7' { 7 }
    else if c == '8' { 8 } else if c == '9' { 9 }
    else if c == 'A' || c == 'a' { 10 } else if c == 'B' || c == 'b' { 11 }
    else if c == 'C' || c == 'c' { 12 } else if c == 'D' || c == 'd' { 13 }
    else if c == 'E' || c == 'e' { 14 } else if c == 'F' || c == 'f' { 15 }
    else if c == 'G' || c == 'g' { 16 } else if c == 'H' || c == 'h' { 17 }
    else if c == 'J' || c == 'j' { 18 } else if c == 'K' || c == 'k' { 19 }
    else if c == 'M' || c == 'm' { 20 } else if c == 'N' || c == 'n' { 21 }
    else if c == 'P' || c == 'p' { 22 } else if c == 'Q' || c == 'q' { 23 }
    else if c == 'R' || c == 'r' { 24 } else if c == 'S' || c == 's' { 25 }
    else if c == 'T' || c == 't' { 26 } else if c == 'V' || c == 'v' { 27 }
    else if c == 'W' || c == 'w' { 28 } else if c == 'X' || c == 'x' { 29 }
    else if c == 'Y' || c == 'y' { 30 } else if c == 'Z' || c == 'z' { 31 }
    else { 32 }
}

/// The `n`-digit base-32 encoding of `x`, most significant digit first.
pub open spec fn digit_seq(x: nat, n: nat) -> Seq<char> {
    Seq::new(n, |k: int| digit_char(((x / pow32((n - 1 - k) as nat)) % 32) as int))
}

/// The canonical text encoding of an identifier.
pub open spec fn spec_encode_id(bits: u128) -> Seq<char> {
    digit_seq(bits as nat, 26)
}

/// Whether `s` is a well-formed identifier encoding: 26 alphabet characters,
/// in either case, whose leading digit leaves the value within 128 bits.
pub open spec fn valid_id_text(s: Seq<char>) -> bool {
    &&& s.len() == 26
    &&& forall|k: int| 0 <= k < 26 ==> char_val(s[k]) < 32
    &&& char_val(s[0]) <= 7
}

/// The value of the first `n` digits of `s`, most significant first.
pub open spec fn digits_val(s: Seq<char>, n: int) -> nat
    decreases n,
{
    if n <= 0 {
        0
    } else {
        digits_val(s, n - 1) * 32 + char_val(s[n - 1])
    }
}

/// What parsing an identifier encoding yields.
pub open spec fn spec_parse_id(s: Seq<char>) -> Option<RecordId> {
    if valid_id_text(s) {
        Some(RecordId { bits: digits_val(s, 26) as u128 })
    } else {
        None
    }
}

/// `pow32` is monotone.
proof fn lemma_pow32_monotone(a: nat, b: nat)
    requires
        a <= b,
    ensures
        pow32(a) <= pow32(b),
    decreases b,
{
    if a < b {
        lemma_pow32_monotone(a, (b - 1) as nat);
        assert(pow32(b) == 32 * pow32((b - 1) as nat));
        assert(pow32((b - 1) as nat) <= 32 * pow32((b - 1) as nat)) by (nonlinear_arith)
            requires
                pow32((b - 1) as nat) >= 0,
        ;
    }
}

/// `pow32` is positive.
proof fn lemma_pow32_pos(k: nat)
    ensures
        pow32(k) >= 1,
    decreases k,
{
    if k > 0 {
        lemma_pow32_pos((k - 1) as nat);
    }
}

/// Numeric value of the 25th and 26th powers of 32.
proof fn lemma_pow32_values()
    ensures
        8 * pow32(25) == 0x1_0000_0000_0000_0000_0000_0000_0000_0000,
        pow32(26) > 0xffff_ffff_ffff_ffff_ffff_ffff_ffff_ffff,
{
    assert(8 * pow32(25) == 0x1_0000_0000_0000_0000_0000_0000_0000_0000 && pow32(26)
        == 0x4_0000_0000_0000_0000_0000_0000_0000_0000) by {
        reveal_with_fuel(pow32, 27);
    }
}

/// Encoding then reading digit values gives the value back: the first `n`
/// digits of the encoding of `bits` carry the value `bits / 32^(26 - n)`.
proof fn lemma_digits_of_encoding(bits: u128, n: int)
    requires
        0 <= n <= 26,
    ensures
        digits_val(spec_encode_id(bits), n) == bits as nat / pow32((26 - n) as nat),
    decreases n,
{
    let s = spec_encode_id(bits);
    if n == 0 {
        lemma_pow32_values();
        lemma_basic_div(bits as int, pow32(26) as int);
    } else {
        lemma_digits_of_encoding(bits, n - 1);
        let p = pow32((26 - n) as nat);
        let q = bits as nat / p;
        lemma_pow32_pos((26 - n) as nat);
        // the digit at position n - 1 encodes (bits / pow32(26 - n)) % 32
        assert(s[n - 1] == digit_char(((bits as nat / pow32((26 - n) as nat)) % 32) as int));
        assert(char_val(digit_char((q % 32) as int)) == q % 32);
        // bits / pow32(27 - n) == (bits / pow32(26 - n)) / 32
        assert(pow32((27 - n) as nat) == pow32((26 - n) as nat) * 32) by {
            assert(pow32((27 - n) as nat) == 32 * pow32((26 - n) as nat));
        }
        lemma_div_denominator(bits as int, p as int, 32);
        assert(bits as nat / pow32((27 - n) as nat) == q / 32);
        lemma_fundamental_div_mod(q as int, 32);
        assert(digits_val(s, n) == digits_val(s, n - 1) * 32 + char_val(s[n - 1]));
        assert(digits_val(s, n) == (q / 32) * 32 + q % 32);
    }
}

/// The encoding of any identifier is well formed and parses back to it.
#[verifier::rlimit(60)]
#[verifier::spinoff_prover]
pub proof fn lemma_id_round_trip(id: RecordId)
    ensures
        valid_id_text(spec_encode_id(id.bits)),
        spec_parse_id(spec_encode_id(id.bits)) == Some(id),
{
    let s = spec_encode_id(id.bits);
    assert forall|k: int| 0 <= k < 26 implies char_val(s[k]) < 32 by {
        let p = pow32((25 - k) as nat);
        lemma_pow32_pos((25 - k) as nat);
        lemma_mod_division_less_than_divisor(id.bits as int / p as int, 32);
        assert(char_val(digit_char(((id.bits as nat / p) % 32) as int)) < 32);
    }
    // the leading digit is at most 7 because bits < 8 * 32^25
    lemma_pow32_values();
    lemma_pow32_pos(25);
    lemma_multiply_divide_lt(id.bits as int, pow32(25) as int, 8);
    assert(id.bits as nat / pow32(25) < 8);
    lemma_small_mod(id.bits as nat / pow32(25), 32);
    assert(char_val(s[0]) <= 7);
    lemma_digits_of_encoding(id.bits, 26);
    assert(digits_val(s, 26) == id.bits as nat / pow32(0));
    assert(pow32(0) == 1);
    lemma_div_basics(id.bits as int);
    assert(digits_val(s, 26) == id.bits as nat);
    assert(spec_parse_id(s) == Some(id));
}

/// A bound on the value carried by well-formed digits: with a leading digit of
/// at most 7, `n` digits stay below `8 * 32^(n-1)`.
proof fn lemma_digits_val_bound(s: Seq<char>, n: int)
    requires
        1 <= n <= s.len(),
        forall|k: int| 0 <= k < n ==> char_val(s[k]) < 32,
        char_val(s[0]) <= 7,
    ensures
        digits_val(s, n) < 8 * pow32((n - 1) as nat),
    decreases n,
{
    if n == 1 {
        assert(digits_val(s, 1) == digits_val(s, 0) * 32 + char_val(s[0]));
    } else {
        lemma_digits_val_bound(s, n - 1);
        let b = 8 * pow32((n - 2) as nat);
        assert(digits_val(s, n - 1) * 32 <= (b - 1) * 32) by (nonlinear_arith)
            requires
                digits_val(s, n - 1) <= b - 1,
        ;
        assert(pow32((n - 1) as nat) == 32 * pow32((n - 2) as nat));
    }
}

impl RecordId {
    /// Mint a fresh identifier whose high bits hold the current time.
    ///
    /// Relies on `ulid::Ulid::generate`: the result depends on the clock and
    /// on a random source, so nothing is promised of its value.
    #[verifier::external_body]
    pub fn mint() -> RecordId {
        RecordId { bits: ulid::Ulid::generate().0 }
    }

    /// Numeric comparison of the raw bits.
    pub fn le(&self, other: &RecordId) -> (r: bool)
        ensures
            r == (self.bits <= other.bits),
    {
        self.bits <= other.bits
    }

    /// The canonical 26-character text encoding of this identifier.
    pub fn encode(&self) -> (s: String)
        ensures
            s@ == spec_encode_id(self.bits),
            valid_id_text(s@),
    {
        let v = self.encode_chars();
        let s = chars_to_string(&v);
        proof {
            lemma_id_round_trip(*self);
        }
        s
    }

    /// The text encoding as a character vector.
    pub fn encode_chars(&self) -> (v: Vec<char>)
        ensures
            v@ == spec_encode_id(self.bits),
    {
        // digits of the value, least significant first
        let mut rev: Vec<char> = Vec::new();
        let mut x: u128 = self.bits;
        let mut j: usize = 0;
        proof {
            lemma_div_basics(self.bits as int);
        }
        while j < 26
            invariant
                j <= 26,
                rev.len() == j,
                x as nat == self.bits as nat / pow32(j as nat),
                forall|i: int| 0 <= i < j ==> rev[i] == digit_char(((self.bits as nat / pow32(
                    i as nat,
                )) % 32) as int),
            decreases 26 - j,
        {
            let d: u8 = (x % 32) as u8;
            rev.push(digit_char_of(d));
            proof {
                lemma_pow32_pos(j as nat);
                assert(pow32((j + 1) as nat) == 32 * pow32(j as nat));
                lemma_div_denominator(self.bits as int, pow32(j as nat) as int, 32);
            }
            x = x / 32;
            j += 1;
        }
        let mut v: Vec<char> = Vec::new();
        let mut k: usize = 0;
        while k < 26
            invariant
                k <= 26,
                v.len() == k,
                rev.len() == 26,
                forall|i: int| 0 <= i < 26 ==> rev[i] == digit_char(((self.bits as nat / pow32(
                    i as nat,
                )) % 32) as int),
                forall|i: int| 0 <= i < k ==> v[i] == rev[25 - i],
            decreases 26 - k,
        {
            v.push(rev[25 - k]);
            k += 1;
        }
        proof {
            assert(v@ =~= spec_encode_id(self.bits));
        }
        v
    }

    /// Parse the text encoding. Exactly the well-formed encodings (26
    /// alphabet characters in either case, leading digit at most 7) are
    /// accepted.
    pub fn parse(s: &str) -> (r: Option<RecordId>)
        ensures
            r == spec_parse_id(s@),
    {
        let v = str_to_chars(s);
        Self::parse_chars(&v)
    }

    /// Parse the text encoding from a character vector.
    pub fn parse_chars(v: &Vec<char>) -> (r: Option<RecordId>)
        ensures
            r == spec_parse_id(v@),
    {
        if v.len() != 26 {
            return None;
        }
        let first = char_val_of(v[0]);
        if first > 7 {
            return None;
        }
        let mut acc: u128 = 0;
        let mut i: usize = 0;
        while i < 26
            invariant
                i <= 26,
                v.len() == 26,
                char_val(v@[0]) <= 7,
                forall|k: int| 0 <= k < i ==> char_val(v@[k]) < 32,
                acc as nat == digits_val(v@, i as int),
            decreases 26 - i,
        {
            let d = char_val_of(v[i]);
            if d >= 32 {
                return None;
            }
            proof {
                if i >= 1 {
                    lemma_digits_val_bound(v@, i as int);
                    lemma_pow32_monotone((i - 1) as nat, 24);
                    lemma_pow32_values();
                    assert(pow32(25) == 32 * pow32(24));
                    assert(acc as nat * 32 < 8 * pow32((i - 1) as nat) * 32) by (nonlinear_arith)
                        requires
                            (acc as nat) < 8 * pow32((i - 1) as nat),
                    ;
                    assert(8 * pow32((i - 1) as nat) * 32 <= 8 * pow32(24) * 32) by (nonlinear_arith)
                        requires
                            pow32((i - 1) as nat) <= pow32(24),
                    ;
                }
            }
            acc = acc * 32 + (d as u128);
            i += 1;
        }
        proof {
            assert(valid_id_text(v@));
        }
        Some(RecordId { bits: acc })
    }
}

/// The encoding character for a digit value below 32.
fn digit_char_of(d: u8) -> (c: char)
    requires
        d < 32,
    ensures
        c == digit_char(d as int),
{
    match d {
        0 => '0', 1 => '1', 2 => '2', 3 => '3', 4 => '4', 5 => '5', 6 => '6', 7 => '7',
        8 => '8', 9 => '9', 10 => 'A', 11 => 'B', 12 => 'C', 13 => 'D', 14 => 'E', 15 => 'F',
        16 => 'G', 17 => 'H', 18 => 'J', 19 => 'K', 20 => 'M', 21 => 'N', 22 => 'P', 23 => 'Q',
        24 => 'R', 25 => 'S', 26 => 'T', 27 => 'V', 28 => 'W', 29 => 'X', 30 => 'Y', _ => 'Z',
    }
}

/// The digit value of a character, in either case; 32 for characters outside
/// the alphabet.
fn char_val_of(c: char) -> (v: u8)
    ensures
        v == char_val(c),
{
    match c {
        '0' => 0, '1' => 1, '2' => 2, '3' => 3, '4' => 4, '5' => 5, '6' => 6, '7' => 7,
        '8' => 8, '9' => 9,
        'A' | 'a' => 10, 'B' | 'b' => 11, 'C' | 'c' => 12, 'D' | 'd' => 13,
        'E' | 'e' => 14, 'F' | 'f' => 15, 'G' | 'g' => 16, 'H' | 'h' => 17,
        'J' | 'j' => 18, 'K' | 'k' => 19, 'M' | 'm' => 20, 'N' | 'n' => 21,
        'P' | 'p' => 22, 'Q' | 'q' => 23, 'R' | 'r' => 24, 'S' | 's' => 25,
        'T' | 't' => 26, 'V' | 'v' => 27, 'W' | 'w' => 28, 'X' | 'x' => 29,
        'Y' | 'y' => 30, 'Z' | 'z' => 31,
        _ => 32,
    }
}

/// Lexicographic order on character sequences, by character code.
pub open spec fn lex_le(a: Seq<char>, b: Seq<char>) -> bool
    decreases a.len(),
{
    if a.len() == 0 {
        true
    } else if b.len() == 0 {
        false
    } else if (a[0] as u32) < (b[0] as u32) {
        true
    } else if a[0] == b[0] {
        lex_le(a.drop_first(), b.drop_first())
    } else {
        false
    }
}

/// The digit alphabet ascends: a smaller digit value is encoded by a character
/// with a smaller code.
proof fn lemma_digit_char_ascends(a: int, b: int)
    requires
        0 <= a < b < 32,
    ensures
        (digit_char(a) as u32) < (digit_char(b) as u32),
{
}

/// Equal-length encodings order like their values.
proof fn lemma_digit_seq_le(a: nat, b: nat, n: nat)
    requires
        a <= b,
        b < pow32(n),
    ensures
        lex_le(digit_seq(a, n), digit_seq(b, n)),
    decreases n,
{
    if n > 0 {
        let p = pow32((n - 1) as nat);
        lemma_pow32_pos((n - 1) as nat);
        let da = a / p;
        let db = b / p;
        assert(pow32(n) == 32 * p);
        assert((b as int) < (p as int) * 32) by (nonlinear_arith)
            requires
                b < 32 * p,
        ;
        lemma_multiply_divide_lt(a as int, p as int, 32);
        lemma_multiply_divide_lt(b as int, p as int, 32);
        lemma_div_is_ordered(a as int, b as int, p as int);
        let sa = digit_seq(a, n);
        let sb = digit_seq(b, n);
        lemma_small_mod(da, 32);
        lemma_small_mod(db, 32);
        assert(sa[0] == digit_char(da as int));
        assert(sb[0] == digit_char(db as int));
        if da < db {
            lemma_digit_char_ascends(da as int, db as int);
        } else {
            let ra = a % p;
            let rb = b % p;
            lemma_fundamental_div_mod(a as int, p as int);
            lemma_fundamental_div_mod(b as int, p as int);
            assert(ra <= rb);
            lemma_mod_division_less_than_divisor(a as int, p as int);
            lemma_mod_division_less_than_divisor(b as int, p as int);
            lemma_digit_seq_le(ra, rb, (n - 1) as nat);
            lemma_low_digits_ignore_high(a, n);
            lemma_low_digits_ignore_high(b, n);
            assert(sa.drop_first() =~= digit_seq(ra, (n - 1) as nat));
            assert(sb.drop_first() =~= digit_seq(rb, (n - 1) as nat));
        }
    }
}

/// Dropping the leading digit of an `n`-digit encoding leaves the encoding of
/// the value with its high digit removed.
proof fn lemma_low_digits_ignore_high(x: nat, n: nat)
    requires
        n >= 1,
    ensures
        digit_seq(x, n).drop_first() =~= digit_seq(x % pow32((n - 1) as nat), (n - 1) as nat),
{
    let p = pow32((n - 1) as nat);
    lemma_pow32_pos((n - 1) as nat);
    let d = (x as int) / (p as int);
    let r = (x as int) % (p as int);
    lemma_fundamental_div_mod(x as int, p as int);
    assert(x as int == d * (p as int) + r);
    let dropped = digit_seq(x, n).drop_first();
    let low = digit_seq((x % p) as nat, (n - 1) as nat);
    assert forall|k: int| 0 <= k < n - 1 implies dropped[k] == low[k] by {
        let q = pow32((n - 2 - k) as nat);
        lemma_pow32_pos((n - 2 - k) as nat);
        let m = pow32((k + 1) as nat);
        lemma_pow32_pos((k + 1) as nat);
        lemma_pow32_split((n - 1) as nat, (n - 2 - k) as nat);
        assert(p == m * q);
        assert(d * (p as int) == (d * m) * q) by (nonlinear_arith)
            requires
                p == m * q,
        ;
        lemma_hoist_over_denominator(r, d * (m as int), q);
        assert(r / (q as int) + d * (m as int) == (r + (d * (m as int)) * (q as int)) / (q as int));
        assert((x as int) / (q as int) == d * (m as int) + r / (q as int));
        // m is a multiple of 32, so d * m vanishes modulo 32
        assert(m == 32 * pow32(k as nat));
        assert(d * (m as int) == 32 * (d * (pow32(k as nat) as int))) by (nonlinear_arith)
            requires
                m == 32 * pow32(k as nat),
        ;
        lemma_mod_multiples_vanish(d * (pow32(k as nat) as int), r / (q as int), 32);
        assert(((x as int) / (q as int)) % 32 == (r / (q as int)) % 32);
        assert((n - 1 - (k + 1)) as nat == (n - 2 - k) as nat);
        assert(dropped[k] == digit_char(((x / pow32((n - 2 - k) as nat)) % 32) as int));
        assert(low[k] == digit_char((((x % p) as nat / pow32((n - 2 - k) as nat)) % 32) as int));
    }
}

/// `32^(a) == 32^(a-b) * 32^(b)` for `b <= a`.
proof fn lemma_pow32_split(a: nat, b: nat)
    requires
        b <= a,
    ensures
        pow32(a) == pow32((a - b) as nat) * pow32(b),
    decreases a - b,
{
    if a == b {
        assert(pow32((a - b) as nat) == 1);
        assert(1 * pow32(b) == pow32(b)) by (nonlinear_arith);
    } else {
        lemma_pow32_split((a - 1) as nat, b);
        assert((a - 1 - b) as nat == (a - b - 1) as nat);
        assert(pow32((a - 1) as nat) == pow32((a - b - 1) as nat) * pow32(b));
        assert(pow32(a) == 32 * pow32((a - 1) as nat));
        assert(pow32(a) == 32 * (pow32((a - b - 1) as nat) * pow32(b)));
        assert(pow32((a - b) as nat) == 32 * pow32((a - b - 1) as nat));
        assert(32 * (pow32((a - b - 1) as nat) * pow32(b)) == (32 * pow32((a - b - 1) as nat))
            * pow32(b)) by (nonlinear_arith);
        assert(pow32(a) == pow32((a - b) as nat) * pow32(b));
    }
}

/// The text encoding is lexicographically sortable: sorting identifiers by
/// their canonical text orders them like their raw bit patterns, and hence
/// by creation time.
pub proof fn lemma_encoding_preserves_order(a: RecordId, b: RecordId)
    requires
        a.bits <= b.bits,
    ensures
        lex_le(spec_encode_id(a.bits), spec_encode_id(b.bits)),
{
    lemma_pow32_values();
    assert((b.bits as nat) < pow32(26));
    lemma_digit_seq_le(a.bits as nat, b.bits as nat, 26);
}

} // verus!
