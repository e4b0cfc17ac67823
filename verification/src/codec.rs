//! The store's file format: a pretty-printed array of record objects.
//!
//! This module defines the format twice — as specification-level printers and
//! parsers over character sequences, and as executable functions proved to
//! match them — and proves that parsing a printed collection gives the
//! collection back. The grammar is a JSON subset: objects with the record's
//! fields in a fixed order, flexible whitespace between tokens, strings with
//! the common backslash escapes plus four-digit escapes for control
//! characters, and decimal numbers with up to three fractional digits (hours
//! are held in thousandths).

use vstd::prelude::*;

use crate::date::Date;
use crate::ident::{spec_encode_id, spec_parse_id, valid_id_text, RecordId};
use crate::record::{AbsenceKindView, AbsenceRecord, AbsenceRecordView, AbsenceType};

verus! {

// ---------------------------------------------------------------------------
// characters and whitespace
// ---------------------------------------------------------------------------

/// JSON whitespace.
pub open spec fn is_ws(c: char) -> bool {
    c == ' ' || c == '\n' || c == '\t' || c == '\r'
}

/// The first index at or after `i` holding a non-whitespace character.
pub open spec fn skip_ws(s: Seq<char>, i: int) -> int
    decreases s.len() - i,
{
    if 0 <= i < s.len() && is_ws(s[i]) {
        skip_ws(s, i + 1)
    } else {
        i
    }
}

/// `skip_ws` stays within the sequence.
pub proof fn lemma_skip_ws_bounds(s: Seq<char>, i: int)
    requires
        0 <= i <= s.len(),
    ensures
        i <= skip_ws(s, i) <= s.len(),
    decreases s.len() - i,
{
    if i < s.len() && is_ws(s[i]) {
        lemma_skip_ws_bounds(s, i + 1);
    }
}

/// `skip_ws` stops exactly at the first non-whitespace position.
pub proof fn lemma_skip_ws_exact(s: Seq<char>, i: int, j: int)
    requires
        0 <= i <= j <= s.len(),
        forall|k: int| i <= k < j ==> is_ws(s[k]),
        j == s.len() || !is_ws(s[j]),
    ensures
        skip_ws(s, i) == j,
    decreases j - i,
{
    if i < j {
        lemma_skip_ws_exact(s, i + 1, j);
    }
}

/// The decimal digit character for a value below ten.
pub open spec fn dec_char(v: int) -> char {
    if v == 0 { '0' } else if v == 1 { '1' } else if v == 2 { '2' } else if v == 3 { '3' }
    else if v == 4 { '4' } else if v == 5 { '5' } else if v == 6 { '6' } else if v == 7 { '7' }
    else if v == 8 { '8' } else { '9' }
}

/// The value of a decimal digit character; 10 marks a non-digit.
pub open spec fn dec_val(c: char) -> nat {
    if c == '0' { 0 } else if c == '1' { 1 } else if c == '2' { 2 } else if c == '3' { 3 }
    else if c == '4' { 4 } else if c == '5' { 5 } else if c == '6' { 6 } else if c == '7' { 7 }
    else if c == '8' { 8 } else if c == '9' { 9 } else { 10 }
}

/// Ten raised to the power `k`.
pub open spec fn pow10(k: nat) -> nat
    decreases k,
{
    if k == 0 {
        1
    } else {
        10 * pow10((k - 1) as nat)
    }
}

// ---------------------------------------------------------------------------
// spec-level printing of numbers
// ---------------------------------------------------------------------------

/// The decimal rendering of `n`, without leading zeros (a single `0` for 0).
pub open spec fn spec_print_nat(n: nat) -> Seq<char>
    decreases n,
{
    if n < 10 {
        seq![dec_char(n as int)]
    } else {
        spec_print_nat(n / 10).push(dec_char((n % 10) as int))
    }
}

/// The `w`-digit zero-padded rendering of `n`.
pub open spec fn spec_print_fixed(n: nat, w: nat) -> Seq<char>
    decreases w,
{
    if w == 0 {
        Seq::empty()
    } else {
        spec_print_fixed(n / 10, (w - 1) as nat).push(dec_char((n % 10) as int))
    }
}

/// Whether every character is a decimal digit.
pub open spec fn all_digits(d: Seq<char>) -> bool {
    forall|k: int| 0 <= k < d.len() ==> dec_val(d[k]) < 10
}

/// The numeric value of a digit string, most significant digit first.
pub open spec fn value_of_digits(d: Seq<char>) -> nat
    decreases d.len(),
{
    if d.len() == 0 {
        0
    } else {
        value_of_digits(d.drop_last()) * 10 + dec_val(d.last())
    }
}

/// `spec_print_nat` emits digits, at least one, and reading them back gives
/// the number.
pub proof fn lemma_print_nat_digits(n: nat)
    ensures
        all_digits(spec_print_nat(n)),
        spec_print_nat(n).len() >= 1,
        value_of_digits(spec_print_nat(n)) == n,
    decreases n,
{
    if n < 10 {
        assert(spec_print_nat(n) =~= seq![dec_char(n as int)]);
        assert(spec_print_nat(n).drop_last() =~= Seq::<char>::empty());
        assert(value_of_digits(Seq::<char>::empty()) == 0);
        assert(dec_val(dec_char(n as int)) == n);
    } else {
        lemma_print_nat_digits(n / 10);
        let p = spec_print_nat(n / 10);
        let whole = p.push(dec_char((n % 10) as int));
        assert(whole.drop_last() =~= p);
        assert(whole.last() == dec_char((n % 10) as int));
        assert(forall|k: int| 0 <= k < p.len() ==> whole[k] == p[k]);
        vstd::arithmetic::div_mod::lemma_fundamental_div_mod(n as int, 10);
    }
}

/// The rendering of `n < 10^k` takes at most `k` digits.
pub proof fn lemma_print_nat_len(n: nat, k: nat)
    requires
        n < pow10(k),
        k >= 1,
    ensures
        spec_print_nat(n).len() <= k,
    decreases k,
{
    if n < 10 {
    } else {
        if k == 1 {
            assert(pow10(1) == 10 * pow10(0));
            assert(false);
        } else {
            assert(pow10(k) == 10 * pow10((k - 1) as nat));
            assert(n / 10 < pow10((k - 1) as nat)) by {
                vstd::arithmetic::div_mod::lemma_multiply_divide_lt(
                    n as int,
                    10,
                    pow10((k - 1) as nat) as int,
                );
            }
            lemma_print_nat_len(n / 10, (k - 1) as nat);
        }
    }
}

/// `spec_print_fixed` emits exactly `w` digits, and reading them back gives
/// the number when it fits in `w` digits.
pub proof fn lemma_print_fixed_digits(n: nat, w: nat)
    requires
        n < pow10(w),
    ensures
        all_digits(spec_print_fixed(n, w)),
        spec_print_fixed(n, w).len() == w,
        value_of_digits(spec_print_fixed(n, w)) == n,
    decreases w,
{
    if w == 0 {
        assert(pow10(0) == 1);
    } else {
        assert(pow10(w) == 10 * pow10((w - 1) as nat));
        assert(n / 10 < pow10((w - 1) as nat)) by {
            vstd::arithmetic::div_mod::lemma_multiply_divide_lt(
                n as int,
                10,
                pow10((w - 1) as nat) as int,
            );
        }
        lemma_print_fixed_digits(n / 10, (w - 1) as nat);
        let p = spec_print_fixed(n / 10, (w - 1) as nat);
        let whole = p.push(dec_char((n % 10) as int));
        assert(whole.drop_last() =~= p);
        assert(forall|k: int| 0 <= k < p.len() ==> whole[k] == p[k]);
        vstd::arithmetic::div_mod::lemma_fundamental_div_mod(n as int, 10);
    }
}

/// Digit strings carry values below `10^len`.
pub proof fn lemma_value_of_digits_bound(d: Seq<char>)
    requires
        all_digits(d),
    ensures
        value_of_digits(d) < pow10(d.len()),
    decreases d.len(),
{
    if d.len() == 0 {
    } else {
        let p = d.drop_last();
        assert(all_digits(p));
        lemma_value_of_digits_bound(p);
        assert(pow10(d.len()) == 10 * pow10(p.len()));
        assert(value_of_digits(p) * 10 <= (pow10(p.len()) - 1) * 10) by (nonlinear_arith)
            requires
                value_of_digits(p) <= pow10(p.len()) - 1,
        ;
    }
}


/// Leading zeros do not change the value of a digit string.
pub proof fn lemma_leading_zeros_value(d: Seq<char>, z: int)
    requires
        0 <= z <= d.len(),
        forall|k: int| 0 <= k < z ==> d[k] == '0',
    ensures
        value_of_digits(d) == value_of_digits(d.subrange(z, d.len() as int)),
    decreases d.len(),
{
    if d.len() == 0 {
        assert(d.subrange(0, 0) =~= d);
    } else if z == d.len() {
        // all zeros: the value is zero, and the suffix is empty
        assert(d.subrange(z, d.len() as int) =~= Seq::<char>::empty());
        lemma_all_zeros_value(d);
    } else {
        let dl = d.drop_last();
        assert(forall|k: int| 0 <= k < z ==> dl[k] == d[k]);
        lemma_leading_zeros_value(dl, z);
        assert(d.subrange(z, d.len() as int).drop_last() =~= dl.subrange(z, dl.len() as int));
        assert(d.subrange(z, d.len() as int).last() == d.last());
        assert(d.subrange(z, d.len() as int).len() > 0);
    }
}

/// A digit string of zeros has the value zero.
proof fn lemma_all_zeros_value(d: Seq<char>)
    requires
        forall|k: int| 0 <= k < d.len() ==> d[k] == '0',
    ensures
        value_of_digits(d) == 0,
    decreases d.len(),
{
    if d.len() > 0 {
        let dl = d.drop_last();
        assert(forall|k: int| 0 <= k < dl.len() ==> dl[k] == d[k]);
        lemma_all_zeros_value(dl);
        assert(dec_val(d.last()) == 0);
    }
}

/// A digit string that starts with a nonzero digit carries at least
/// `10^(len-1)`.
pub proof fn lemma_nonzero_lead_value(d: Seq<char>)
    requires
        d.len() >= 1,
        all_digits(d),
        dec_val(d[0]) >= 1,
    ensures
        value_of_digits(d) >= pow10((d.len() - 1) as nat),
    decreases d.len(),
{
    if d.len() == 1 {
        assert(d.drop_last() =~= Seq::<char>::empty());
        assert(value_of_digits(Seq::<char>::empty()) == 0);
        assert(d.last() == d[0]);
        assert(value_of_digits(d) == dec_val(d[0]));
    } else {
        let dl = d.drop_last();
        assert(all_digits(dl));
        assert(dl[0] == d[0]);
        lemma_nonzero_lead_value(dl);
        assert(pow10((d.len() - 1) as nat) == 10 * pow10((d.len() - 2) as nat));
        assert(value_of_digits(dl) * 10 >= pow10((d.len() - 2) as nat) * 10) by (nonlinear_arith)
            requires
                value_of_digits(dl) >= pow10((d.len() - 2) as nat),
        ;
    }
}

// ---------------------------------------------------------------------------
// spec-level parsing of literals and numbers
// ---------------------------------------------------------------------------

/// Match an exact literal at position `i`.
pub open spec fn spec_parse_lit(s: Seq<char>, i: int, lit: Seq<char>) -> Option<int> {
    if 0 <= i && i + lit.len() <= s.len() && s.subrange(i, i + lit.len()) == lit {
        Some(i + lit.len())
    } else {
        None
    }
}

/// The end of the run of decimal digits starting at `i`.
pub open spec fn digit_run_end(s: Seq<char>, i: int) -> int
    decreases s.len() - i,
{
    if 0 <= i < s.len() && dec_val(s[i]) < 10 {
        digit_run_end(s, i + 1)
    } else {
        i
    }
}

/// `digit_run_end` stops exactly at the first non-digit position.
pub proof fn lemma_digit_run_exact(s: Seq<char>, i: int, j: int)
    requires
        0 <= i <= j <= s.len(),
        forall|k: int| i <= k < j ==> dec_val(s[k]) < 10,
        j == s.len() || dec_val(s[j]) >= 10,
    ensures
        digit_run_end(s, i) == j,
    decreases j - i,
{
    if i < j {
        lemma_digit_run_exact(s, i + 1, j);
    }
}

/// `digit_run_end` stays within the sequence.
pub proof fn lemma_digit_run_bounds(s: Seq<char>, i: int)
    requires
        0 <= i <= s.len(),
    ensures
        i <= digit_run_end(s, i) <= s.len(),
        forall|k: int| i <= k < digit_run_end(s, i) ==> dec_val(s[k]) < 10,
    decreases s.len() - i,
{
    if i < s.len() && dec_val(s[i]) < 10 {
        lemma_digit_run_bounds(s, i + 1);
    }
}

/// Parse an unsigned decimal number of one to fifteen digits.
pub open spec fn spec_parse_nat(s: Seq<char>, i: int) -> Option<(nat, int)> {
    let j = digit_run_end(s, i);
    if 1 <= j - i <= 15 {
        Some((value_of_digits(s.subrange(i, j)), j))
    } else {
        None
    }
}

/// Parse exactly `w` digits.
pub open spec fn spec_parse_fixed(s: Seq<char>, i: int, w: nat) -> Option<(nat, int)> {
    if 0 <= i && i + w <= s.len() && all_digits(s.subrange(i, i + w as int)) {
        Some((value_of_digits(s.subrange(i, i + w as int)), i + w))
    } else {
        None
    }
}

/// Parsing a printed number gives the number back, provided no digit follows
/// the printed region.
pub proof fn lemma_parse_nat_of_print(s: Seq<char>, i: int, n: nat)
    requires
        0 <= i,
        n < pow10(15),
        i + spec_print_nat(n).len() <= s.len(),
        s.subrange(i, i + spec_print_nat(n).len() as int) == spec_print_nat(n),
        i + spec_print_nat(n).len() == s.len() || dec_val(
            s[i + spec_print_nat(n).len()],
        ) >= 10,
    ensures
        spec_parse_nat(s, i) == Some((n, i + spec_print_nat(n).len() as int)),
{
    let p = spec_print_nat(n);
    let j = i + p.len();
    lemma_print_nat_digits(n);
    lemma_print_nat_len(n, 15);
    assert(forall|k: int| i <= k < j ==> s[k] == p[k - i]);
    assert(forall|k: int| i <= k < j ==> dec_val(s[k]) < 10);
    lemma_digit_run_exact(s, i, j);
    assert(s.subrange(i, j) =~= p);
}

/// Parsing a printed fixed-width number gives the number back.
pub proof fn lemma_parse_fixed_of_print(s: Seq<char>, i: int, n: nat, w: nat)
    requires
        0 <= i,
        n < pow10(w),
        i + w <= s.len(),
        s.subrange(i, i + w as int) == spec_print_fixed(n, w),
    ensures
        spec_parse_fixed(s, i, w) == Some((n, i + w as int)),
{
    lemma_print_fixed_digits(n, w);
}

// ---------------------------------------------------------------------------
// executable character helpers
// ---------------------------------------------------------------------------

/// Whether `c` is JSON whitespace.
fn is_ws_char(c: char) -> (r: bool)
    ensures
        r == is_ws(c),
{
    c == ' ' || c == '\n' || c == '\t' || c == '\r'
}

/// The decimal digit character for `d`.
fn dec_char_of(d: u8) -> (c: char)
    requires
        d < 10,
    ensures
        c == dec_char(d as int),
{
    match d {
        0 => '0', 1 => '1', 2 => '2', 3 => '3', 4 => '4',
        5 => '5', 6 => '6', 7 => '7', 8 => '8', _ => '9',
    }
}

/// The value of a decimal digit character; 10 for non-digits.
pub(crate) fn dec_val_of(c: char) -> (v: u8)
    ensures
        v == dec_val(c),
{
    match c {
        '0' => 0, '1' => 1, '2' => 2, '3' => 3, '4' => 4,
        '5' => 5, '6' => 6, '7' => 7, '8' => 8, '9' => 9, _ => 10,
    }
}

/// Advance past whitespace.
pub(crate) fn scan_ws(s: &Vec<char>, i: usize) -> (j: usize)
    requires
        i <= s@.len(),
    ensures
        j == skip_ws(s@, i as int),
        i <= j <= s@.len(),
{
    let mut j: usize = i;
    while j < s.len() && is_ws_char(s[j])
        invariant
            i <= j <= s@.len(),
            skip_ws(s@, i as int) == skip_ws(s@, j as int),
        decreases s@.len() - j,
    {
        j += 1;
    }
    j
}

/// Match an exact literal.
pub(crate) fn scan_lit(s: &Vec<char>, i: usize, lit: &str) -> (r: Option<usize>)
    requires
        i <= s@.len(),
    ensures
        match r {
            Some(j) => spec_parse_lit(s@, i as int, lit@) == Some(j as int) && i <= j <= s@.len(),
            None => spec_parse_lit(s@, i as int, lit@) is None,
        },
{
    let n: usize = lit.unicode_len();
    if s.len() - i < n {
        proof {
            assert(i + lit@.len() > s@.len());
        }
        return None;
    }
    let mut k: usize = 0;
    while k < n
        invariant
            0 <= k <= n,
            i + n <= s.len(),
            i + n <= s@.len(),
            n == lit@.len(),
            forall|m: int| 0 <= m < k ==> s@[i + m] == lit@[m],
        decreases n - k,
    {
        if s[i + k] != lit.get_char(k) {
            proof {
                assert(s@.subrange(i as int, i + n) != lit@) by {
                    assert(s@.subrange(i as int, i + n)[k as int] != lit@[k as int]);
                }
            }
            return None;
        }
        k += 1;
    }
    proof {
        assert(s@.subrange(i as int, i + n) =~= lit@);
    }
    Some(i + n)
}

/// Parse a digit run of one to fifteen digits into a number.
pub(crate) fn scan_nat(s: &Vec<char>, i: usize) -> (r: Option<(u64, usize)>)
    requires
        i <= s@.len(),
    ensures
        match r {
            Some((v, j)) => spec_parse_nat(s@, i as int) == Some((v as nat, j as int)) && i < j
                <= s@.len(),
            None => spec_parse_nat(s@, i as int) is None,
        },
{
    let mut j: usize = i;
    let mut acc: u64 = 0;
    proof {
        lemma_digit_run_bounds(s@, i as int);
        assert(s@.subrange(i as int, i as int) =~= Seq::<char>::empty());
    }
    while j < s.len() && dec_val_of(s[j]) < 10
        invariant
            i <= j <= s@.len(),
            j - i <= 15,
            digit_run_end(s@, i as int) == digit_run_end(s@, j as int),
            forall|k: int| i <= k < j ==> dec_val(s@[k]) < 10,
            acc as nat == value_of_digits(s@.subrange(i as int, j as int)),
            (acc as nat) < pow10((j - i) as nat),
        decreases s@.len() - j,
    {
        let d = dec_val_of(s[j]);
        if j - i >= 15 {
            proof {
                assert(digit_run_end(s@, j as int) == digit_run_end(s@, j + 1));
                lemma_digit_run_bounds(s@, j + 1);
                assert(digit_run_end(s@, i as int) - i > 15);
            }
            return None;
        }
        proof {
            let before = s@.subrange(i as int, j as int);
            let after = s@.subrange(i as int, j + 1);
            assert(after.drop_last() =~= before);
            assert(after.last() == s@[j as int]);
            assert(pow10(((j + 1) - i) as nat) == 10 * pow10((j - i) as nat));
            assert(acc as nat * 10 + dec_val(s@[j as int]) < pow10(((j + 1) - i) as nat))
                by (nonlinear_arith)
                requires
                    (acc as nat) < pow10((j - i) as nat),
                    dec_val(s@[j as int]) < 10,
                    pow10(((j + 1) - i) as nat) == 10 * pow10((j - i) as nat),
            ;
            lemma_pow10_15();
            lemma_pow10_monotone((j + 1 - i) as nat, 15);
        }
        acc = acc * 10 + (d as u64);
        j += 1;
    }
    proof {
        assert(digit_run_end(s@, j as int) == j);
        assert(digit_run_end(s@, i as int) == j);
    }
    if j == i {
        return None;
    }
    Some((acc, j))
}

/// Parse exactly `w` digits.
pub(crate) fn scan_fixed(s: &Vec<char>, i: usize, w: usize) -> (r: Option<(u64, usize)>)
    requires
        i <= s@.len(),
        w <= 15,
    ensures
        match r {
            Some((v, j)) => spec_parse_fixed(s@, i as int, w as nat) == Some((v as nat, j as int))
                && j == i + w && j <= s@.len(),
            None => spec_parse_fixed(s@, i as int, w as nat) is None,
        },
{
    if s.len() - i < w {
        proof {
            assert(i + w > s@.len());
        }
        return None;
    }
    let mut k: usize = 0;
    let mut acc: u64 = 0;
    proof {
        assert(s@.subrange(i as int, i as int) =~= Seq::<char>::empty());
    }
    while k < w
        invariant
            0 <= k <= w,
            w <= 15,
            i + w <= s.len(),
            i + w <= s@.len(),
            forall|m: int| i <= m < i + k ==> dec_val(s@[m]) < 10,
            acc as nat == value_of_digits(s@.subrange(i as int, i + k)),
            (acc as nat) < pow10(k as nat),
        decreases w - k,
    {
        let d = dec_val_of(s[i + k]);
        if d >= 10 {
            proof {
                assert(!all_digits(s@.subrange(i as int, i + w as int))) by {
                    assert(dec_val(s@.subrange(i as int, i + w as int)[k as int]) >= 10);
                }
            }
            return None;
        }
        proof {
            let before = s@.subrange(i as int, i + k);
            let after = s@.subrange(i as int, i + k + 1);
            assert(after.drop_last() =~= before);
            assert(after.last() == s@[i + k]);
            assert(pow10((k + 1) as nat) == 10 * pow10(k as nat));
            assert(acc as nat * 10 + dec_val(s@[i + k]) < pow10((k + 1) as nat))
                by (nonlinear_arith)
                requires
                    (acc as nat) < pow10(k as nat),
                    dec_val(s@[i + k]) < 10,
                    pow10((k + 1) as nat) == 10 * pow10(k as nat),
            ;
            lemma_pow10_15();
            lemma_pow10_monotone((k + 1) as nat, 15);
        }
        acc = acc * 10 + (d as u64);
        k += 1;
    }
    proof {
        assert(all_digits(s@.subrange(i as int, i + w as int)));
    }
    Some((acc, i + w))
}

/// `pow10` is monotone.
pub(crate) proof fn lemma_pow10_monotone(a: nat, b: nat)
    requires
        a <= b,
    ensures
        pow10(a) <= pow10(b),
    decreases b,
{
    if a < b {
        lemma_pow10_monotone(a, (b - 1) as nat);
        assert(pow10(b) == 10 * pow10((b - 1) as nat));
        assert(pow10((b - 1) as nat) <= 10 * pow10((b - 1) as nat)) by (nonlinear_arith)
            requires
                pow10((b - 1) as nat) >= 0,
        ;
    }
}

/// Numeric values of the powers of ten the format uses.
pub(crate) proof fn lemma_pow10_15()
    ensures
        pow10(15) == 1_000_000_000_000_000,
        pow10(10) == 10_000_000_000,
        pow10(4) == 10_000,
        pow10(2) == 100,
        pow10(18) == 1_000_000_000_000_000_000,
{
    assert(pow10(15) == 1_000_000_000_000_000 && pow10(10) == 10_000_000_000 && pow10(4) == 10_000
        && pow10(2) == 100 && pow10(18) == 1_000_000_000_000_000_000) by {
        reveal_with_fuel(pow10, 19);
    }
}

// ---------------------------------------------------------------------------
// executable printing helpers
// ---------------------------------------------------------------------------

/// Append the characters of a literal.
pub(crate) fn emit_str(out: &mut Vec<char>, lit: &str)
    ensures
        final(out)@ == old(out)@ + lit@,
{
    let n: usize = lit.unicode_len();
    let mut k: usize = 0;
    while k < n
        invariant
            k <= n,
            n == lit@.len(),
            out@ == old(out)@ + lit@.subrange(0, k as int),
        decreases n - k,
    {
        out.push(lit.get_char(k));
        proof {
            assert(old(out)@ + lit@.subrange(0, k as int) + seq![lit@[k as int]] =~= old(out)@
                + lit@.subrange(0, k + 1));
        }
        k += 1;
    }
    proof {
        assert(lit@.subrange(0, n as int) =~= lit@);
    }
}

/// Append the decimal rendering of `n`.
pub(crate) fn emit_nat(out: &mut Vec<char>, n: u64)
    ensures
        final(out)@ == old(out)@ + spec_print_nat(n as nat),
    decreases n,
{
    if n < 10 {
        out.push(dec_char_of(n as u8));
        proof {
            assert(old(out)@ + seq![dec_char(n as int)] =~= out@);
        }
    } else {
        emit_nat(out, n / 10);
        out.push(dec_char_of((n % 10) as u8));
        proof {
            assert(old(out)@ + spec_print_nat((n / 10) as nat).push(
                dec_char((n % 10) as int),
            ) =~= out@);
        }
    }
}

/// Append the `w`-digit zero-padded rendering of `n`.
fn emit_fixed(out: &mut Vec<char>, n: u64, w: usize)
    ensures
        final(out)@ == old(out)@ + spec_print_fixed(n as nat, w as nat),
    decreases w,
{
    if w == 0 {
        proof {
            assert(old(out)@ + Seq::<char>::empty() =~= out@);
        }
    } else {
        emit_fixed(out, n / 10, w - 1);
        out.push(dec_char_of((n % 10) as u8));
        proof {
            assert(old(out)@ + spec_print_fixed((n / 10) as nat, (w - 1) as nat).push(
                dec_char((n % 10) as int),
            ) =~= out@);
        }
    }
}


// ---------------------------------------------------------------------------
// JSON strings
// ---------------------------------------------------------------------------

/// The lowercase hexadecimal digit character for a value below sixteen.
pub open spec fn hex_char(v: int) -> char {
    if v == 0 { '0' } else if v == 1 { '1' } else if v == 2 { '2' } else if v == 3 { '3' }
    else if v == 4 { '4' } else if v == 5 { '5' } else if v == 6 { '6' } else if v == 7 { '7' }
    else if v == 8 { '8' } else if v == 9 { '9' } else if v == 10 { 'a' } else if v == 11 { 'b' }
    else if v == 12 { 'c' } else if v == 13 { 'd' } else if v == 14 { 'e' } else { 'f' }
}

/// The value of a hexadecimal digit character, in either case; 16 marks a
/// non-digit.
pub open spec fn hex_val(c: char) -> nat {
    if c == '0' { 0 } else if c == '1' { 1 } else if c == '2' { 2 } else if c == '3' { 3 }
    else if c == '4' { 4 } else if c == '5' { 5 } else if c == '6' { 6 } else if c == '7' { 7 }
    else if c == '8' { 8 } else if c == '9' { 9 }
    else if c == 'a' || c == 'A' { 10 } else if c == 'b' || c == 'B' { 11 }
    else if c == 'c' || c == 'C' { 12 } else if c == 'd' || c == 'D' { 13 }
    else if c == 'e' || c == 'E' { 14 } else if c == 'f' || c == 'F' { 15 }
    else { 16 }
}

/// How one character is written inside a JSON string.
pub open spec fn spec_escape_char(c: char) -> Seq<char> {
    if c == '"' {
        seq!['\\', '"']
    } else if c == '\\' {
        seq!['\\', '\\']
    } else if c == '\n' {
        seq!['\\', 'n']
    } else if c == '\r' {
        seq!['\\', 'r']
    } else if c == '\t' {
        seq!['\\', 't']
    } else if (c as u32) < 0x20 {
        seq![
            '\\',
            'u',
            '0',
            '0',
            hex_char(((c as u32) / 16) as int),
            hex_char(((c as u32) % 16) as int),
        ]
    } else {
        seq![c]
    }
}

/// The escaped form of a string.
pub open spec fn spec_escape(s: Seq<char>) -> Seq<char>
    decreases s.len(),
{
    if s.len() == 0 {
        Seq::empty()
    } else {
        spec_escape_char(s[0]) + spec_escape(s.drop_first())
    }
}

/// A quoted, escaped JSON string.
pub open spec fn spec_print_jstring(s: Seq<char>) -> Seq<char> {
    seq!['"'] + spec_escape(s) + seq!['"']
}

/// The character an escape letter stands for.
pub open spec fn unescape_char(e: char) -> Option<char> {
    if e == '"' {
        Some('"')
    } else if e == '\\' {
        Some('\\')
    } else if e == '/' {
        Some('/')
    } else if e == 'n' {
        Some('\n')
    } else if e == 'r' {
        Some('\r')
    } else if e == 't' {
        Some('\t')
    } else {
        None
    }
}

/// A character's code point read through `u32` is its code point.
proof fn lemma_char_code(c: char)
    ensures
        ((c as u32) as int) == (c as int),
        0 <= (c as int) <= 0x10ffff,
{
}

/// Escaping distributes over appending one character.
pub proof fn lemma_escape_push(t: Seq<char>, c: char)
    ensures
        spec_escape(t.push(c)) == spec_escape(t) + spec_escape_char(c),
    decreases t.len(),
{
    if t.len() == 0 {
        assert(t.push(c).drop_first() =~= Seq::<char>::empty());
        assert(t.push(c)[0] == c);
        assert(spec_escape(Seq::<char>::empty()) =~= Seq::<char>::empty());
        assert(spec_escape(t.push(c)) == spec_escape_char(c) + spec_escape(
            Seq::<char>::empty(),
        ));
        assert(spec_escape_char(c) + Seq::<char>::empty() =~= spec_escape_char(c));
        assert(spec_escape(t) =~= Seq::<char>::empty());
        assert(spec_escape(t) + spec_escape_char(c) =~= spec_escape_char(c));
    } else {
        lemma_escape_push(t.drop_first(), c);
        assert(t.push(c).drop_first() =~= t.drop_first().push(c));
        assert(t.push(c)[0] == t[0]);
        assert(spec_escape(t.push(c)) == spec_escape_char(t[0]) + spec_escape(
            t.drop_first().push(c),
        ));
        assert(spec_escape(t.drop_first().push(c)) == spec_escape(t.drop_first())
            + spec_escape_char(c));
        assert(spec_escape_char(t[0]) + (spec_escape(t.drop_first()) + spec_escape_char(c)) =~= (
        spec_escape_char(t[0]) + spec_escape(t.drop_first())) + spec_escape_char(c));
        assert(spec_escape(t) == spec_escape_char(t[0]) + spec_escape(t.drop_first()));
    }
}

/// Parse the inside of a JSON string, after the opening quote, up to and
/// including the closing quote.
pub open spec fn spec_parse_jstring_body(s: Seq<char>, i: int) -> Option<(Seq<char>, int)>
    decreases s.len() - i,
{
    if !(0 <= i < s.len()) {
        None
    } else if s[i] == '"' {
        Some((Seq::empty(), i + 1))
    } else if s[i] == '\\' {
        if i + 1 >= s.len() {
            None
        } else if s[i + 1] == 'u' {
            // a four-digit escape; codes beyond 0xff are written directly
            if i + 6 > s.len() {
                None
            } else {
                let h1 = hex_val(s[i + 2]);
                let h2 = hex_val(s[i + 3]);
                let h3 = hex_val(s[i + 4]);
                let h4 = hex_val(s[i + 5]);
                if h1 < 16 && h2 < 16 && h3 < 16 && h4 < 16 {
                    let code = h1 * 4096 + h2 * 256 + h3 * 16 + h4;
                    if code <= 0xff {
                        match spec_parse_jstring_body(s, i + 6) {
                            None => None,
                            Some((t, j)) => Some((seq![(code as char)] + t, j)),
                        }
                    } else {
                        None
                    }
                } else {
                    None
                }
            }
        } else {
            match unescape_char(s[i + 1]) {
                None => None,
                Some(u) => match spec_parse_jstring_body(s, i + 2) {
                    None => None,
                    Some((t, j)) => Some((seq![u] + t, j)),
                },
            }
        }
    } else if (s[i] as u32) < 0x20 {
        None
    } else {
        match spec_parse_jstring_body(s, i + 1) {
            None => None,
            Some((t, j)) => Some((seq![s[i]] + t, j)),
        }
    }
}

/// Parse a quoted JSON string.
pub open spec fn spec_parse_jstring(s: Seq<char>, i: int) -> Option<(Seq<char>, int)> {
    if 0 <= i < s.len() && s[i] == '"' {
        spec_parse_jstring_body(s, i + 1)
    } else {
        None
    }
}

/// A parsed string body ends after its starting position and within bounds.
pub proof fn lemma_jstring_body_bounds(s: Seq<char>, i: int)
    ensures
        match spec_parse_jstring_body(s, i) {
            Some((t, j)) => i < j <= s.len(),
            None => true,
        },
    decreases s.len() - i,
{
    if 0 <= i < s.len() {
        if s[i] == '\\' {
            if i + 1 < s.len() {
                lemma_jstring_body_bounds(s, i + 2);
                if i + 6 <= s.len() {
                    lemma_jstring_body_bounds(s, i + 6);
                }
            }
        } else if s[i] != '"' {
            lemma_jstring_body_bounds(s, i + 1);
        }
    }
}

/// Prepend a prefix to the string part of a parse result.
pub open spec fn opt_prepend(p: Seq<char>, o: Option<(Seq<char>, int)>) -> Option<
    (Seq<char>, int),
> {
    match o {
        Some((t, j)) => Some((p + t, j)),
        None => None,
    }
}

/// `opt_prepend` composes by concatenation.
proof fn lemma_opt_prepend_assoc(a: Seq<char>, b: Seq<char>, o: Option<(Seq<char>, int)>)
    ensures
        opt_prepend(a, opt_prepend(b, o)) == opt_prepend(a + b, o),
{
    match o {
        Some((t, j)) => {
            assert(a + (b + t) =~= (a + b) + t);
        },
        None => {},
    }
}

/// Parsing the escaped form of a string, followed by a closing quote, gives
/// the string back.
pub proof fn lemma_jstring_body_of_escape(s: Seq<char>, i: int, t: Seq<char>)
    requires
        0 <= i,
        i + spec_escape(t).len() + 1 <= s.len(),
        s.subrange(i, i + spec_escape(t).len() + 1) == spec_escape(t) + seq!['"'],
    ensures
        spec_parse_jstring_body(s, i) == Some((t, i + spec_escape(t).len() + 1)),
    decreases t.len(),
{
    let e = spec_escape(t);
    let region = e + seq!['"'];
    let lenr = e.len() + 1;
    if t.len() == 0 {
        assert(e =~= Seq::<char>::empty());
        assert(s.subrange(i, i + lenr)[0] == region[0]);
        assert(s[i] == '"');
        assert(t =~= Seq::<char>::empty());
    } else {
        let c = t[0];
        let ec = spec_escape_char(c);
        let rest = t.drop_first();
        assert(e == ec + spec_escape(rest));
        assert(s.subrange(i, i + lenr)[0] == region[0]);
        assert(s[i] == region[0]);
        assert(region[0] == ec[0]);
        assert(s.subrange(i, i + lenr)[1] == region[1]);
        assert(s[i + 1] == region[1]);
        assert(s.subrange(i + ec.len(), i + lenr) =~= spec_escape(rest) + seq!['"']) by {
            assert forall|k: int| 0 <= k < lenr - ec.len() implies #[trigger] (s.subrange(
                i + ec.len(),
                i + lenr,
            )[k]) == (spec_escape(rest) + seq!['"'])[k] by {
                assert(s.subrange(i + ec.len(), i + lenr)[k] == s[(i + ec.len()) + k]);
                assert(s.subrange(i, i + lenr)[ec.len() + k] == region[ec.len() + k]);
                assert(s.subrange(i, i + lenr)[ec.len() + k] == s[i + (ec.len() + k)]);
                assert((i + ec.len()) + k == i + (ec.len() + k));
                assert(region[ec.len() + k] == (spec_escape(rest) + seq!['"'])[k]);
            }
        }
        lemma_jstring_body_of_escape(s, i + ec.len(), rest);
        let end = i + e.len() + 1;
        assert(i + ec.len() + spec_escape(rest).len() + 1 == end);
        if ec.len() == 2 {
            assert(s[i] == '\\');
            assert(s[i + 1] == ec[1]);
            assert(ec[1] != 'u');
            assert(unescape_char(ec[1]) == Some(c));
            assert(spec_parse_jstring_body(s, i) == Some((seq![c] + rest, end)));
        } else if ec.len() == 6 {
            // a control character written as a four-digit escape
            let code = (c as u32) as int;
            lemma_char_code(c);
            assert(0 <= code < 0x20);
            assert(ec[1] == 'u' && ec[2] == '0' && ec[3] == '0');
            assert(ec[4] == hex_char(code / 16) && ec[5] == hex_char(code % 16));
            assert(s.subrange(i, i + lenr)[2] == region[2]);
            assert(s.subrange(i, i + lenr)[3] == region[3]);
            assert(s.subrange(i, i + lenr)[4] == region[4]);
            assert(s.subrange(i, i + lenr)[5] == region[5]);
            assert(s[i + 2] == '0' && s[i + 3] == '0');
            assert(s[i + 4] == hex_char(code / 16) && s[i + 5] == hex_char(code % 16));
            vstd::arithmetic::div_mod::lemma_fundamental_div_mod(code, 16);
            vstd::arithmetic::div_mod::lemma_mod_division_less_than_divisor(code, 16);
            assert(0 <= code / 16 < 2);
            assert(hex_val(hex_char(code / 16)) == code / 16);
            assert(hex_val(hex_char(code % 16)) == code % 16);
            assert(hex_val('0') == 0);
            let parsed = hex_val(s[i + 2]) * 4096 + hex_val(s[i + 3]) * 256 + hex_val(
                s[i + 4],
            ) * 16 + hex_val(s[i + 5]);
            assert(parsed == code);
            assert(0 <= parsed < 0xd800);
            assert(((parsed as char) as int) == parsed);
            assert((c as int) == code);
            assert(((parsed as char) as int) == (c as int));
            assert((parsed as char) == c);
            assert(spec_parse_jstring_body(s, i) == Some((seq![c] + rest, end)));
        } else {
            assert(ec =~= seq![c]);
            assert(s[i] == c);
            assert(c != '"' && c != '\\');
            lemma_char_code(c);
            assert((c as u32) >= 0x20) by {
                if (c as u32) < 0x20 {
                    assert(ec.len() == 6);
                }
            }
            assert(spec_parse_jstring_body(s, i) == Some((seq![c] + rest, end)));
        }
        assert(seq![c] + rest =~= t);
    }
}

/// Parsing a printed JSON string gives the string back.
pub proof fn lemma_parse_jstring_of_print(s: Seq<char>, i: int, t: Seq<char>)
    requires
        0 <= i,
        i + spec_print_jstring(t).len() <= s.len(),
        s.subrange(i, i + spec_print_jstring(t).len() as int) == spec_print_jstring(t),
    ensures
        spec_parse_jstring(s, i) == Some((t, i + spec_print_jstring(t).len() as int)),
{
    let p = spec_print_jstring(t);
    assert(p == seq!['"'] + spec_escape(t) + seq!['"']);
    assert(s.subrange(i, i + p.len() as int)[0] == p[0]);
    assert(s[i] == '"');
    assert(s.subrange(i + 1, i + 1 + spec_escape(t).len() + 1) =~= spec_escape(t) + seq!['"'])
        by {
        assert forall|k: int| 0 <= k < spec_escape(t).len() + 1 implies #[trigger] (s.subrange(
            i + 1,
            i + 1 + spec_escape(t).len() + 1,
        )[k]) == (spec_escape(t) + seq!['"'])[k] by {
            assert(s.subrange(i + 1, i + 1 + spec_escape(t).len() + 1)[k] == s[(i + 1) + k]);
            assert(s.subrange(i, i + p.len() as int)[1 + k] == p[1 + k]);
            assert(s.subrange(i, i + p.len() as int)[1 + k] == s[i + (1 + k)]);
            assert((i + 1) + k == i + (1 + k));
            assert(p[1 + k] == (spec_escape(t) + seq!['"'])[k]);
        }
    }
    lemma_jstring_body_of_escape(s, i + 1, t);
}

/// Append a quoted, escaped JSON string.
fn emit_jstring(out: &mut Vec<char>, s: &str)
    ensures
        final(out)@ == old(out)@ + spec_print_jstring(s@),
{
    out.push('"');
    let n: usize = s.unicode_len();
    let mut k: usize = 0;
    proof {
        assert(s@.subrange(0, 0) =~= Seq::<char>::empty());
        assert(out@ =~= old(out)@ + seq!['"'] + spec_escape(s@.subrange(0, 0)));
    }
    while k < n
        invariant
            k <= n,
            n == s@.len(),
            out@ == old(out)@ + seq!['"'] + spec_escape(s@.subrange(0, k as int)),
        decreases n - k,
    {
        let c = s.get_char(k);
        let ghost before = out@;
        if c == '"' {
            out.push('\\');
            out.push('"');
        } else if c == '\\' {
            out.push('\\');
            out.push('\\');
        } else if c == '\n' {
            out.push('\\');
            out.push('n');
        } else if c == '\r' {
            out.push('\\');
            out.push('r');
        } else if c == '\t' {
            out.push('\\');
            out.push('t');
        } else if (c as u32) < 0x20 {
            let code: u32 = c as u32;
            out.push('\\');
            out.push('u');
            out.push('0');
            out.push('0');
            out.push(hex_char_of((code / 16) as u8));
            out.push(hex_char_of((code % 16) as u8));
        } else {
            out.push(c);
        }
        proof {
            assert(out@ =~= before + spec_escape_char(s@[k as int]));
            lemma_escape_push(s@.subrange(0, k as int), s@[k as int]);
            assert(s@.subrange(0, k + 1) =~= s@.subrange(0, k as int).push(s@[k as int]));
            assert(before + spec_escape_char(s@[k as int]) =~= old(out)@ + seq!['"'] + (
            spec_escape(s@.subrange(0, k as int)) + spec_escape_char(s@[k as int])));
        }
        k += 1;
    }
    out.push('"');
    proof {
        assert(s@.subrange(0, n as int) =~= s@);
        assert(out@ =~= old(out)@ + spec_print_jstring(s@));
    }
}

/// The escape letter for a character, when reading input.
fn unescape_char_of(e: char) -> (r: Option<char>)
    ensures
        r == unescape_char(e),
{
    match e {
        '"' => Some('"'),
        '\\' => Some('\\'),
        '/' => Some('/'),
        'n' => Some('\n'),
        'r' => Some('\r'),
        't' => Some('\t'),
        _ => None,
    }
}

/// The lowercase hexadecimal digit character for `v`.
fn hex_char_of(v: u8) -> (c: char)
    requires
        v < 16,
    ensures
        c == hex_char(v as int),
{
    match v {
        0 => '0', 1 => '1', 2 => '2', 3 => '3', 4 => '4', 5 => '5', 6 => '6', 7 => '7',
        8 => '8', 9 => '9', 10 => 'a', 11 => 'b', 12 => 'c', 13 => 'd', 14 => 'e', _ => 'f',
    }
}

/// The value of a hexadecimal digit character; 16 for non-digits.
fn hex_val_of(c: char) -> (v: u8)
    ensures
        v == hex_val(c),
{
    match c {
        '0' => 0, '1' => 1, '2' => 2, '3' => 3, '4' => 4, '5' => 5, '6' => 6, '7' => 7,
        '8' => 8, '9' => 9,
        'a' | 'A' => 10, 'b' | 'B' => 11, 'c' | 'C' => 12, 'd' | 'D' => 13,
        'e' | 'E' => 14, 'f' | 'F' => 15,
        _ => 16,
    }
}

/// Parse a quoted JSON string into an owned `String`.
fn scan_jstring(s: &Vec<char>, i: usize) -> (r: Option<(String, usize)>)
    requires
        i <= s@.len(),
    ensures
        match r {
            Some((out, j)) => spec_parse_jstring(s@, i as int) == Some((out@, j as int)) && i < j
                <= s@.len(),
            None => spec_parse_jstring(s@, i as int) is None,
        },
{
    if i >= s.len() {
        return None;
    }
    if s[i] != '"' {
        return None;
    }
    let mut acc: Vec<char> = Vec::new();
    let mut cur: usize = i + 1;
    proof {
        assert(acc@ =~= Seq::<char>::empty());
        assert(opt_prepend(Seq::<char>::empty(), spec_parse_jstring_body(s@, i + 1))
            == spec_parse_jstring_body(s@, i + 1)) by {
            match spec_parse_jstring_body(s@, i + 1) {
                Some((t, j)) => {
                    assert(Seq::<char>::empty() + t =~= t);
                },
                None => {},
            }
        }
    }
    loop
        invariant
            i < cur <= s@.len(),
            spec_parse_jstring(s@, i as int) == opt_prepend(
                acc@,
                spec_parse_jstring_body(s@, cur as int),
            ),
        decreases s@.len() - cur,
    {
        if cur >= s.len() {
            return None;
        }
        let c = s[cur];
        if c == '"' {
            proof {
                assert(acc@ + Seq::<char>::empty() =~= acc@);
            }
            let out = crate::text::chars_to_string(&acc);
            return Some((out, cur + 1));
        } else if c == '\\' {
            if cur + 1 >= s.len() {
                return None;
            }
            if s[cur + 1] == 'u' {
                if s.len() - cur < 6 {
                    return None;
                }
                let h1 = hex_val_of(s[cur + 2]);
                let h2 = hex_val_of(s[cur + 3]);
                let h3 = hex_val_of(s[cur + 4]);
                let h4 = hex_val_of(s[cur + 5]);
                if h1 >= 16 || h2 >= 16 || h3 >= 16 || h4 >= 16 {
                    return None;
                }
                let code: u32 = (h1 as u32) * 4096 + (h2 as u32) * 256 + (h3 as u32) * 16 + (
                h4 as u32);
                if code > 0xff {
                    return None;
                }
                let u: char = (code as u8) as char;
                proof {
                    let sc = hex_val(s@[cur + 2]) * 4096 + hex_val(s@[cur + 3]) * 256 + hex_val(
                        s@[cur + 4],
                    ) * 16 + hex_val(s@[cur + 5]);
                    assert(sc == code);
                    assert(0 <= sc < 0xd800);
                    assert(((sc as char) as int) == sc);
                    assert(((code as u8) as int) == code);
                    assert((((code as u8) as char) as int) == ((code as u8) as int));
                    assert(u == (sc as char));
                    assert(spec_parse_jstring_body(s@, cur as int) == opt_prepend(
                        seq![(sc as char)],
                        spec_parse_jstring_body(s@, cur + 6),
                    ));
                    lemma_opt_prepend_assoc(
                        acc@,
                        seq![u],
                        spec_parse_jstring_body(s@, cur + 6),
                    );
                    assert(acc@.push(u) =~= acc@ + seq![u]);
                }
                acc.push(u);
                cur = cur + 6;
                continue;
            }
            match unescape_char_of(s[cur + 1]) {
                None => {
                    return None;
                },
                Some(u) => {
                    proof {
                        assert(spec_parse_jstring_body(s@, cur as int) == opt_prepend(
                            seq![u],
                            spec_parse_jstring_body(s@, cur + 2),
                        ));
                        lemma_opt_prepend_assoc(
                            acc@,
                            seq![u],
                            spec_parse_jstring_body(s@, cur + 2),
                        );
                        assert(acc@.push(u) =~= acc@ + seq![u]);
                    }
                    acc.push(u);
                    cur = cur + 2;
                },
            }
        } else if (c as u32) < 0x20 {
            return None;
        } else {
            proof {
                assert(spec_parse_jstring_body(s@, cur as int) == opt_prepend(
                    seq![c],
                    spec_parse_jstring_body(s@, cur + 1),
                ));
                lemma_opt_prepend_assoc(acc@, seq![c], spec_parse_jstring_body(s@, cur + 1));
                assert(acc@.push(c) =~= acc@ + seq![c]);
            }
            acc.push(c);
            cur = cur + 1;
        }
    }
}

// ---------------------------------------------------------------------------
// fields: hours, dates, identifiers, categories, notes
// ---------------------------------------------------------------------------

/// One character of a subrange equality, extracted pointwise.
proof fn lemma_subrange_at(s: Seq<char>, i: int, r: Seq<char>, k: int)
    requires
        0 <= i,
        i + r.len() <= s.len(),
        s.subrange(i, i + r.len() as int) == r,
        0 <= k < r.len(),
    ensures
        s[i + k] == r[k],
{
    assert(s.subrange(i, i + r.len() as int)[k] == r[k]);
}

/// A subrange of a known region equals the region's subrange.
proof fn lemma_subrange_shift(s: Seq<char>, i: int, r: Seq<char>, a: int, b: int)
    requires
        0 <= i,
        i + r.len() <= s.len(),
        s.subrange(i, i + r.len() as int) == r,
        0 <= a <= b <= r.len(),
    ensures
        s.subrange(i + a, i + b) =~= r.subrange(a, b),
{
    assert forall|k: int| 0 <= k < b - a implies #[trigger] (s.subrange(i + a, i + b)[k])
        == r.subrange(a, b)[k] by {
        assert(s.subrange(i + a, i + b)[k] == s[(i + a) + k]);
        assert(s.subrange(i, i + r.len() as int)[a + k] == r[a + k]);
        assert(s.subrange(i, i + r.len() as int)[a + k] == s[i + (a + k)]);
        assert((i + a) + k == i + (a + k));
    }
}

/// The fractional digits of an hours value in thousandths: one to three
/// digits with trailing zeros removed.
pub open spec fn spec_print_frac(f: int) -> Seq<char> {
    if f % 10 != 0 {
        seq![dec_char(f / 100), dec_char((f / 10) % 10), dec_char(f % 10)]
    } else if (f / 10) % 10 != 0 {
        seq![dec_char(f / 100), dec_char((f / 10) % 10)]
    } else {
        seq![dec_char(f / 100)]
    }
}

/// The decimal rendering of a non-negative hours value in thousandths.
pub open spec fn spec_print_hours_mag(m: int) -> Seq<char> {
    spec_print_nat((m / 1000) as nat) + seq!['.'] + spec_print_frac(m % 1000)
}

/// The decimal rendering of an hours value in thousandths.
pub open spec fn spec_print_hours(m: int) -> Seq<char> {
    if m < 0 {
        seq!['-'] + spec_print_hours_mag(-m)
    } else {
        spec_print_hours_mag(m)
    }
}

/// Parse a non-negative decimal number into thousandths: an integer part and
/// an optional fraction of one to three digits.
pub open spec fn spec_parse_hours_mag(s: Seq<char>, i: int) -> Option<(int, int)> {
    match spec_parse_nat(s, i) {
        None => None,
        Some((ip, j)) => if j < s.len() && s[j] == '.' {
            let k = digit_run_end(s, j + 1);
            if 1 <= k - (j + 1) <= 3 {
                let fv = value_of_digits(s.subrange(j + 1, k));
                let scale: int = if k - (j + 1) == 1 {
                    100
                } else if k - (j + 1) == 2 {
                    10
                } else {
                    1
                };
                Some(((ip * 1000) as int + (fv as int) * scale, k))
            } else {
                None
            }
        } else {
            Some(((ip * 1000) as int, j))
        },
    }
}

/// Parse a decimal number, with an optional leading minus sign, into
/// thousandths.
pub open spec fn spec_parse_hours(s: Seq<char>, i: int) -> Option<(int, int)> {
    if 0 <= i < s.len() && s[i] == '-' {
        match spec_parse_hours_mag(s, i + 1) {
            Some((m, j)) => Some((-m, j)),
            None => None,
        }
    } else {
        spec_parse_hours_mag(s, i)
    }
}

/// A parsed hours value is bounded by the digit budget of its integer part.
pub proof fn lemma_parse_hours_bound(s: Seq<char>, i: int)
    ensures
        match spec_parse_hours(s, i) {
            Some((m, j)) => -1_000_000_000_000_000_000 < m < 1_000_000_000_000_000_000,
            None => true,
        },
{
    lemma_pow10_15();
    lemma_parse_hours_mag_bound(s, i);
    if 0 <= i < s.len() && s[i] == '-' {
        lemma_parse_hours_mag_bound(s, i + 1);
    }
}

/// The magnitude form of [`lemma_parse_hours_bound`].
proof fn lemma_parse_hours_mag_bound(s: Seq<char>, i: int)
    ensures
        match spec_parse_hours_mag(s, i) {
            Some((m, j)) => 0 <= m < 1_000_000_000_000_000_000,
            None => true,
        },
{
    lemma_pow10_15();
    match spec_parse_nat(s, i) {
        None => {},
        Some((ip, j)) => {
            let run = s.subrange(i, j);
            lemma_digit_run_bounds(s, i);
            assert(all_digits(run));
            lemma_value_of_digits_bound(run);
            lemma_pow10_monotone(run.len(), 15);
            assert(ip < pow10(15));
            if j < s.len() && s[j] == '.' {
                let k = digit_run_end(s, j + 1);
                if 1 <= k - (j + 1) <= 3 {
                    let frac = s.subrange(j + 1, k);
                    lemma_digit_run_bounds(s, j + 1);
                    assert(all_digits(frac));
                    lemma_value_of_digits_bound(frac);
                    lemma_pow10_monotone(frac.len(), 3);
                    assert(pow10(3) == 1000) by {
                        reveal_with_fuel(pow10, 4);
                    }
                    let fv = value_of_digits(frac);
                    let scale: int = if k - (j + 1) == 1 {
                        100
                    } else if k - (j + 1) == 2 {
                        10
                    } else {
                        1
                    };
                    assert(fv * scale < 1000) by (nonlinear_arith)
                        requires
                            (k - (j + 1) == 1 && fv < 10 && scale == 100) || (k - (j + 1) == 2
                                && fv < 100 && scale == 10) || (k - (j + 1) == 3 && fv < 1000
                                && scale == 1),
                    ;
                    assert(ip * 1000 <= (pow10(15) - 1) * 1000) by (nonlinear_arith)
                        requires
                            ip <= pow10(15) - 1,
                    ;
                } else {
                }
            } else {
                assert(ip * 1000 <= (pow10(15) - 1) * 1000) by (nonlinear_arith)
                    requires
                        ip <= pow10(15) - 1,
                ;
            }
        },
    }
}

/// Parsing a printed hours value gives the value back, provided neither a
/// digit nor a dot follows the printed region.
pub proof fn lemma_parse_hours_of_print(s: Seq<char>, i: int, m: int)
    requires
        0 <= i,
        -1_000_000_000_000_000_000 < m < 1_000_000_000_000_000_000,
        i + spec_print_hours(m).len() <= s.len(),
        s.subrange(i, i + spec_print_hours(m).len() as int) == spec_print_hours(m),
        i + spec_print_hours(m).len() == s.len() || (dec_val(s[i + spec_print_hours(m).len()])
            >= 10 && s[i + spec_print_hours(m).len()] != '.'),
    ensures
        spec_parse_hours(s, i) == Some((m, i + spec_print_hours(m).len() as int)),
{
    let p = spec_print_hours(m);
    if m < 0 {
        let pm = spec_print_hours_mag(-m);
        assert(p == seq!['-'] + pm);
        lemma_subrange_at(s, i, p, 0);
        assert(s[i] == '-');
        lemma_subrange_shift(s, i, p, 1, p.len() as int);
        assert(p.subrange(1, p.len() as int) =~= pm);
        lemma_parse_hours_mag_of_print(s, i + 1, -m);
    } else {
        assert(p == spec_print_hours_mag(m));
        lemma_parse_hours_mag_of_print(s, i, m);
        lemma_subrange_at(s, i, p, 0);
        lemma_print_nat_digits((m / 1000) as nat);
        assert(p[0] == spec_print_nat((m / 1000) as nat)[0]);
        assert(dec_val(p[0]) < 10);
        assert(s[i] != '-') by {
            assert(dec_val(s[i + 0]) < 10);
        }
    }
}

/// The magnitude form of [`lemma_parse_hours_of_print`].
proof fn lemma_parse_hours_mag_of_print(s: Seq<char>, i: int, m: int)
    requires
        0 <= i,
        0 <= m < 1_000_000_000_000_000_000,
        i + spec_print_hours_mag(m).len() <= s.len(),
        s.subrange(i, i + spec_print_hours_mag(m).len() as int) == spec_print_hours_mag(m),
        i + spec_print_hours_mag(m).len() == s.len() || (dec_val(
            s[i + spec_print_hours_mag(m).len()],
        ) >= 10 && s[i + spec_print_hours_mag(m).len()] != '.'),
    ensures
        spec_parse_hours_mag(s, i) == Some((m, i + spec_print_hours_mag(m).len() as int)),
{
    lemma_pow10_15();
    let ip = (m / 1000) as nat;
    let f = m % 1000;
    let pn = spec_print_nat(ip);
    let pf = spec_print_frac(f);
    let p = spec_print_hours_mag(m);
    assert(p == pn + seq!['.'] + pf);
    assert(ip < pow10(15)) by {
        vstd::arithmetic::div_mod::lemma_multiply_divide_lt(m, 1000, pow10(15) as int);
    }
    lemma_print_nat_digits(ip);
    // the integer part parses back
    lemma_subrange_shift(s, i, p, 0, pn.len() as int);
    assert(p.subrange(0, pn.len() as int) =~= pn);
    lemma_subrange_at(s, i, p, pn.len() as int);
    assert(s[i + pn.len()] == '.');
    lemma_parse_nat_of_print(s, i, ip);
    assert(spec_parse_nat(s, i) == Some((ip, i + pn.len() as int)));
    // the fraction digits and their value
    let d1 = f / 100;
    let d2 = (f / 10) % 10;
    let d3 = f % 10;
    vstd::arithmetic::div_mod::lemma_mod_division_less_than_divisor(m, 1000);
    assert(0 <= f < 1000);
    vstd::arithmetic::div_mod::lemma_fundamental_div_mod(f, 10);
    vstd::arithmetic::div_mod::lemma_fundamental_div_mod(f / 10, 10);
    vstd::arithmetic::div_mod::lemma_div_denominator(f, 10, 10);
    vstd::arithmetic::div_mod::lemma_div_pos_is_pos(f, 10);
    vstd::arithmetic::div_mod::lemma_div_pos_is_pos(f, 100);
    vstd::arithmetic::div_mod::lemma_mod_division_less_than_divisor(f, 10);
    vstd::arithmetic::div_mod::lemma_mod_division_less_than_divisor(f / 10, 10);
    assert(d1 < 10) by {
        vstd::arithmetic::div_mod::lemma_multiply_divide_lt(f, 100, 10);
    }
    assert(0 <= d1 < 10 && 0 <= d2 < 10 && 0 <= d3 < 10);
    assert(dec_val(dec_char(d1)) == d1);
    assert(dec_val(dec_char(d2)) == d2);
    assert(dec_val(dec_char(d3)) == d3);
    assert(value_of_digits(Seq::<char>::empty()) == 0);
    assert(seq![dec_char(d1)].drop_last() =~= Seq::<char>::empty());
    assert(seq![dec_char(d1)].last() == dec_char(d1));
    assert(value_of_digits(seq![dec_char(d1)]) == d1);
    assert(seq![dec_char(d1), dec_char(d2)].drop_last() =~= seq![dec_char(d1)]);
    assert(seq![dec_char(d1), dec_char(d2)].last() == dec_char(d2));
    assert(value_of_digits(seq![dec_char(d1), dec_char(d2)]) == d1 * 10 + d2);
    assert(seq![dec_char(d1), dec_char(d2), dec_char(d3)].drop_last() =~= seq![
        dec_char(d1),
        dec_char(d2),
    ]);
    assert(seq![dec_char(d1), dec_char(d2), dec_char(d3)].last() == dec_char(d3));
    assert(value_of_digits(seq![dec_char(d1), dec_char(d2), dec_char(d3)]) == (d1 * 10 + d2) * 10
        + d3);
    assert(f == d1 * 100 + d2 * 10 + d3);
    let fstart = i + pn.len() + 1;
    lemma_subrange_shift(s, i, p, pn.len() as int + 1, p.len() as int);
    assert(p.subrange(pn.len() as int + 1, p.len() as int) =~= pf);
    assert(forall|k: int| 0 <= k < pf.len() ==> dec_val(pf[k]) < 10);
    assert forall|k: int| fstart <= k < fstart + pf.len() implies dec_val(s[k]) < 10 by {
        lemma_subrange_at(s, fstart, pf, k - fstart);
    }
    assert(fstart + pf.len() == i + p.len());
    lemma_digit_run_exact(s, fstart, fstart + pf.len() as int);
    // the parsed fraction value matches
    let frac = s.subrange(fstart, fstart + pf.len() as int);
    assert(frac =~= pf);
    if f % 10 != 0 {
        assert(pf =~= seq![dec_char(d1), dec_char(d2), dec_char(d3)]);
        assert(pf.drop_last() =~= seq![dec_char(d1), dec_char(d2)]);
        assert(pf.drop_last().drop_last() =~= seq![dec_char(d1)]);
        assert(pf.drop_last().drop_last().drop_last() =~= Seq::<char>::empty());
        assert(value_of_digits(pf) == d1 * 100 + d2 * 10 + d3);
        assert(value_of_digits(frac) * 1 == f);
    } else if (f / 10) % 10 != 0 {
        assert(pf =~= seq![dec_char(d1), dec_char(d2)]);
        assert(pf.drop_last() =~= seq![dec_char(d1)]);
        assert(pf.drop_last().drop_last() =~= Seq::<char>::empty());
        assert(value_of_digits(pf) == d1 * 10 + d2);
        assert(value_of_digits(frac) * 10 == f);
    } else {
        assert(pf =~= seq![dec_char(d1)]);
        assert(pf.drop_last() =~= Seq::<char>::empty());
        assert(value_of_digits(pf) == d1);
        assert(value_of_digits(frac) * 100 == f);
    }
    vstd::arithmetic::div_mod::lemma_fundamental_div_mod(m, 1000);
    assert(ip * 1000 + f == m);
}

/// The ten-character rendering of a date.
pub open spec fn spec_print_date(d: Date) -> Seq<char> {
    spec_print_fixed(d.year as nat, 4) + seq!['-'] + spec_print_fixed(d.month as nat, 2)
        + seq!['-'] + spec_print_fixed(d.day as nat, 2)
}

/// Parse a `YYYY-MM-DD` date; only real calendar days are accepted.
pub open spec fn spec_parse_date(s: Seq<char>, i: int) -> Option<(Date, int)> {
    match spec_parse_fixed(s, i, 4) {
        None => None,
        Some((y, j1)) => if j1 < s.len() && s[j1] == '-' {
            match spec_parse_fixed(s, j1 + 1, 2) {
                None => None,
                Some((mo, j2)) => if j2 < s.len() && s[j2] == '-' {
                    match spec_parse_fixed(s, j2 + 1, 2) {
                        None => None,
                        Some((dy, j3)) => {
                            let d = Date { year: y as u32, month: mo as u32, day: dy as u32 };
                            if d.spec_valid() {
                                Some((d, j3))
                            } else {
                                None
                            }
                        },
                    }
                } else {
                    None
                },
            }
        } else {
            None
        },
    }
}

/// Parsing a printed date gives the date back.
pub proof fn lemma_parse_date_of_print(s: Seq<char>, i: int, d: Date)
    requires
        0 <= i,
        d.spec_valid(),
        i + 10 <= s.len(),
        s.subrange(i, i + 10) == spec_print_date(d),
    ensures
        spec_parse_date(s, i) == Some((d, i + 10)),
{
    lemma_pow10_15();
    let p = spec_print_date(d);
    lemma_print_fixed_digits(d.year as nat, 4);
    lemma_print_fixed_digits(d.month as nat, 2);
    lemma_print_fixed_digits(d.day as nat, 2);
    assert(p.len() == 10);
    lemma_subrange_shift(s, i, p, 0, 4);
    assert(p.subrange(0, 4) =~= spec_print_fixed(d.year as nat, 4));
    lemma_parse_fixed_of_print(s, i, d.year as nat, 4);
    lemma_subrange_at(s, i, p, 4);
    assert(s[i + 4] == '-');
    lemma_subrange_shift(s, i, p, 5, 7);
    assert(p.subrange(5, 7) =~= spec_print_fixed(d.month as nat, 2));
    lemma_parse_fixed_of_print(s, i + 5, d.month as nat, 2);
    lemma_subrange_at(s, i, p, 7);
    assert(s[i + 7] == '-');
    lemma_subrange_shift(s, i, p, 8, 10);
    assert(p.subrange(8, 10) =~= spec_print_fixed(d.day as nat, 2));
    lemma_parse_fixed_of_print(s, i + 8, d.day as nat, 2);
    assert(spec_parse_fixed(s, i, 4) == Some((d.year as nat, i + 4)));
    assert(spec_parse_fixed(s, i + 5, 2) == Some((d.month as nat, i + 7)));
    assert(spec_parse_fixed(s, i + 8, 2) == Some((d.day as nat, i + 10)));
    assert((d.year as nat) as u32 == d.year);
    assert((d.month as nat) as u32 == d.month);
    assert((d.day as nat) as u32 == d.day);
}

/// The quoted identifier rendering.
pub open spec fn spec_print_idq(id: RecordId) -> Seq<char> {
    seq!['"'] + spec_encode_id(id.bits) + seq!['"']
}

/// Parse a quoted 26-character identifier.
pub open spec fn spec_parse_idq(s: Seq<char>, i: int) -> Option<(RecordId, int)> {
    if 0 <= i && i + 28 <= s.len() && s[i] == '"' && s[i + 27] == '"' {
        match spec_parse_id(s.subrange(i + 1, i + 27)) {
            Some(r) => Some((r, i + 28)),
            None => None,
        }
    } else {
        None
    }
}

/// Parsing a printed identifier gives the identifier back.
pub proof fn lemma_parse_idq_of_print(s: Seq<char>, i: int, id: RecordId)
    requires
        0 <= i,
        i + 28 <= s.len(),
        s.subrange(i, i + 28) == spec_print_idq(id),
    ensures
        spec_parse_idq(s, i) == Some((id, i + 28)),
{
    let p = spec_print_idq(id);
    crate::ident::lemma_id_round_trip(id);
    assert(p.len() == 28);
    lemma_subrange_at(s, i, p, 0);
    lemma_subrange_at(s, i, p, 27);
    assert(s[i] == '"');
    assert(s[i + 27] == '"');
    lemma_subrange_shift(s, i, p, 1, 27);
    assert(p.subrange(1, 27) =~= spec_encode_id(id.bits));
    assert(s.subrange(i + 1, i + 27) =~= spec_encode_id(id.bits));
}

// ---------------------------------------------------------------------------
// categories and notes
// ---------------------------------------------------------------------------

/// The rendering of an absence category: a quoted variant name, or an object
/// with an `Other` key carrying the free-text label.
pub open spec fn spec_print_type(t: crate::record::AbsenceKindView) -> Seq<char> {
    match t {
        crate::record::AbsenceKindView::Vacation => "\"Vacation\""@,
        crate::record::AbsenceKindView::Sick => "\"Sick\""@,
        crate::record::AbsenceKindView::OvertimeReduction => "\"OvertimeReduction\""@,
        crate::record::AbsenceKindView::Holiday => "\"Holiday\""@,
        crate::record::AbsenceKindView::Other(lbl) => "{ \"Other\": "@ + spec_print_jstring(lbl)
            + " }"@,
    }
}

/// Parse an absence category.
pub open spec fn spec_parse_type(s: Seq<char>, i: int) -> Option<
    (crate::record::AbsenceKindView, int),
> {
    if spec_parse_lit(s, i, "\"Vacation\""@) is Some {
        Some((crate::record::AbsenceKindView::Vacation, i + "\"Vacation\""@.len() as int))
    } else if spec_parse_lit(s, i, "\"Sick\""@) is Some {
        Some((crate::record::AbsenceKindView::Sick, i + "\"Sick\""@.len() as int))
    } else if spec_parse_lit(s, i, "\"OvertimeReduction\""@) is Some {
        Some(
            (
                crate::record::AbsenceKindView::OvertimeReduction,
                i + "\"OvertimeReduction\""@.len() as int,
            ),
        )
    } else if spec_parse_lit(s, i, "\"Holiday\""@) is Some {
        Some((crate::record::AbsenceKindView::Holiday, i + "\"Holiday\""@.len() as int))
    } else if 0 <= i < s.len() && s[i] == '{' {
        let j1 = skip_ws(s, i + 1);
        match spec_parse_lit(s, j1, "\"Other\""@) {
            None => None,
            Some(j2) => {
                let j3 = skip_ws(s, j2);
                if j3 < s.len() && s[j3] == ':' {
                    let j4 = skip_ws(s, j3 + 1);
                    match spec_parse_jstring(s, j4) {
                        None => None,
                        Some((lbl, j5)) => {
                            let j6 = skip_ws(s, j5);
                            if j6 < s.len() && s[j6] == '}' {
                                Some((crate::record::AbsenceKindView::Other(lbl), j6 + 1))
                            } else {
                                None
                            }
                        },
                    }
                } else {
                    None
                }
            },
        }
    } else {
        None
    }
}

/// The rendering of an optional note: `null` or a quoted string.
pub open spec fn spec_print_note(n: Option<Seq<char>>) -> Seq<char> {
    match n {
        None => "null"@,
        Some(t) => spec_print_jstring(t),
    }
}

/// Parse an optional note.
pub open spec fn spec_parse_note(s: Seq<char>, i: int) -> Option<(Option<Seq<char>>, int)> {
    match spec_parse_lit(s, i, "null"@) {
        Some(j) => Some((None, j)),
        None => match spec_parse_jstring(s, i) {
            Some((t, j)) => Some((Some(t), j)),
            None => None,
        },
    }
}

/// Parsing a printed category gives the category back.
pub proof fn lemma_parse_type_of_print(s: Seq<char>, i: int, t: crate::record::AbsenceKindView)
    requires
        0 <= i,
        i + spec_print_type(t).len() <= s.len(),
        s.subrange(i, i + spec_print_type(t).len() as int) == spec_print_type(t),
    ensures
        spec_parse_type(s, i) == Some((t, i + spec_print_type(t).len() as int)),
{
    reveal_strlit("\"Vacation\"");
    reveal_strlit("\"Sick\"");
    reveal_strlit("\"OvertimeReduction\"");
    reveal_strlit("\"Holiday\"");
    reveal_strlit("{ \"Other\": ");
    reveal_strlit(" }");
    reveal_strlit("\"Other\"");
    let p = spec_print_type(t);
    match t {
        crate::record::AbsenceKindView::Vacation => {
            assert(s.subrange(i, i + 10) =~= "\"Vacation\""@);
        },
        crate::record::AbsenceKindView::Sick => {
            lemma_subrange_at(s, i, p, 1);
            assert(s[i + 1] == 'S');
            if i + 10 <= s.len() {
                assert(s.subrange(i, i + 10)[1] == s[i + (1)]);
                assert(spec_parse_lit(s, i, "\"Vacation\""@) is None);
            }
            assert(s.subrange(i, i + 6) =~= "\"Sick\""@);
        },
        crate::record::AbsenceKindView::OvertimeReduction => {
            lemma_subrange_at(s, i, p, 1);
            assert(s[i + 1] == 'O');
            if i + 10 <= s.len() {
                assert(s.subrange(i, i + 10)[1] == s[i + (1)]);
                assert(spec_parse_lit(s, i, "\"Vacation\""@) is None);
            }
            if i + 6 <= s.len() {
                assert(s.subrange(i, i + 6)[1] == s[i + (1)]);
                assert(spec_parse_lit(s, i, "\"Sick\""@) is None);
            }
            assert(s.subrange(i, i + 19) =~= "\"OvertimeReduction\""@);
        },
        crate::record::AbsenceKindView::Holiday => {
            lemma_subrange_at(s, i, p, 1);
            assert(s[i + 1] == 'H');
            if i + 10 <= s.len() {
                assert(s.subrange(i, i + 10)[1] == s[i + (1)]);
                assert(spec_parse_lit(s, i, "\"Vacation\""@) is None);
            }
            if i + 6 <= s.len() {
                assert(s.subrange(i, i + 6)[1] == s[i + (1)]);
                assert(spec_parse_lit(s, i, "\"Sick\""@) is None);
            }
            if i + 19 <= s.len() {
                assert(s.subrange(i, i + 19)[1] == s[i + (1)]);
                assert(spec_parse_lit(s, i, "\"OvertimeReduction\""@) is None);
            }
            assert(s.subrange(i, i + 9) =~= "\"Holiday\""@);
        },
        crate::record::AbsenceKindView::Other(lbl) => {
            let pj = spec_print_jstring(lbl);
            let jl = pj.len() as int;
            assert(p.len() == 13 + jl);
            lemma_subrange_at(s, i, p, 0);
            assert(s[i] == '{');
            if i + 10 <= s.len() {
                assert(s.subrange(i, i + 10)[0] == s[i + (0)]);
                assert(spec_parse_lit(s, i, "\"Vacation\""@) is None);
            }
            if i + 6 <= s.len() {
                assert(s.subrange(i, i + 6)[0] == s[i + (0)]);
                assert(spec_parse_lit(s, i, "\"Sick\""@) is None);
            }
            if i + 19 <= s.len() {
                assert(s.subrange(i, i + 19)[0] == s[i + (0)]);
                assert(spec_parse_lit(s, i, "\"OvertimeReduction\""@) is None);
            }
            if i + 9 <= s.len() {
                assert(s.subrange(i, i + 9)[0] == s[i + (0)]);
                assert(spec_parse_lit(s, i, "\"Holiday\""@) is None);
            }
            // "{ \"Other\": " is 11 characters; walk the fixed tokens
            lemma_subrange_at(s, i, p, 1);
            lemma_subrange_at(s, i, p, 2);
            assert(s[i + 1] == ' ' && s[i + 2] == '"');
            lemma_skip_ws_exact(s, i + 1, i + 2);
            assert(s.subrange(i + 2, i + 9) =~= "\"Other\""@) by {
                lemma_subrange_shift(s, i, p, 2, 9);
                assert(p.subrange(2, 9) =~= "\"Other\""@);
            }
            assert(spec_parse_lit(s, i + 2, "\"Other\""@) == Some(i + 9));
            lemma_subrange_at(s, i, p, 9);
            assert(s[i + 9] == ':');
            lemma_skip_ws_exact(s, i + 9, i + 9);
            lemma_subrange_at(s, i, p, 10);
            lemma_subrange_at(s, i, p, 11);
            assert(s[i + 10] == ' ' && s[i + 11] == '"');
            lemma_skip_ws_exact(s, i + 10, i + 11);
            lemma_subrange_shift(s, i, p, 11, 11 + jl);
            assert(p.subrange(11, 11 + jl) =~= pj);
            lemma_parse_jstring_of_print(s, i + 11, lbl);
            lemma_subrange_at(s, i, p, 11 + jl);
            lemma_subrange_at(s, i, p, 12 + jl);
            assert(s[i + (11 + jl)] == ' ' && s[i + (12 + jl)] == '}');
            lemma_skip_ws_exact(s, i + 11 + jl, i + 12 + jl);
            assert(spec_parse_type(s, i) == Some(
                (crate::record::AbsenceKindView::Other(lbl), i + 13 + jl),
            ));
        },
    }
}

/// Parsing a printed note gives the note back.
pub proof fn lemma_parse_note_of_print(s: Seq<char>, i: int, n: Option<Seq<char>>)
    requires
        0 <= i,
        i + spec_print_note(n).len() <= s.len(),
        s.subrange(i, i + spec_print_note(n).len() as int) == spec_print_note(n),
    ensures
        spec_parse_note(s, i) == Some((n, i + spec_print_note(n).len() as int)),
{
    reveal_strlit("null");
    let p = spec_print_note(n);
    match n {
        None => {
            assert(s.subrange(i, i + 4) =~= "null"@);
        },
        Some(t) => {
            lemma_subrange_at(s, i, p, 0);
            assert(s[i] == '"');
            if i + 4 <= s.len() {
                assert(s.subrange(i, i + 4)[0] == s[i + (0)]);
                assert(spec_parse_lit(s, i, "null"@) is None);
            }
            lemma_parse_jstring_of_print(s, i, t);
        },
    }
}

// ---------------------------------------------------------------------------
// executable field scanners and emitters
// ---------------------------------------------------------------------------

/// Parse a `YYYY-MM-DD` date.
fn scan_date(s: &Vec<char>, i: usize) -> (r: Option<(Date, usize)>)
    requires
        i <= s@.len(),
    ensures
        match r {
            Some((d, j)) => spec_parse_date(s@, i as int) == Some((d, j as int)) && i < j
                <= s@.len(),
            None => spec_parse_date(s@, i as int) is None,
        },
{
    proof {
        lemma_pow10_15();
    }
    match scan_fixed(s, i, 4) {
        None => None,
        Some((y, j1)) => {
            proof {
                lemma_value_of_digits_bound(s@.subrange(i as int, i + 4));
            }
            if j1 < s.len() && s[j1] == '-' {
                match scan_fixed(s, j1 + 1, 2) {
                    None => None,
                    Some((mo, j2)) => {
                        proof {
                            lemma_value_of_digits_bound(s@.subrange(j1 + 1, j1 + 3));
                        }
                        if j2 < s.len() && s[j2] == '-' {
                            match scan_fixed(s, j2 + 1, 2) {
                                None => None,
                                Some((dy, j3)) => {
                                    proof {
                                        lemma_value_of_digits_bound(
                                            s@.subrange(j2 + 1, j2 + 3),
                                        );
                                    }
                                    let d = Date {
                                        year: y as u32,
                                        month: mo as u32,
                                        day: dy as u32,
                                    };
                                    if d.valid() {
                                        Some((d, j3))
                                    } else {
                                        None
                                    }
                                },
                            }
                        } else {
                            None
                        }
                    },
                }
            } else {
                None
            }
        },
    }
}

/// Parse a quoted identifier.
fn scan_idq(s: &Vec<char>, i: usize) -> (r: Option<(RecordId, usize)>)
    requires
        i <= s@.len(),
    ensures
        match r {
            Some((id, j)) => spec_parse_idq(s@, i as int) == Some((id, j as int)) && i < j
                <= s@.len(),
            None => spec_parse_idq(s@, i as int) is None,
        },
{
    if s.len() - i < 28 {
        proof {
            assert(i + 28 > s@.len());
        }
        return None;
    }
    if s[i] != '"' || s[i + 27] != '"' {
        return None;
    }
    let mut mid: Vec<char> = Vec::new();
    let mut k: usize = 0;
    proof {
        assert(mid@ =~= s@.subrange(i + 1, i + 1));
    }
    while k < 26
        invariant
            k <= 26,
            i + 28 <= s.len(),
            i + 28 <= s@.len(),
            mid@ == s@.subrange(i + 1, i + 1 + k),
        decreases 26 - k,
    {
        mid.push(s[i + 1 + k]);
        proof {
            assert(mid@ =~= s@.subrange(i + 1, i + 1 + (k + 1)));
        }
        k += 1;
    }
    proof {
        assert(mid@ =~= s@.subrange(i + 1, i + 27));
    }
    match RecordId::parse_chars(&mid) {
        Some(id) => Some((id, i + 28)),
        None => None,
    }
}

/// Parse a non-negative hours value into thousandths.
fn scan_hours_mag(s: &Vec<char>, i: usize) -> (r: Option<(i64, usize)>)
    requires
        i <= s@.len(),
    ensures
        match r {
            Some((m, j)) => spec_parse_hours_mag(s@, i as int) == Some((m as int, j as int)) && i
                < j <= s@.len() && m >= 0,
            None => spec_parse_hours_mag(s@, i as int) is None,
        },
{
    proof {
        lemma_pow10_15();
    }
    match scan_nat(s, i) {
        None => None,
        Some((ip, j)) => {
            proof {
                lemma_digit_run_bounds(s@, i as int);
                lemma_value_of_digits_bound(s@.subrange(i as int, j as int));
                lemma_pow10_monotone((j - i) as nat, 15);
                assert((ip as nat) < pow10(15));
            }
            if j < s.len() && s[j] == '.' {
                let mut k: usize = j + 1;
                while k < s.len() && dec_val_of(s[k]) < 10
                    invariant
                        j + 1 <= k <= s@.len(),
                        digit_run_end(s@, j + 1) == digit_run_end(s@, k as int),
                        forall|q: int| j + 1 <= q < k ==> dec_val(s@[q]) < 10,
                    decreases s@.len() - k,
                {
                    k += 1;
                }
                proof {
                    assert(digit_run_end(s@, k as int) == k);
                }
                let w = k - (j + 1);
                if w < 1 || w > 3 {
                    return None;
                }
                match scan_fixed(s, j + 1, w) {
                    None => {
                        proof {
                            assert(all_digits(s@.subrange(j + 1, j + 1 + w as int))) by {
                                assert(forall|q: int| 0 <= q < w ==> dec_val(
                                    #[trigger] s@.subrange(j + 1, j + 1 + w as int)[q],
                                ) < 10);
                            }
                            assert(false);
                        }
                        None
                    },
                    Some((fv, _j2)) => {
                        proof {
                            lemma_value_of_digits_bound(s@.subrange(j + 1, j + 1 + w as int));
                            lemma_pow10_monotone(w as nat, 3);
                            assert(pow10(3) == 1000) by {
                                reveal_with_fuel(pow10, 4);
                            }
                            assert((fv as nat) < 1000);
                        }
                        let scale: u64 = if w == 1 {
                            100
                        } else if w == 2 {
                            10
                        } else {
                            1
                        };
                        proof {
                            assert(ip * 1000 <= (pow10(15) - 1) * 1000) by (nonlinear_arith)
                                requires
                                    (ip as nat) <= pow10(15) - 1,
                            ;
                            assert(fv * scale < 1000) by (nonlinear_arith)
                                requires
                                    (w == 1 && fv < 10 && scale == 100) || (w == 2 && fv < 100
                                        && scale == 10) || (w == 3 && fv < 1000 && scale == 1),
                            ;
                        }
                        let milli: u64 = ip * 1000 + fv * scale;
                        Some((milli as i64, k))
                    },
                }
            } else {
                proof {
                    assert(ip * 1000 <= (pow10(15) - 1) * 1000) by (nonlinear_arith)
                        requires
                            (ip as nat) <= pow10(15) - 1,
                    ;
                }
                Some(((ip * 1000) as i64, j))
            }
        },
    }
}

/// Parse an hours value, with an optional leading minus sign, into
/// thousandths.
fn scan_hours(s: &Vec<char>, i: usize) -> (r: Option<(i64, usize)>)
    requires
        i <= s@.len(),
    ensures
        match r {
            Some((m, j)) => spec_parse_hours(s@, i as int) == Some((m as int, j as int)) && i < j
                <= s@.len(),
            None => spec_parse_hours(s@, i as int) is None,
        },
{
    if i < s.len() && s[i] == '-' {
        match scan_hours_mag(s, i + 1) {
            Some((m, j)) => Some((-m, j)),
            None => None,
        }
    } else {
        scan_hours_mag(s, i)
    }
}

/// Parse an absence category.
fn scan_type(s: &Vec<char>, i: usize) -> (r: Option<(AbsenceType, usize)>)
    requires
        i <= s@.len(),
    ensures
        match r {
            Some((t, j)) => spec_parse_type(s@, i as int) == Some((t@, j as int)) && i < j
                <= s@.len(),
            None => spec_parse_type(s@, i as int) is None,
        },
{
    if let Some(j) = scan_lit(s, i, "\"Vacation\"") {
        proof {
            reveal_strlit("\"Vacation\"");
        }
        return Some((AbsenceType::Vacation, j));
    }
    if let Some(j) = scan_lit(s, i, "\"Sick\"") {
        proof {
            reveal_strlit("\"Sick\"");
        }
        return Some((AbsenceType::Sick, j));
    }
    if let Some(j) = scan_lit(s, i, "\"OvertimeReduction\"") {
        proof {
            reveal_strlit("\"OvertimeReduction\"");
        }
        return Some((AbsenceType::OvertimeReduction, j));
    }
    if let Some(j) = scan_lit(s, i, "\"Holiday\"") {
        proof {
            reveal_strlit("\"Holiday\"");
        }
        return Some((AbsenceType::Holiday, j));
    }
    if i < s.len() && s[i] == '{' {
        let j1 = scan_ws(s, i + 1);
        match scan_lit(s, j1, "\"Other\"") {
            None => None,
            Some(j2) => {
                let j3 = scan_ws(s, j2);
                if j3 < s.len() && s[j3] == ':' {
                    let j4 = scan_ws(s, j3 + 1);
                    match scan_jstring(s, j4) {
                        None => None,
                        Some((lbl, j5)) => {
                            let j6 = scan_ws(s, j5);
                            if j6 < s.len() && s[j6] == '}' {
                                Some((AbsenceType::Other(lbl), j6 + 1))
                            } else {
                                None
                            }
                        },
                    }
                } else {
                    None
                }
            },
        }
    } else {
        None
    }
}

/// Parse an optional note.
fn scan_note(s: &Vec<char>, i: usize) -> (r: Option<(Option<String>, usize)>)
    requires
        i <= s@.len(),
    ensures
        match r {
            Some((n, j)) => spec_parse_note(s@, i as int) == Some((n.deep_view(), j as int)) && i
                < j <= s@.len(),
            None => spec_parse_note(s@, i as int) is None,
        },
{
    match scan_lit(s, i, "null") {
        Some(j) => {
            proof {
                reveal_strlit("null");
            }
            Some((None, j))
        },
        None => match scan_jstring(s, i) {
            Some((t, j)) => Some((Some(t), j)),
            None => None,
        },
    }
}

/// Append a printed date.
pub(crate) fn emit_date(out: &mut Vec<char>, d: Date)
    ensures
        final(out)@ == old(out)@ + spec_print_date(d),
{
    emit_fixed(out, d.year as u64, 4);
    out.push('-');
    emit_fixed(out, d.month as u64, 2);
    out.push('-');
    emit_fixed(out, d.day as u64, 2);
    proof {
        assert(out@ =~= old(out)@ + spec_print_date(d));
    }
}

/// Append a quoted identifier.
fn emit_idq(out: &mut Vec<char>, id: RecordId)
    ensures
        final(out)@ == old(out)@ + spec_print_idq(id),
{
    out.push('"');
    let mut mid = id.encode_chars();
    out.append(&mut mid);
    out.push('"');
    proof {
        assert(out@ =~= old(out)@ + spec_print_idq(id));
    }
}

/// Append a printed hours value.
pub(crate) fn emit_hours(out: &mut Vec<char>, m: i64)
    requires
        -1_000_000_000_000_000_000 < m < 1_000_000_000_000_000_000,
    ensures
        final(out)@ == old(out)@ + spec_print_hours(m as int),
{
    if m < 0 {
        out.push('-');
    }
    let magu: u64 = if m < 0 {
        (-m) as u64
    } else {
        m as u64
    };
    let ip: u64 = magu / 1000;
    emit_nat(out, ip);
    out.push('.');
    let f: u64 = magu % 1000;
    proof {
        vstd::arithmetic::div_mod::lemma_mod_division_less_than_divisor(magu as int, 1000);
        vstd::arithmetic::div_mod::lemma_multiply_divide_lt(f as int, 100, 10);
        vstd::arithmetic::div_mod::lemma_mod_division_less_than_divisor(f as int, 10);
        vstd::arithmetic::div_mod::lemma_mod_division_less_than_divisor(f as int / 10, 10);
    }
    let d1: u8 = (f / 100) as u8;
    let d2: u8 = ((f / 10) % 10) as u8;
    let d3: u8 = (f % 10) as u8;
    out.push(dec_char_of(d1));
    if f % 10 != 0 {
        out.push(dec_char_of(d2));
        out.push(dec_char_of(d3));
    } else if (f / 10) % 10 != 0 {
        out.push(dec_char_of(d2));
    }
    proof {
        let mi = m as int;
        let mag: int = if mi < 0 {
            -mi
        } else {
            mi
        };
        assert(magu as int == mag);
        assert(ip as nat == (mag / 1000) as nat);
        assert(f as int == mag % 1000);
        if mi < 0 {
            assert(out@ =~= old(out)@ + (seq!['-'] + spec_print_hours_mag(-mi)));
        } else {
            assert(out@ =~= old(out)@ + spec_print_hours_mag(mi));
        }
    }
}

/// Append a printed absence category.
fn emit_type(out: &mut Vec<char>, t: &AbsenceType)
    ensures
        final(out)@ == old(out)@ + spec_print_type(t@),
{
    match t {
        AbsenceType::Vacation => emit_str(out, "\"Vacation\""),
        AbsenceType::Sick => emit_str(out, "\"Sick\""),
        AbsenceType::OvertimeReduction => emit_str(out, "\"OvertimeReduction\""),
        AbsenceType::Holiday => emit_str(out, "\"Holiday\""),
        AbsenceType::Other(lbl) => {
            emit_str(out, "{ \"Other\": ");
            emit_jstring(out, lbl.as_str());
            emit_str(out, " }");
            proof {
                assert(out@ =~= old(out)@ + spec_print_type(t@));
            }
        },
    }
}

/// Append a printed note.
fn emit_note(out: &mut Vec<char>, n: &Option<String>)
    ensures
        final(out)@ == old(out)@ + spec_print_note(n.deep_view()),
{
    match n {
        None => emit_str(out, "null"),
        Some(t) => emit_jstring(out, t.as_str()),
    }
}

// ---------------------------------------------------------------------------
// whole records
// ---------------------------------------------------------------------------

/// The rendering of one record, indented for a two-space-indented array.
pub open spec fn spec_print_record(rv: AbsenceRecordView) -> Seq<char> {
    "{\n    \"id\": "@ + spec_print_idq(rv.id) + ",\n    \"date\": \""@ + spec_print_date(rv.date)
        + "\",\n    \"hours\": "@ + spec_print_hours(rv.hours) + ",\n    \"absence_type\": "@
        + spec_print_type(rv.absence_type) + ",\n    \"note\": "@ + spec_print_note(rv.note)
        + "\n  }"@
}

/// Skip whitespace, match a quoted key, skip whitespace, match a colon, and
/// skip whitespace; yields the position of the value.
pub open spec fn spec_parse_key(s: Seq<char>, i: int, name: Seq<char>) -> Option<int> {
    match spec_parse_lit(s, skip_ws(s, i), name) {
        None => None,
        Some(j) => {
            let j2 = skip_ws(s, j);
            if j2 < s.len() && s[j2] == ':' {
                Some(skip_ws(s, j2 + 1))
            } else {
                None
            }
        },
    }
}

/// Skip whitespace and match a comma; yields the position after it.
pub open spec fn spec_parse_comma(s: Seq<char>, i: int) -> Option<int> {
    let j = skip_ws(s, i);
    if j < s.len() && s[j] == ',' {
        Some(j + 1)
    } else {
        None
    }
}

/// Parse one record object: the five fields in order, each introduced by its
/// quoted key.
#[verifier::opaque]
pub open spec fn spec_parse_record(s: Seq<char>, i: int) -> Option<(AbsenceRecordView, int)> {
    if !(0 <= i < s.len() && s[i] == '{') {
        None
    } else {
        match spec_parse_key(s, i + 1, "\"id\""@) {
            None => None,
            Some(p1) => match spec_parse_idq(s, p1) {
                None => None,
                Some((id, q1)) => match spec_parse_comma(s, q1) {
                    None => None,
                    Some(c1) => match spec_parse_key(s, c1, "\"date\""@) {
                        None => None,
                        Some(p2) => if p2 < s.len() && s[p2] == '"' {
                            match spec_parse_date(s, p2 + 1) {
                                None => None,
                                Some((d, q2)) => if q2 < s.len() && s[q2] == '"' {
                                    match spec_parse_comma(s, q2 + 1) {
                                        None => None,
                                        Some(c2) => match spec_parse_key(s, c2, "\"hours\""@) {
                                            None => None,
                                            Some(p3) => match spec_parse_hours(s, p3) {
                                                None => None,
                                                Some((h, q3)) => match spec_parse_comma(s, q3) {
                                                    None => None,
                                                    Some(c3) => match spec_parse_key(
                                                        s,
                                                        c3,
                                                        "\"absence_type\""@,
                                                    ) {
                                                        None => None,
                                                        Some(p4) => match spec_parse_type(s, p4) {
                                                            None => None,
                                                            Some((t, q4)) => match spec_parse_comma(
                                                                s,
                                                                q4,
                                                            ) {
                                                                None => None,
                                                                Some(c4) => match spec_parse_key(
                                                                    s,
                                                                    c4,
                                                                    "\"note\""@,
                                                                ) {
                                                                    None => None,
                                                                    Some(p5) => match
                                                                    spec_parse_note(s, p5) {
                                                                        None => None,
                                                                        Some((n, q5)) => {
                                                                            let e = skip_ws(s, q5);
                                                                            if e < s.len() && s[e]
                                                                                == '}' {
                                                                                Some(
                                                                                    (
                                                                                        AbsenceRecordView {
                                                                                            id,
                                                                                            date: d,
                                                                                            hours: h,
                                                                                            absence_type:
                                                                                                t,
                                                                                            note: n,
                                                                                        },
                                                                                        e + 1,
                                                                                    ),
                                                                                )
                                                                            } else {
                                                                                None
                                                                            }
                                                                        },
                                                                    },
                                                                },
                                                            },
                                                        },
                                                    },
                                                },
                                            },
                                        },
                                    }
                                } else {
                                    None
                                },
                            }
                        } else {
                            None
                        },
                    },
                },
            },
        }
    }
}

/// Whether a record's value can be carried by the format: a real calendar
/// date and hours within the digit budget. Strings carry any characters;
/// escaping covers them all.
pub open spec fn codec_record_wf(rv: AbsenceRecordView) -> bool {
    &&& rv.date.spec_valid()
    &&& -1_000_000_000_000_000_000 < rv.hours < 1_000_000_000_000_000_000
}

/// The shape every field key takes in a printed record: a newline, four
/// spaces, the quoted name, a colon and one space, followed by the value.
proof fn lemma_key_shape(s: Seq<char>, a: int, name: Seq<char>)
    requires
        0 <= a,
        a + 7 + name.len() < s.len(),
        s[a] == '\n',
        s[a + 1] == ' ',
        s[a + 2] == ' ',
        s[a + 3] == ' ',
        s[a + 4] == ' ',
        s.subrange(a + 5, a + 5 + name.len() as int) == name,
        s[a + 5 + name.len()] == ':',
        s[a + 6 + name.len()] == ' ',
        !is_ws(s[a + 7 + name.len()]),
        !is_ws(name[0]),
    ensures
        spec_parse_key(s, a, name) == Some(a + 7 + name.len() as int),
{
    lemma_skip_ws_exact(s, a, a + 5);
    assert(spec_parse_lit(s, a + 5, name) == Some(a + 5 + name.len() as int));
    lemma_skip_ws_exact(s, a + 5 + name.len() as int, a + 5 + name.len() as int);
    lemma_skip_ws_exact(s, a + 6 + name.len() as int, a + 7 + name.len() as int);
}

/// The identifier and date fields of a printed record parse back.
#[verifier::rlimit(80)]
#[verifier::spinoff_prover]
proof fn lemma_record_pieces_head(s: Seq<char>, i: int, rv: AbsenceRecordView)
    requires
        0 <= i,
        codec_record_wf(rv),
        i + spec_print_record(rv).len() <= s.len(),
        s.subrange(i, i + spec_print_record(rv).len() as int) == spec_print_record(rv),
    ensures
        s[i] == '{',
        spec_parse_key(s, i + 1, "\"id\""@) == Some(i + 12),
        spec_parse_idq(s, i + 12) == Some((rv.id, i + 40)),
        spec_parse_comma(s, i + 40) == Some(i + 41),
        spec_parse_key(s, i + 41, "\"date\""@) == Some(i + 54),
        s[i + 54] == '"',
        spec_parse_date(s, i + 55) == Some((rv.date, i + 65)),
        s[i + 65] == '"',
        spec_parse_comma(s, i + 66) == Some(i + 67),
{
    reveal_strlit("{\n    \"id\": ");
    reveal_strlit(",\n    \"date\": \"");
    reveal_strlit("\",\n    \"hours\": ");
    reveal_strlit("\"id\"");
    reveal_strlit("\"date\"");
    let g0 = "{\n    \"id\": "@;
    let v1 = spec_print_idq(rv.id);
    let g1 = ",\n    \"date\": \""@;
    let v2 = spec_print_date(rv.date);
    let g2 = "\",\n    \"hours\": "@;
    let p = spec_print_record(rv);
    assert(g0.len() == 12 && g1.len() == 15 && g2.len() == 16);
    assert(v1.len() == 28);
    lemma_pow10_15();
    lemma_print_fixed_digits(rv.date.year as nat, 4);
    lemma_print_fixed_digits(rv.date.month as nat, 2);
    lemma_print_fixed_digits(rv.date.day as nat, 2);
    assert(v2.len() == 10);
    assert forall|k: int| 0 <= k < 12 implies #[trigger] p[k] == g0[k] by {}
    assert forall|k: int| 0 <= k < 28 implies #[trigger] p[12 + k] == v1[k] by {}
    assert forall|k: int| 0 <= k < 15 implies #[trigger] p[40 + k] == g1[k] by {}
    assert forall|k: int| 0 <= k < 10 implies #[trigger] p[55 + k] == v2[k] by {}
    assert forall|k: int| 0 <= k < 2 implies #[trigger] p[65 + k] == g2[k] by {}
    assert forall|k: int| 0 <= k < 67 implies #[trigger] s[i + k] == p[k] by {
        assert(s.subrange(i, i + p.len() as int)[k] == p[k]);
    }
    assert(s[i + 0] == '{');
    assert(s.subrange(i + 6, i + 10) =~= "\"id\""@) by {
        lemma_subrange_shift(s, i, p, 6, 10);
        assert(p.subrange(6, 10) =~= "\"id\""@);
    }
    assert(s[i + 1] == '\n' && s[i + 2] == ' ' && s[i + 3] == ' ' && s[i + 4] == ' ' && s[i + 5]
        == ' ');
    assert(s[i + 10] == ':' && s[i + 11] == ' ');
    assert(!is_ws(s[i + 12]));
    lemma_key_shape(s, i + 1, "\"id\""@);
    lemma_subrange_shift(s, i, p, 12, 40);
    assert(p.subrange(12, 40) =~= v1);
    lemma_parse_idq_of_print(s, i + 12, rv.id);
    assert(s[i + 40] == ',');
    lemma_skip_ws_exact(s, i + 40, i + 40);
    assert(spec_parse_comma(s, i + 40) == Some(i + 41));
    assert(s.subrange(i + 46, i + 52) =~= "\"date\""@) by {
        lemma_subrange_shift(s, i, p, 46, 52);
        assert(p.subrange(46, 52) =~= "\"date\""@);
    }
    assert(s[i + 41] == '\n' && s[i + 42] == ' ' && s[i + 43] == ' ' && s[i + 44] == ' ' && s[i
        + 45] == ' ');
    assert(s[i + 52] == ':' && s[i + 53] == ' ');
    assert(!is_ws(s[i + 54]));
    lemma_key_shape(s, i + 41, "\"date\""@);
    assert(s[i + 54] == '"');
    lemma_subrange_shift(s, i, p, 55, 65);
    assert(p.subrange(55, 65) =~= v2);
    lemma_parse_date_of_print(s, i + 55, rv.date);
    assert(s[i + 65] == '"');
    assert(s[i + 66] == ',');
    lemma_skip_ws_exact(s, i + 66, i + 66);
    assert(spec_parse_comma(s, i + 66) == Some(i + 67));
}

/// The hours and category fields of a printed record parse back.
#[verifier::rlimit(80)]
#[verifier::spinoff_prover]
proof fn lemma_record_pieces_mid(s: Seq<char>, i: int, rv: AbsenceRecordView)
    requires
        0 <= i,
        codec_record_wf(rv),
        i + spec_print_record(rv).len() <= s.len(),
        s.subrange(i, i + spec_print_record(rv).len() as int) == spec_print_record(rv),
    ensures
        spec_parse_key(s, i + 67, "\"hours\""@) == Some(i + 81),
        spec_parse_hours(s, i + 81) == Some(
            (rv.hours, i + 81 + spec_print_hours(rv.hours).len() as int),
        ),
        spec_parse_comma(s, i + 81 + spec_print_hours(rv.hours).len() as int) == Some(
            i + 82 + spec_print_hours(rv.hours).len() as int,
        ),
        spec_parse_key(s, i + 82 + spec_print_hours(rv.hours).len() as int, "\"absence_type\""@)
            == Some(i + 103 + spec_print_hours(rv.hours).len() as int),
        spec_parse_type(s, i + 103 + spec_print_hours(rv.hours).len() as int) == Some(
            (
                rv.absence_type,
                i + 103 + spec_print_hours(rv.hours).len() as int + spec_print_type(
                    rv.absence_type,
                ).len() as int,
            ),
        ),
{
    reveal_strlit("\",\n    \"hours\": ");
    reveal_strlit(",\n    \"absence_type\": ");
    reveal_strlit(",\n    \"note\": ");
    reveal_strlit("\"hours\"");
    reveal_strlit("\"absence_type\"");
    let g2 = "\",\n    \"hours\": "@;
    let v3 = spec_print_hours(rv.hours);
    let g3 = ",\n    \"absence_type\": "@;
    let v4 = spec_print_type(rv.absence_type);
    let g4 = ",\n    \"note\": "@;
    let p = spec_print_record(rv);
    let hl = v3.len() as int;
    let tl = v4.len() as int;
    assert(g2.len() == 16 && g3.len() == 22 && g4.len() == 14);
    reveal_strlit("{\n    \"id\": ");
    reveal_strlit(",\n    \"date\": \"");
    assert(("{\n    \"id\": "@).len() == 12);
    assert((",\n    \"date\": \""@).len() == 15);
    assert(spec_print_idq(rv.id).len() == 28);
    lemma_pow10_15();
    lemma_print_fixed_digits(rv.date.year as nat, 4);
    lemma_print_fixed_digits(rv.date.month as nat, 2);
    lemma_print_fixed_digits(rv.date.day as nat, 2);
    assert(spec_print_date(rv.date).len() == 10);
    let o5 = 81int;
    let o6 = o5 + hl;
    let o7 = o6 + 22;
    let o8 = o7 + tl;
    assert forall|k: int| 0 <= k < 16 implies #[trigger] p[65 + k] == g2[k] by {}
    assert forall|k: int| 0 <= k < hl implies #[trigger] p[o5 + k] == v3[k] by {}
    assert forall|k: int| 0 <= k < 22 implies #[trigger] p[o6 + k] == g3[k] by {}
    assert forall|k: int| 0 <= k < tl implies #[trigger] p[o7 + k] == v4[k] by {}
    assert forall|k: int| 0 <= k < 1 implies #[trigger] p[o8 + k] == g4[k] by {}
    assert forall|k: int| 0 <= k <= o8 implies #[trigger] s[i + k] == p[k] by {
        assert(s.subrange(i, i + p.len() as int)[k] == p[k]);
    }
    // the hours key
    assert(s.subrange(i + 72, i + 79) =~= "\"hours\""@) by {
        lemma_subrange_shift(s, i, p, 72, 79);
        assert(p.subrange(72, 79) =~= "\"hours\""@);
    }
    let mag: int = if rv.hours < 0 { -rv.hours } else { rv.hours };
    lemma_print_nat_digits((mag / 1000) as nat);
    assert(!is_ws(v3[0]));
    assert(s[i + 67] == '\n' && s[i + 68] == ' ' && s[i + 69] == ' ' && s[i + 70] == ' ' && s[i
        + 71] == ' ');
    assert(s[i + 79] == ':' && s[i + 80] == ' ');
    assert(p[o5 + 0] == v3[0]);
    assert(s[i + 81] == p[o5 + 0]);
    assert(!is_ws(s[i + 81]));
    lemma_key_shape(s, i + 67, "\"hours\""@);
    // the hours value, followed by a comma
    lemma_subrange_shift(s, i, p, o5, o6);
    assert(p.subrange(o5, o6) =~= v3);
    assert(s[i + (o5 + hl)] == ',');
    lemma_parse_hours_of_print(s, i + o5, rv.hours);
    assert(s[i + o6] == ',');
    lemma_skip_ws_exact(s, i + o6, i + o6);
    assert(spec_parse_comma(s, i + o6) == Some(i + o6 + 1));
    // the category key
    assert(s.subrange(i + (o6 + 6), i + (o6 + 20)) =~= "\"absence_type\""@) by {
        lemma_subrange_shift(s, i, p, o6 + 6, o6 + 20);
        assert(p.subrange(o6 + 6, o6 + 20) =~= "\"absence_type\""@);
    }
    assert(!is_ws(v4[0])) by {
        reveal_strlit("\"Vacation\"");
        reveal_strlit("\"Sick\"");
        reveal_strlit("\"OvertimeReduction\"");
        reveal_strlit("\"Holiday\"");
        reveal_strlit("{ \"Other\": ");
    }
    assert(s[i + (o6 + 1)] == '\n' && s[i + (o6 + 2)] == ' ' && s[i + (o6 + 3)] == ' ' && s[i
        + (o6 + 4)] == ' ' && s[i + (o6 + 5)] == ' ');
    lemma_subrange_at(s, i, p, o6 + 20);
    lemma_subrange_at(s, i, p, o6 + 21);
    assert(p[o6 + 20] == g3[20] && p[o6 + 21] == g3[21]);
    assert(s[i + (o6 + 20)] == ':' && s[i + (o6 + 21)] == ' ');
    assert(v4.len() >= 6) by {
        reveal_strlit("\"Vacation\"");
        reveal_strlit("\"Sick\"");
        reveal_strlit("\"OvertimeReduction\"");
        reveal_strlit("\"Holiday\"");
        reveal_strlit("{ \"Other\": ");
        reveal_strlit(" }");
    }
    assert(p[o7 + 0] == v4[0]);
    assert(s[i + (o7 + 0)] == p[o7 + 0]);
    assert(!is_ws(s[i + (o7 + 0)]));
    lemma_key_shape(s, i + o6 + 1, "\"absence_type\""@);
    // the category value
    lemma_subrange_shift(s, i, p, o7, o8);
    assert(p.subrange(o7, o8) =~= v4);
    lemma_parse_type_of_print(s, i + o7, rv.absence_type);
}

/// The note field and closing brace of a printed record parse back.
#[verifier::rlimit(80)]
#[verifier::spinoff_prover]
proof fn lemma_record_pieces_tail(s: Seq<char>, i: int, rv: AbsenceRecordView)
    requires
        0 <= i,
        codec_record_wf(rv),
        i + spec_print_record(rv).len() <= s.len(),
        s.subrange(i, i + spec_print_record(rv).len() as int) == spec_print_record(rv),
    ensures
        spec_parse_comma(
            s,
            i + 103 + spec_print_hours(rv.hours).len() as int + spec_print_type(
                rv.absence_type,
            ).len() as int,
        ) == Some(
            i + 104 + spec_print_hours(rv.hours).len() as int + spec_print_type(
                rv.absence_type,
            ).len() as int,
        ),
        spec_parse_key(
            s,
            i + 104 + spec_print_hours(rv.hours).len() as int + spec_print_type(
                rv.absence_type,
            ).len() as int,
            "\"note\""@,
        ) == Some(
            i + 117 + spec_print_hours(rv.hours).len() as int + spec_print_type(
                rv.absence_type,
            ).len() as int,
        ),
        spec_parse_note(
            s,
            i + 117 + spec_print_hours(rv.hours).len() as int + spec_print_type(
                rv.absence_type,
            ).len() as int,
        ) == Some(
            (
                rv.note,
                i + 117 + spec_print_hours(rv.hours).len() as int + spec_print_type(
                    rv.absence_type,
                ).len() as int + spec_print_note(rv.note).len() as int,
            ),
        ),
        skip_ws(
            s,
            i + 117 + spec_print_hours(rv.hours).len() as int + spec_print_type(
                rv.absence_type,
            ).len() as int + spec_print_note(rv.note).len() as int,
        ) == i + 120 + spec_print_hours(rv.hours).len() as int + spec_print_type(
            rv.absence_type,
        ).len() as int + spec_print_note(rv.note).len() as int,
        s[i + 120 + spec_print_hours(rv.hours).len() as int + spec_print_type(
            rv.absence_type,
        ).len() as int + spec_print_note(rv.note).len() as int] == '}',
        spec_print_record(rv).len() == 121 + spec_print_hours(rv.hours).len() as int
            + spec_print_type(rv.absence_type).len() as int + spec_print_note(rv.note).len() as int,
{
    reveal_strlit(",\n    \"note\": ");
    reveal_strlit("\n  }");
    reveal_strlit("\"note\"");
    let v3 = spec_print_hours(rv.hours);
    let v4 = spec_print_type(rv.absence_type);
    let g4 = ",\n    \"note\": "@;
    let v5 = spec_print_note(rv.note);
    let g5 = "\n  }"@;
    let p = spec_print_record(rv);
    let hl = v3.len() as int;
    let tl = v4.len() as int;
    let nl = v5.len() as int;
    assert(g4.len() == 14 && g5.len() == 4);
    reveal_strlit("{\n    \"id\": ");
    reveal_strlit(",\n    \"date\": \"");
    reveal_strlit("\",\n    \"hours\": ");
    reveal_strlit(",\n    \"absence_type\": ");
    assert(("{\n    \"id\": "@).len() == 12);
    assert((",\n    \"date\": \""@).len() == 15);
    assert(("\",\n    \"hours\": "@).len() == 16);
    assert((",\n    \"absence_type\": "@).len() == 22);
    assert(spec_print_idq(rv.id).len() == 28);
    lemma_pow10_15();
    lemma_print_fixed_digits(rv.date.year as nat, 4);
    lemma_print_fixed_digits(rv.date.month as nat, 2);
    lemma_print_fixed_digits(rv.date.day as nat, 2);
    assert(spec_print_date(rv.date).len() == 10);
    let o8 = 103 + hl + tl;
    let o9 = o8 + 14;
    let o10 = o9 + nl;
    let ol = o10 + 4;
    assert(p.len() == ol);
    assert forall|k: int| 0 <= k < 14 implies #[trigger] p[o8 + k] == g4[k] by {}
    assert forall|k: int| 0 <= k < nl implies #[trigger] p[o9 + k] == v5[k] by {}
    assert forall|k: int| 0 <= k < 4 implies #[trigger] p[o10 + k] == g5[k] by {}
    assert forall|k: int| o8 <= k < ol implies #[trigger] s[i + k] == p[k] by {
        assert(s.subrange(i, i + p.len() as int)[k] == p[k]);
    }
    assert(s[i + o8] == ',');
    lemma_skip_ws_exact(s, i + o8, i + o8);
    assert(spec_parse_comma(s, i + o8) == Some(i + o8 + 1));
    assert(s.subrange(i + (o8 + 6), i + (o8 + 12)) =~= "\"note\""@) by {
        lemma_subrange_shift(s, i, p, o8 + 6, o8 + 12);
        assert(p.subrange(o8 + 6, o8 + 12) =~= "\"note\""@);
    }
    assert(!is_ws(v5[0])) by {
        reveal_strlit("null");
    }
    assert(s[i + (o8 + 1)] == '\n' && s[i + (o8 + 2)] == ' ' && s[i + (o8 + 3)] == ' ' && s[i
        + (o8 + 4)] == ' ' && s[i + (o8 + 5)] == ' ');
    lemma_subrange_at(s, i, p, o8 + 12);
    lemma_subrange_at(s, i, p, o8 + 13);
    assert(p[o8 + 12] == g4[12] && p[o8 + 13] == g4[13]);
    assert(s[i + (o8 + 12)] == ':' && s[i + (o8 + 13)] == ' ');
    assert(v5.len() >= 2) by {
        reveal_strlit("null");
    }
    assert(p[o9 + 0] == v5[0]);
    assert(s[i + (o9 + 0)] == p[o9 + 0]);
    assert(!is_ws(s[i + (o9 + 0)]));
    lemma_key_shape(s, i + o8 + 1, "\"note\""@);
    lemma_subrange_shift(s, i, p, o9, o10);
    assert(p.subrange(o9, o10) =~= v5);
    lemma_parse_note_of_print(s, i + o9, rv.note);
    assert(s[i + o10] == '\n' && s[i + (o10 + 1)] == ' ' && s[i + (o10 + 2)] == ' ' && s[i + (o10
        + 3)] == '}');
    lemma_skip_ws_exact(s, i + o10, i + (o10 + 3));
}

/// Parsing a printed record gives the record back.
#[verifier::rlimit(80)]
#[verifier::spinoff_prover]
pub proof fn lemma_parse_record_of_print(s: Seq<char>, i: int, rv: AbsenceRecordView)
    requires
        0 <= i,
        codec_record_wf(rv),
        i + spec_print_record(rv).len() <= s.len(),
        s.subrange(i, i + spec_print_record(rv).len() as int) == spec_print_record(rv),
    ensures
        spec_parse_record(s, i) == Some((rv, i + spec_print_record(rv).len() as int)),
{
    reveal(spec_parse_record);
    lemma_record_pieces_head(s, i, rv);
    lemma_record_pieces_mid(s, i, rv);
    lemma_record_pieces_tail(s, i, rv);
    let hl = spec_print_hours(rv.hours).len() as int;
    let tl = spec_print_type(rv.absence_type).len() as int;
    let nl = spec_print_note(rv.note).len() as int;
    assert(spec_parse_record(s, i) == Some((rv, i + 121 + hl + tl + nl)));
}

// ---------------------------------------------------------------------------
// collections of records, and the public encode / decode entry points
// ---------------------------------------------------------------------------

/// The comma-separated renderings of one or more records, each indented by
/// two spaces.
pub open spec fn spec_print_items(rvs: Seq<AbsenceRecordView>) -> Seq<char>
    decreases rvs.len(),
{
    if rvs.len() == 0 {
        Seq::empty()
    } else if rvs.len() == 1 {
        spec_print_record(rvs[0])
    } else {
        spec_print_record(rvs[0]) + ",\n  "@ + spec_print_items(rvs.drop_first())
    }
}

/// The rendering of a whole collection: a pretty-printed array.
pub open spec fn spec_print_records(rvs: Seq<AbsenceRecordView>) -> Seq<char> {
    if rvs.len() == 0 {
        "[]"@
    } else {
        "[\n  "@ + spec_print_items(rvs) + "\n]"@
    }
}

/// Whether every record of a collection can be carried by the format.
pub open spec fn codec_records_wf(rvs: Seq<AbsenceRecordView>) -> bool {
    forall|k: int| 0 <= k < rvs.len() ==> codec_record_wf(#[trigger] rvs[k])
}

/// Parse one or more comma-separated records. The returned position is the
/// first non-whitespace position after the last record.
pub open spec fn spec_parse_items(s: Seq<char>, i: int) -> Option<
    (Seq<AbsenceRecordView>, int),
>
    decreases s.len() - i,
{
    match spec_parse_record(s, i) {
        None => None,
        Some((rv, j0)) => {
            let j = skip_ws(s, j0);
            if j < s.len() && s[j] == ',' {
                let k = skip_ws(s, j + 1);
                if i < k <= s.len() {
                    match spec_parse_items(s, k) {
                        None => None,
                        Some((rest, m)) => Some((seq![rv] + rest, m)),
                    }
                } else {
                    None
                }
            } else {
                Some((seq![rv], j))
            }
        },
    }
}

/// Parse a whole array of records.
pub open spec fn spec_parse_records(s: Seq<char>, i: int) -> Option<
    (Seq<AbsenceRecordView>, int),
> {
    if 0 <= i < s.len() && s[i] == '[' {
        let j = skip_ws(s, i + 1);
        if j < s.len() && s[j] == ']' {
            Some((Seq::empty(), j + 1))
        } else {
            match spec_parse_items(s, j) {
                None => None,
                Some((rvs, m)) => if m < s.len() && s[m] == ']' {
                    Some((rvs, m + 1))
                } else {
                    None
                },
            }
        }
    } else {
        None
    }
}

/// What decoding a whole file yields: the record collection, provided only
/// whitespace surrounds the array.
pub open spec fn spec_decode(s: Seq<char>) -> Option<Seq<AbsenceRecordView>> {
    let i0 = skip_ws(s, 0);
    match spec_parse_records(s, i0) {
        None => None,
        Some((rvs, j)) => if skip_ws(s, j) == s.len() {
            Some(rvs)
        } else {
            None
        },
    }
}

/// A printed record starts with an opening brace.
proof fn lemma_print_record_head_char(rv: AbsenceRecordView)
    ensures
        spec_print_record(rv).len() >= 1,
        spec_print_record(rv)[0] == '{',
{
    reveal_strlit("{\n    \"id\": ");
    let g0 = "{\n    \"id\": "@;
    let p = spec_print_record(rv);
    assert(p[0] == g0[0]);
}

/// Parsing printed items gives the items back, when a newline and a closing
/// bracket follow them.
#[verifier::rlimit(100)]
#[verifier::spinoff_prover]
proof fn lemma_parse_items_of_print(s: Seq<char>, i: int, rvs: Seq<AbsenceRecordView>)
    requires
        0 <= i,
        rvs.len() >= 1,
        codec_records_wf(rvs),
        i + spec_print_items(rvs).len() + 2 <= s.len(),
        s.subrange(i, i + spec_print_items(rvs).len() as int) == spec_print_items(rvs),
        s[i + spec_print_items(rvs).len()] == '\n',
        s[i + spec_print_items(rvs).len() + 1] == ']',
    ensures
        spec_parse_items(s, i) == Some((rvs, i + spec_print_items(rvs).len() + 1)),
    decreases rvs.len(),
{
    let p = spec_print_items(rvs);
    let r0 = spec_print_record(rvs[0]);
    let rl = r0.len() as int;
    assert(codec_record_wf(rvs[0]));
    if rvs.len() == 1 {
        assert(p == r0);
        lemma_parse_record_of_print(s, i, rvs[0]);
        lemma_skip_ws_exact(s, i + rl, i + rl + 1);
        assert(s[i + rl + 1] == ']');
        assert(spec_parse_items(s, i) == Some((seq![rvs[0]], i + rl + 1)));
        assert(seq![rvs[0]] =~= rvs);
    } else {
        let sep = ",\n  "@;
        reveal_strlit(",\n  ");
        assert(sep.len() == 4);
        let rest = rvs.drop_first();
        let pr = spec_print_items(rest);
        assert(p == r0 + sep + pr);
        assert(s.subrange(i, i + rl) =~= r0) by {
            lemma_subrange_shift(s, i, p, 0, rl);
            assert(p.subrange(0, rl) =~= r0);
        }
        lemma_parse_record_of_print(s, i, rvs[0]);
        assert forall|k: int| 0 <= k < 4 implies #[trigger] p[rl + k] == sep[k] by {}
        assert forall|k: int| 0 <= k < pr.len() implies #[trigger] p[rl + 4 + k] == pr[k] by {}
        assert forall|k: int| 0 <= k < p.len() implies #[trigger] s[i + k] == p[k] by {
            assert(s.subrange(i, i + p.len() as int)[k] == p[k]);
        }
        assert(s[i + (rl + 0)] == ',' && s[i + (rl + 1)] == '\n' && s[i + (rl + 2)] == ' ' && s[i
            + (rl + 3)] == ' ');
        lemma_skip_ws_exact(s, i + rl, i + rl);
        let k0 = i + rl + 4;
        assert(codec_records_wf(rest)) by {
            assert(forall|k: int| 0 <= k < rest.len() ==> rest[k] == rvs[k + 1]);
        }
        lemma_print_record_head_char(rest[0]);
        assert(pr[0] == spec_print_record(rest[0])[0]) by {
            assert(pr.len() >= 1);
        }
        assert(s[i + (rl + 4)] == pr[0]);
        assert(!is_ws(s[i + (rl + 4)]));
        lemma_skip_ws_exact(s, i + rl + 1, k0);
        assert(s.subrange(k0, k0 + pr.len() as int) =~= pr) by {
            lemma_subrange_shift(s, i, p, rl + 4, p.len() as int);
            assert(p.subrange(rl + 4, p.len() as int) =~= pr);
        }
        assert(i + p.len() == k0 + pr.len());
        lemma_parse_items_of_print(s, k0, rest);
        assert(spec_parse_items(s, k0) == Some((rest, i + p.len() + 1)));
        assert(spec_parse_items(s, i) == Some((seq![rvs[0]] + rest, i + p.len() + 1)));
        assert(seq![rvs[0]] + rest =~= rvs);
    }
}

/// Parsing a printed collection gives the collection back: the codec
/// round-trips.
#[verifier::rlimit(100)]
#[verifier::spinoff_prover]
pub proof fn lemma_codec_round_trip(rvs: Seq<AbsenceRecordView>)
    requires
        codec_records_wf(rvs),
    ensures
        spec_decode(spec_print_records(rvs)) == Some(rvs),
{
    let s = spec_print_records(rvs);
    if rvs.len() == 0 {
        reveal_strlit("[]");
        assert(s.len() == 2 && s[0] == '[' && s[1] == ']');
        lemma_skip_ws_exact(s, 0, 0);
        lemma_skip_ws_exact(s, 1, 1);
        lemma_skip_ws_exact(s, 2, 2);
        assert(spec_parse_records(s, 0) == Some((Seq::<AbsenceRecordView>::empty(), 2int)));
        assert(spec_decode(s) == Some(Seq::<AbsenceRecordView>::empty()));
        assert(Seq::<AbsenceRecordView>::empty() =~= rvs);
    } else {
        reveal_strlit("[\n  ");
        reveal_strlit("\n]");
        let hd = "[\n  "@;
        let p = spec_print_items(rvs);
        let tl = "\n]"@;
        assert(s == hd + p + tl);
        assert(hd.len() == 4 && tl.len() == 2);
        assert forall|k: int| 0 <= k < s.len() implies #[trigger] s[k] == (hd + p + tl)[k] by {}
        assert(s[0] == '[' && s[1] == '\n' && s[2] == ' ' && s[3] == ' ');
        lemma_skip_ws_exact(s, 0, 0);
        lemma_print_record_head_char(rvs[0]);
        assert(p[0] == spec_print_record(rvs[0])[0]) by {
            assert(p.len() >= 1);
        }
        assert(s[4int + 0] == p[0]);
        assert(s[4] == p[0]);
        assert(!is_ws(s[4]));
        lemma_skip_ws_exact(s, 1, 4);
        assert(s[4] == '{');
        assert(s.subrange(4, 4 + p.len() as int) =~= p) by {
            assert forall|k: int| 0 <= k < p.len() implies #[trigger] (s.subrange(
                4,
                4 + p.len() as int,
            )[k]) == p[k] by {
                assert(s.subrange(4, 4 + p.len() as int)[k] == s[4 + k]);
            }
        }
        assert(s[4 + p.len() as int] == '\n');
        assert(s[4 + p.len() as int + 1] == ']');
        lemma_parse_items_of_print(s, 4, rvs);
        assert(spec_parse_items(s, 4) == Some((rvs, 4 + p.len() as int + 1)));
        assert(s[4] != ']');
        assert(spec_parse_records(s, 0) == Some((rvs, s.len() as int)));
        lemma_skip_ws_exact(s, s.len() as int, s.len() as int);
        assert(spec_decode(s) == Some(rvs));
    }
}

/// Why a text failed to decode: the position at which parsing stopped.
#[derive(Clone, Copy, PartialEq, Eq, Structural, Debug)]
pub struct ParseError {
    pub at: usize,
}

/// Scan a field key: whitespace, the quoted name, whitespace, a colon,
/// whitespace.
fn scan_key(s: &Vec<char>, i: usize, name: &str) -> (r: Option<usize>)
    requires
        i <= s@.len(),
    ensures
        match r {
            Some(j) => spec_parse_key(s@, i as int, name@) == Some(j as int) && i <= j <= s@.len(),
            None => spec_parse_key(s@, i as int, name@) is None,
        },
{
    let j0 = scan_ws(s, i);
    match scan_lit(s, j0, name) {
        None => None,
        Some(j) => {
            let j2 = scan_ws(s, j);
            if j2 < s.len() && s[j2] == ':' {
                Some(scan_ws(s, j2 + 1))
            } else {
                None
            }
        },
    }
}

/// Scan a separating comma, allowing whitespace before it.
fn scan_comma(s: &Vec<char>, i: usize) -> (r: Option<usize>)
    requires
        i <= s@.len(),
    ensures
        match r {
            Some(j) => spec_parse_comma(s@, i as int) == Some(j as int) && i < j <= s@.len(),
            None => spec_parse_comma(s@, i as int) is None,
        },
{
    let j = scan_ws(s, i);
    if j < s.len() && s[j] == ',' {
        Some(j + 1)
    } else {
        None
    }
}

/// Parse one record object.
fn scan_record(s: &Vec<char>, i: usize) -> (r: Option<(AbsenceRecord, usize)>)
    requires
        i <= s@.len(),
    ensures
        match r {
            Some((rec, j)) => spec_parse_record(s@, i as int) == Some((rec@, j as int)) && i < j
                <= s@.len(),
            None => spec_parse_record(s@, i as int) is None,
        },
{
    proof {
        reveal(spec_parse_record);
    }
    if !(i < s.len() && s[i] == '{') {
        return None;
    }
    let p1 = match scan_key(s, i + 1, "\"id\"") {
        Some(p) => p,
        None => {
            return None;
        },
    };
    let (id, q1) = match scan_idq(s, p1) {
        Some(v) => v,
        None => {
            return None;
        },
    };
    let c1 = match scan_comma(s, q1) {
        Some(v) => v,
        None => {
            return None;
        },
    };
    let p2 = match scan_key(s, c1, "\"date\"") {
        Some(v) => v,
        None => {
            return None;
        },
    };
    if !(p2 < s.len() && s[p2] == '"') {
        return None;
    }
    let (date, q2) = match scan_date(s, p2 + 1) {
        Some(v) => v,
        None => {
            return None;
        },
    };
    if !(q2 < s.len() && s[q2] == '"') {
        return None;
    }
    let c2 = match scan_comma(s, q2 + 1) {
        Some(v) => v,
        None => {
            return None;
        },
    };
    let p3 = match scan_key(s, c2, "\"hours\"") {
        Some(v) => v,
        None => {
            return None;
        },
    };
    let (h, q3) = match scan_hours(s, p3) {
        Some(v) => v,
        None => {
            return None;
        },
    };
    let c3 = match scan_comma(s, q3) {
        Some(v) => v,
        None => {
            return None;
        },
    };
    let p4 = match scan_key(s, c3, "\"absence_type\"") {
        Some(v) => v,
        None => {
            return None;
        },
    };
    let (t, q4) = match scan_type(s, p4) {
        Some(v) => v,
        None => {
            return None;
        },
    };
    let c4 = match scan_comma(s, q4) {
        Some(v) => v,
        None => {
            return None;
        },
    };
    let p5 = match scan_key(s, c4, "\"note\"") {
        Some(v) => v,
        None => {
            return None;
        },
    };
    let (n, q5) = match scan_note(s, p5) {
        Some(v) => v,
        None => {
            return None;
        },
    };
    let e = scan_ws(s, q5);
    if !(e < s.len() && s[e] == '}') {
        return None;
    }
    let rec = AbsenceRecord {
        id,
        date,
        hours: crate::record::Hours { milli: h },
        absence_type: t,
        note: n,
    };
    Some((rec, e + 1))
}

/// Append one printed record.
fn emit_record(out: &mut Vec<char>, r: &AbsenceRecord)
    requires
        -1_000_000_000_000_000_000 < r.hours.milli < 1_000_000_000_000_000_000,
    ensures
        final(out)@ == old(out)@ + spec_print_record(r@),
{
    emit_str(out, "{\n    \"id\": ");
    emit_idq(out, r.id);
    emit_str(out, ",\n    \"date\": \"");
    emit_date(out, r.date);
    emit_str(out, "\",\n    \"hours\": ");
    emit_hours(out, r.hours.milli);
    emit_str(out, ",\n    \"absence_type\": ");
    emit_type(out, &r.absence_type);
    emit_str(out, ",\n    \"note\": ");
    emit_note(out, &r.note);
    emit_str(out, "\n  }");
    proof {
        assert(out@ =~= old(out)@ + spec_print_record(r@));
    }
}

/// Render a collection of records as the store's file format.
pub fn encode_records(records: &Vec<AbsenceRecord>) -> (s: String)
    requires
        forall|k: int| 0 <= k < records@.len() ==> codec_record_wf(#[trigger] records@[k]@),
    ensures
        s@ == spec_print_records(records.deep_view()),
{
    let ghost views = records.deep_view();
    proof {
        assert(views.len() == records@.len());
        assert(forall|k: int| 0 <= k < views.len() ==> #[trigger] views[k] == records@[k]@);
    }
    let mut out: Vec<char> = Vec::new();
    if records.len() == 0 {
        emit_str(&mut out, "[]");
        proof {
            assert(out@ =~= spec_print_records(views));
        }
    } else {
        emit_str(&mut out, "[\n  ");
        let mut k: usize = 0;
        proof {
            assert(views.skip(0) =~= views);
        }
        while k < records.len()
            invariant
                0 <= k <= records@.len(),
                records@.len() >= 1,
                views == records.deep_view(),
                views.len() == records@.len(),
                forall|m: int| 0 <= m < views.len() ==> #[trigger] views[m] == records@[m]@,
                forall|m: int| 0 <= m < records@.len() ==> codec_record_wf(
                    #[trigger] records@[m]@,
                ),
                k < records@.len() ==> "[\n  "@ + spec_print_items(views) == out@
                    + spec_print_items(views.skip(k as int)),
                k == records@.len() ==> "[\n  "@ + spec_print_items(views) == out@,
            decreases records@.len() - k,
        {
            let ghost rest = views.skip(k as int);
            proof {
                assert(rest.len() == views.len() - k);
                assert(rest[0] == views[k as int]);
            }
            emit_record(&mut out, &records[k]);
            if k + 1 < records.len() {
                emit_str(&mut out, ",\n  ");
                proof {
                    assert(rest.drop_first() =~= views.skip(k + 1));
                    assert(spec_print_items(rest) == spec_print_record(rest[0]) + ",\n  "@
                        + spec_print_items(rest.drop_first()));
                    assert("[\n  "@ + spec_print_items(views) == out@ + spec_print_items(
                        views.skip(k + 1),
                    ));
                }
            } else {
                proof {
                    assert(rest.len() == 1);
                    assert(spec_print_items(rest) == spec_print_record(rest[0]));
                    assert("[\n  "@ + spec_print_items(views) == out@);
                }
            }
            k += 1;
        }
        emit_str(&mut out, "\n]");
        proof {
            assert(out@ =~= spec_print_records(views));
        }
    }
    crate::text::chars_to_string(&out)
}

/// Prepend one record to the collection part of a parse result.
spec fn opt_prepend_rv(
    rv: AbsenceRecordView,
    o: Option<(Seq<AbsenceRecordView>, int)>,
) -> Option<(Seq<AbsenceRecordView>, int)> {
    match o {
        Some((rest, j)) => Some((seq![rv] + rest, j)),
        None => None,
    }
}

/// Prepend a collection to the collection part of a parse result.
spec fn opt_prepend_rvs(
    p: Seq<AbsenceRecordView>,
    o: Option<(Seq<AbsenceRecordView>, int)>,
) -> Option<(Seq<AbsenceRecordView>, int)> {
    match o {
        Some((rest, j)) => Some((p + rest, j)),
        None => None,
    }
}

/// `opt_prepend_rvs` composes by concatenation.
proof fn lemma_opt_prepend_rvs_assoc(
    a: Seq<AbsenceRecordView>,
    b: AbsenceRecordView,
    o: Option<(Seq<AbsenceRecordView>, int)>,
)
    ensures
        opt_prepend_rvs(a, opt_prepend_rv(b, o)) == opt_prepend_rvs(a.push(b), o),
{
    match o {
        Some((rest, j)) => {
            assert(a + (seq![b] + rest) =~= a.push(b) + rest);
        },
        None => {},
    }
}


/// One step of the items parse: a record followed by a comma continues the
/// collection.
proof fn lemma_items_step(
    s: Seq<char>,
    cur: int,
    recv: AbsenceRecordView,
    q: int,
    w: int,
    k2: int,
)
    requires
        0 <= q <= w,
        spec_parse_record(s, cur) == Some((recv, q)),
        w == skip_ws(s, q),
        0 <= w < s.len(),
        s[w] == ',',
        k2 == skip_ws(s, w + 1),
        cur < k2 <= s.len(),
    ensures
        spec_parse_items(s, cur) == opt_prepend_rv(recv, spec_parse_items(s, k2)),
{
}

/// The last step of the items parse: a record not followed by a comma closes
/// the collection.
proof fn lemma_items_last(s: Seq<char>, cur: int, recv: AbsenceRecordView, q: int, w: int)
    requires
        0 <= q <= w,
        spec_parse_record(s, cur) == Some((recv, q)),
        w == skip_ws(s, q),
        !(w < s.len() && s[w] == ','),
    ensures
        spec_parse_items(s, cur) == Some((seq![recv], w)),
{
}

/// Assembling a finished parse of a non-empty array.
proof fn lemma_records_done(
    s: Seq<char>,
    i0: int,
    j: int,
    itemsv: Seq<AbsenceRecordView>,
    w: int,
)
    requires
        0 <= i0 < s.len(),
        s[i0] == '[',
        j == skip_ws(s, i0 + 1),
        !(j < s.len() && s[j] == ']'),
        spec_parse_items(s, j) == Some((itemsv, w)),
        0 <= w < s.len(),
        s[w] == ']',
    ensures
        spec_parse_records(s, i0) == Some((itemsv, w + 1)),
{
}

/// Parse the store's file format back into records. Exactly the texts the
/// grammar accepts decode; everything else is refused with the position at
/// which parsing stopped.
#[verifier::rlimit(100)]
pub fn decode_records(text: &str) -> (r: Result<Vec<AbsenceRecord>, ParseError>)
    ensures
        match r {
            Ok(recs) => spec_decode(text@) == Some(recs.deep_view()),
            Err(_) => spec_decode(text@) is None,
        },
{
    let s = crate::text::str_to_chars(text);
    let i0 = scan_ws(&s, 0);
    if !(i0 < s.len() && s[i0] == '[') {
        return Err(ParseError { at: i0 });
    }
    let j = scan_ws(&s, i0 + 1);
    if j < s.len() && s[j] == ']' {
        let e = scan_ws(&s, j + 1);
        if e == s.len() {
            let recs: Vec<AbsenceRecord> = Vec::new();
            proof {
                assert(spec_parse_records(s@, i0 as int) == Some(
                    (Seq::<AbsenceRecordView>::empty(), j + 1),
                ));
                assert(spec_decode(text@) == Some(Seq::<AbsenceRecordView>::empty()));
                assert(recs.deep_view() =~= Seq::<AbsenceRecordView>::empty());
            }
            return Ok(recs);
        } else {
            return Err(ParseError { at: e });
        }
    }
    let mut acc: Vec<AbsenceRecord> = Vec::new();
    let mut cur: usize = j;
    proof {
        assert(acc.deep_view() =~= Seq::<AbsenceRecordView>::empty());
        match spec_parse_items(s@, j as int) {
            Some((t, m)) => {
                assert(Seq::<AbsenceRecordView>::empty() + t =~= t);
            },
            None => {},
        }
    }
    loop
        invariant
            s@ == text@,
            i0 < j <= cur <= s@.len(),
            j == skip_ws(s@, i0 + 1),
            i0 == skip_ws(s@, 0),
            i0 < s@.len() && s@[i0 as int] == '[',
            !(j < s@.len() && s@[j as int] == ']'),
            spec_parse_items(s@, j as int) == opt_prepend_rvs(
                acc.deep_view(),
                spec_parse_items(s@, cur as int),
            ),
        decreases s@.len() - cur,
    {
        let (rec, q) = match scan_record(&s, cur) {
            Some(v) => v,
            None => {
                proof {
                    assert(spec_parse_items(s@, cur as int) is None);
                    assert(spec_parse_items(s@, j as int) is None);
                    assert(spec_parse_records(s@, i0 as int) is None);
                    assert(spec_decode(text@) is None);
                }
                return Err(ParseError { at: cur });
            },
        };
        let w = scan_ws(&s, q);
        let ghost accv = acc.deep_view();
        let ghost recv = rec@;
        acc.push(rec);
        proof {
            assert(acc.deep_view() =~= accv.push(recv));
        }
        if w < s.len() && s[w] == ',' {
            let k2 = scan_ws(&s, w + 1);
            proof {
                lemma_items_step(s@, cur as int, recv, q as int, w as int, k2 as int);
                lemma_opt_prepend_rvs_assoc(accv, recv, spec_parse_items(s@, k2 as int));
            }
            cur = k2;
        } else {
            proof {
                lemma_items_last(s@, cur as int, recv, q as int, w as int);
                assert(accv + seq![recv] =~= accv.push(recv));
                assert(spec_parse_items(s@, j as int) == Some((acc.deep_view(), w as int)));
            }
            if w < s.len() && s[w] == ']' {
                let e = scan_ws(&s, w + 1);
                if e == s.len() {
                    proof {
                        lemma_records_done(s@, i0 as int, j as int, acc.deep_view(), w as int);
                        assert(skip_ws(s@, w + 1) == s@.len());
                        assert(spec_decode(text@) == Some(acc.deep_view()));
                    }
                    return Ok(acc);
                } else {
                    proof {
                        lemma_records_done(s@, i0 as int, j as int, acc.deep_view(), w as int);
                        assert(skip_ws(s@, w + 1) == e as int);
                        assert(spec_decode(text@) is None);
                    }
                    return Err(ParseError { at: e });
                }
            } else {
                proof {
                    assert(spec_parse_records(s@, i0 as int) is None);
                    assert(spec_decode(text@) is None);
                }
                return Err(ParseError { at: w });
            }
        }
    }
}

// ---------------------------------------------------------------------------
// parsed values can always be printed again
// ---------------------------------------------------------------------------

/// A parsed record is well formed for the format: the parser accepts only
/// real calendar dates, and parsed hours stay within the digit budget.
proof fn lemma_parse_record_wf(s: Seq<char>, i: int)
    ensures
        match spec_parse_record(s, i) {
            Some((rv, j)) => codec_record_wf(rv),
            None => true,
        },
{
    reveal(spec_parse_record);
    if 0 <= i < s.len() && s[i] == '{' {
        match spec_parse_key(s, i + 1, "\"id\""@) {
            Some(p1) => match spec_parse_idq(s, p1) {
                Some((id, q1)) => match spec_parse_comma(s, q1) {
                    Some(c1) => match spec_parse_key(s, c1, "\"date\""@) {
                        Some(p2) => if p2 < s.len() && s[p2] == '"' {
                            match spec_parse_date(s, p2 + 1) {
                                Some((d, q2)) => if q2 < s.len() && s[q2] == '"' {
                                    match spec_parse_comma(s, q2 + 1) {
                                        Some(c2) => match spec_parse_key(s, c2, "\"hours\""@) {
                                            Some(p3) => {
                                                lemma_parse_hours_bound(s, p3);
                                            },
                                            None => {},
                                        },
                                        None => {},
                                    }
                                } else {
                                },
                                None => {},
                            }
                        } else {
                        },
                        None => {},
                    },
                    None => {},
                },
                None => {},
            },
            None => {},
        }
    }
}

/// Parsed items are all well formed.
proof fn lemma_parse_items_wf(s: Seq<char>, i: int)
    ensures
        match spec_parse_items(s, i) {
            Some((rvs, j)) => codec_records_wf(rvs),
            None => true,
        },
    decreases s.len() - i,
{
    lemma_parse_record_wf(s, i);
    match spec_parse_record(s, i) {
        Some((rv, j0)) => {
            let j = skip_ws(s, j0);
            if j < s.len() && s[j] == ',' {
                let k = skip_ws(s, j + 1);
                if i < k <= s.len() {
                    lemma_parse_items_wf(s, k);
                    match spec_parse_items(s, k) {
                        Some((rest, m)) => {
                            assert(codec_records_wf(seq![rv] + rest)) by {
                                assert(forall|q: int|
                                    0 <= q < (seq![rv] + rest).len() ==> codec_record_wf(
                                        #[trigger] (seq![rv] + rest)[q],
                                    ));
                            }
                        },
                        None => {},
                    }
                }
            } else {
                assert(codec_records_wf(seq![rv])) by {
                    assert(forall|q: int|
                        0 <= q < seq![rv].len() ==> codec_record_wf(#[trigger] seq![rv][q]));
                }
            }
        },
        None => {},
    }
}

/// Whatever decodes is well formed, and so can be printed again.
pub proof fn lemma_decode_wf(s: Seq<char>)
    ensures
        match spec_decode(s) {
            Some(rvs) => codec_records_wf(rvs),
            None => true,
        },
{
    let i0 = skip_ws(s, 0);
    if 0 <= i0 < s.len() && s[i0] == '[' {
        let j = skip_ws(s, i0 + 1);
        if !(j < s.len() && s[j] == ']') {
            lemma_parse_items_wf(s, j);
        }
    }
}

// ---------------------------------------------------------------------------
// one record alone: the edit scratch format
// ---------------------------------------------------------------------------

/// What decoding a lone record object yields, with whitespace allowed around
/// it.
pub open spec fn spec_decode_record(s: Seq<char>) -> Option<AbsenceRecordView> {
    let i0 = skip_ws(s, 0);
    match spec_parse_record(s, i0) {
        None => None,
        Some((rv, j)) => if skip_ws(s, j) == s.len() {
            Some(rv)
        } else {
            None
        },
    }
}

/// Render one record alone, as the edit scratch file holds it.
pub fn encode_record(record: &AbsenceRecord) -> (s: String)
    requires
        codec_record_wf(record@),
    ensures
        s@ == spec_print_record(record@),
{
    let mut out: Vec<char> = Vec::new();
    emit_record(&mut out, record);
    proof {
        assert(out@ =~= spec_print_record(record@));
    }
    crate::text::chars_to_string(&out)
}

/// Parse one record alone.
pub fn decode_record(text: &str) -> (r: Option<AbsenceRecord>)
    ensures
        match r {
            Some(rec) => spec_decode_record(text@) == Some(rec@),
            None => spec_decode_record(text@) is None,
        },
{
    let s = crate::text::str_to_chars(text);
    let i0 = scan_ws(&s, 0);
    match scan_record(&s, i0) {
        None => None,
        Some((rec, j)) => {
            let e = scan_ws(&s, j);
            if e == s.len() {
                Some(rec)
            } else {
                None
            }
        },
    }
}

/// A lone printed record parses back to itself.
pub proof fn lemma_record_codec_round_trip(rv: AbsenceRecordView)
    requires
        codec_record_wf(rv),
    ensures
        spec_decode_record(spec_print_record(rv)) == Some(rv),
{
    let s = spec_print_record(rv);
    lemma_print_record_head_char(rv);
    assert(s[0] == '{');
    lemma_skip_ws_exact(s, 0, 0);
    assert(s.subrange(0, s.len() as int) =~= s);
    lemma_parse_record_of_print(s, 0, rv);
    lemma_skip_ws_exact(s, s.len() as int, s.len() as int);
}

/// Whether a record can be carried by the format: a real calendar date and
/// hours within the digit budget. Exactly [`codec_record_wf`].
pub fn record_encodable(record: &AbsenceRecord) -> (r: bool)
    ensures
        r == codec_record_wf(record@),
{
    record.date.valid() && -1_000_000_000_000_000_000 < record.hours.milli && record.hours.milli
        < 1_000_000_000_000_000_000
}

} // verus!

