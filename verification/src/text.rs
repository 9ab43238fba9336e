//! Parsing and formatting of rational cell text.
//!
//! The grammar accepted is the one users type into a cell: an optionally
//! signed decimal integer (`5`, `-3`, `+07`), or such an integer, a `/`, and
//! a second optionally signed integer (`3/6`, `-1/2`).  Parsing rejects any
//! other text as `Malformed`, a zero denominator as `DivisionByZero`, and
//! values outside the 32-bit fields as `Malformed`; the result is always the
//! canonical (lowest terms, positive denominator) rational.  `parse_cell`
//! applies the documented fail-safe-to-zero policy: malformed cell text
//! resolves to the rational zero rather than keeping the previous value.

use crate::rational::{
    fits_i32, lemma_norm_of_canon, rat_canon, rat_fits, rat_norm, rat_zero, Rational,
};
use crate::tableau::Tableau;
use vstd::prelude::*;
use vstd::string::{StrSliceExecFns, StringExecFns};

verus! {

/// Why a piece of cell text was rejected.
#[derive(Clone, Copy, PartialEq, Eq, Structural, Debug)]
pub enum ParseError {
    /// The text is not an integer or fraction literal, or a value in it does
    /// not fit the 32-bit rational fields.
    Malformed,
    /// The text is a fraction literal with a zero denominator.
    DivisionByZero,
}

/// The ten decimal digit characters.
pub open spec fn is_digit(c: char) -> bool {
    c == '0' || c == '1' || c == '2' || c == '3' || c == '4' || c == '5' || c == '6' || c == '7'
        || c == '8' || c == '9'
}

/// The numeric value of a digit character (zero on other characters).
pub open spec fn digit_of(c: char) -> nat {
    if c == '1' {
        1
    } else if c == '2' {
        2
    } else if c == '3' {
        3
    } else if c == '4' {
        4
    } else if c == '5' {
        5
    } else if c == '6' {
        6
    } else if c == '7' {
        7
    } else if c == '8' {
        8
    } else if c == '9' {
        9
    } else {
        0
    }
}

/// The digit character of a value below ten.
pub open spec fn digit_char(d: nat) -> char {
    if d == 0 {
        '0'
    } else if d == 1 {
        '1'
    } else if d == 2 {
        '2'
    } else if d == 3 {
        '3'
    } else if d == 4 {
        '4'
    } else if d == 5 {
        '5'
    } else if d == 6 {
        '6'
    } else if d == 7 {
        '7'
    } else if d == 8 {
        '8'
    } else {
        '9'
    }
}

/// Every character of the sequence is a decimal digit.
pub open spec fn all_digits(s: Seq<char>) -> bool {
    forall|k: int| 0 <= k < s.len() ==> is_digit(#[trigger] s[k])
}

/// The value of a digit sequence read in base ten.
pub open spec fn digits_val(s: Seq<char>) -> nat
    decreases s.len(),
{
    if s.len() == 0 {
        0
    } else {
        digits_val(s.drop_last()) * 10 + digit_of(s.last())
    }
}

/// A sign character.
pub open spec fn is_sign(c: char) -> bool {
    c == '-' || c == '+'
}

/// An optionally signed nonempty digit sequence.
pub open spec fn is_int_lit(s: Seq<char>) -> bool {
    if s.len() == 0 {
        false
    } else if is_sign(s[0]) {
        s.len() >= 2 && all_digits(s.skip(1))
    } else {
        all_digits(s)
    }
}

/// The signed value of an integer literal.
pub open spec fn int_lit_val(s: Seq<char>) -> int {
    if s.len() == 0 {
        0
    } else if s[0] == '-' {
        -(digits_val(s.skip(1)) as int)
    } else if s[0] == '+' {
        digits_val(s.skip(1)) as int
    } else {
        digits_val(s) as int
    }
}

/// The text splits at position `i` into an integer literal, a `/`, and a
/// second integer literal.
pub open spec fn frac_at(s: Seq<char>, i: int) -> bool {
    &&& 0 <= i < s.len()
    &&& s[i] == '/'
    &&& is_int_lit(s.take(i))
    &&& is_int_lit(s.skip(i + 1))
}

/// The text is a fraction literal.
pub open spec fn wf_frac(s: Seq<char>) -> bool {
    exists|i: int| frac_at(s, i)
}

/// What parsing a piece of cell text yields: the canonical numerator and
/// denominator, or the error that the text earns.
pub open spec fn spec_parse(s: Seq<char>) -> Result<(int, int), ParseError> {
    if wf_frac(s) {
        let i = choose|i: int| frac_at(s, i);
        let p = int_lit_val(s.take(i));
        let q = int_lit_val(s.skip(i + 1));
        if !(fits_i32(p) && fits_i32(q)) {
            Err(ParseError::Malformed)
        } else if q == 0 {
            Err(ParseError::DivisionByZero)
        } else if !rat_fits(rat_norm(p, q)) {
            Err(ParseError::Malformed)
        } else {
            Ok(rat_norm(p, q))
        }
    } else if is_int_lit(s) {
        if fits_i32(int_lit_val(s)) {
            Ok((int_lit_val(s), 1))
        } else {
            Err(ParseError::Malformed)
        }
    } else {
        Err(ParseError::Malformed)
    }
}

/// The canonical decimal digits of a natural number, most significant first.
pub open spec fn dec_digits(n: nat) -> Seq<char>
    decreases n,
{
    if n < 10 {
        seq![digit_char(n)]
    } else {
        dec_digits(n / 10).push(digit_char(n % 10))
    }
}

/// The canonical text of a signed integer.
pub open spec fn int_text(v: int) -> Seq<char> {
    if v < 0 {
        seq!['-'] + dec_digits((-v) as nat)
    } else {
        dec_digits(v as nat)
    }
}

/// The canonical display text of a rational: the integer alone when the
/// denominator is one, else numerator, `/`, denominator.
pub open spec fn rat_text(p: (int, int)) -> Seq<char> {
    if p.1 == 1 {
        int_text(p.0)
    } else {
        int_text(p.0) + seq!['/'] + dec_digits(p.1 as nat)
    }
}

/// Appending one digit multiplies the value by ten and adds the digit.
pub proof fn lemma_digits_val_push(s: Seq<char>, c: char)
    ensures
        digits_val(s.push(c)) == digits_val(s) * 10 + digit_of(c),
{
    assert(s.push(c).drop_last() =~= s);
    assert(s.push(c).last() == c);
}

/// One scanning step: the value of a one-longer prefix.
pub proof fn lemma_digits_val_take_step(s: Seq<char>, k: int)
    requires
        0 <= k < s.len(),
    ensures
        digits_val(s.take(k + 1)) == digits_val(s.take(k)) * 10 + digit_of(s[k]),
{
    assert(s.take(k + 1).drop_last() =~= s.take(k));
    assert(s.take(k + 1).last() == s[k]);
}

/// The value of a prefix never exceeds the value of the whole sequence.
pub proof fn lemma_digits_val_take_le(s: Seq<char>, k: int)
    requires
        0 <= k <= s.len(),
    ensures
        digits_val(s.take(k)) <= digits_val(s),
    decreases s.len() - k,
{
    if k == s.len() {
        assert(s.take(k) =~= s);
    } else {
        lemma_digits_val_take_step(s, k);
        lemma_digits_val_take_le(s, k + 1);
    }
}

/// The canonical digits of `n`: nonempty, all digits, and reading them back
/// yields `n`.
pub proof fn lemma_dec_digits(n: nat)
    ensures
        dec_digits(n).len() >= 1,
        all_digits(dec_digits(n)),
        digits_val(dec_digits(n)) == n,
    decreases n,
{
    if n < 10 {
        assert(dec_digits(n) =~= seq![digit_char(n)]);
        assert(dec_digits(n).drop_last() =~= Seq::<char>::empty());
        assert(digit_of(digit_char(n)) == n);
        assert(digits_val(dec_digits(n)) == digits_val(Seq::<char>::empty()) * 10 + digit_of(
            digit_char(n),
        ));
    } else {
        lemma_dec_digits(n / 10);
        lemma_digits_val_push(dec_digits(n / 10), digit_char(n % 10));
        vstd::arithmetic::div_mod::lemma_fundamental_div_mod(n as int, 10);
        assert(digit_of(digit_char(n % 10)) == n % 10);
        assert(digits_val(dec_digits(n)) == (n / 10) * 10 + n % 10);
        assert forall|k: int| 0 <= k < dec_digits(n).len() implies is_digit(
            #[trigger] dec_digits(n)[k],
        ) by {
            if k < dec_digits(n / 10).len() {
                assert(dec_digits(n)[k] == dec_digits(n / 10)[k]);
            }
        }
    }
}

/// The canonical text of `v`: an integer literal, free of `/`, whose value
/// reads back as `v`.
pub proof fn lemma_int_text(v: int)
    ensures
        is_int_lit(int_text(v)),
        int_lit_val(int_text(v)) == v,
        forall|k: int| 0 <= k < int_text(v).len() ==> #[trigger] int_text(v)[k] != '/',
{
    if v < 0 {
        lemma_dec_digits((-v) as nat);
        let s = int_text(v);
        assert(s[0] == '-');
        assert(s.skip(1) =~= dec_digits((-v) as nat));
        assert forall|k: int| 0 <= k < s.len() implies #[trigger] s[k] != '/' by {
            if k >= 1 {
                assert(is_digit(dec_digits((-v) as nat)[k - 1]));
            }
        }
    } else {
        lemma_dec_digits(v as nat);
        let s = int_text(v);
        assert(is_digit(s[0]));
        assert forall|k: int| 0 <= k < s.len() implies #[trigger] s[k] != '/' by {
            assert(is_digit(s[k]));
        }
    }
}

/// An integer literal contains no `/`.
pub proof fn lemma_int_lit_no_slash(s: Seq<char>)
    requires
        is_int_lit(s),
    ensures
        forall|k: int| 0 <= k < s.len() ==> #[trigger] s[k] != '/',
{
    assert forall|k: int| 0 <= k < s.len() implies #[trigger] s[k] != '/' by {
        if is_sign(s[0]) {
            if k >= 1 {
                assert(is_digit(s.skip(1)[k - 1]));
            }
        } else {
            assert(is_digit(s[k]));
        }
    }
}

/// A text splits as a fraction at one position at most.
pub proof fn lemma_frac_at_unique(s: Seq<char>, i: int, j: int)
    requires
        frac_at(s, i),
        frac_at(s, j),
    ensures
        i == j,
{
    if i < j {
        lemma_int_lit_no_slash(s.take(j));
        assert(s.take(j)[i] == s[i]);
    } else if j < i {
        lemma_int_lit_no_slash(s.take(i));
        assert(s.take(i)[j] == s[j]);
    }
}

/// A text with its first `/` at `i` is a fraction literal exactly when it
/// splits as one at `i`.
pub proof fn lemma_wf_frac_at_first(s: Seq<char>, i: int)
    requires
        0 <= i < s.len(),
        s[i] == '/',
        forall|k: int| 0 <= k < i ==> #[trigger] s[k] != '/',
    ensures
        wf_frac(s) <==> frac_at(s, i),
{
    if wf_frac(s) {
        let j = choose|j: int| frac_at(s, j);
        if j < i {
            assert(s[j] != '/');
        } else if j > i {
            lemma_int_lit_no_slash(s.take(j));
            assert(s.take(j)[i] == s[i]);
        }
        assert(frac_at(s, i));
    }
}

/// Parsing round-trip: the canonical text of any representable canonical
/// rational parses back to exactly that rational.
pub proof fn lemma_parse_format_round_trip(p: (int, int))
    requires
        rat_canon(p),
        rat_fits(p),
    ensures
        spec_parse(rat_text(p)) == Ok::<(int, int), ParseError>(p),
{
    lemma_int_text(p.0);
    let nt = int_text(p.0);
    if p.1 == 1 {
        let s = rat_text(p);
        assert(s == nt);
        assert(!wf_frac(s)) by {
            if wf_frac(s) {
                let i = choose|i: int| frac_at(s, i);
                assert(s[i] != '/');
            }
        }
        assert(spec_parse(s) == Ok::<(int, int), ParseError>((p.0, 1)));
        assert((p.0, 1int) == p);
    } else {
        lemma_dec_digits(p.1 as nat);
        let dt = dec_digits(p.1 as nat);
        let s = rat_text(p);
        let i = nt.len() as int;
        assert(s.len() == nt.len() + 1 + dt.len());
        assert(s[i] == '/');
        assert(s.take(i) =~= nt);
        assert(s.skip(i + 1) =~= dt);
        assert(is_int_lit(dt) && int_lit_val(dt) == p.1) by {
            assert(is_digit(dt[0]));
            assert(!is_sign(dt[0]));
        }
        assert(frac_at(s, i));
        let j = choose|j: int| frac_at(s, j);
        lemma_frac_at_unique(s, i, j);
        assert(int_lit_val(s.take(j)) == p.0);
        assert(int_lit_val(s.skip(j + 1)) == p.1);
        lemma_norm_of_canon(p);
        assert(spec_parse(s) == Ok::<(int, int), ParseError>(p));
    }
}

/// The value of a digit character, or `None` on any other character.
fn digit_value(c: char) -> (r: Option<u64>)
    ensures
        r is Some <==> is_digit(c),
        r matches Some(v) ==> (v as nat == digit_of(c) && v < 10),
{
    if c == '0' {
        Some(0)
    } else if c == '1' {
        Some(1)
    } else if c == '2' {
        Some(2)
    } else if c == '3' {
        Some(3)
    } else if c == '4' {
        Some(4)
    } else if c == '5' {
        Some(5)
    } else if c == '6' {
        Some(6)
    } else if c == '7' {
        Some(7)
    } else if c == '8' {
        Some(8)
    } else if c == '9' {
        Some(9)
    } else {
        None
    }
}

/// The position of the first `/`, if any.
fn find_slash(s: &str) -> (r: Option<usize>)
    ensures
        r matches Some(i) ==> (i < s@.len() && s@[i as int] == '/' && (forall|k: int|
            0 <= k < i ==> #[trigger] s@[k] != '/')),
        r is None ==> forall|k: int| 0 <= k < s@.len() ==> #[trigger] s@[k] != '/',
{
    let len = s.unicode_len();
    let mut i: usize = 0;
    while i < len
        invariant
            i <= len,
            len == s@.len(),
            forall|k: int| 0 <= k < i ==> #[trigger] s@[k] != '/',
        decreases len - i,
    {
        if s.get_char(i) == '/' {
            return Some(i);
        }
        i += 1;
    }
    None
}

/// Read the digit run `s[from..to]` in base ten.  Yields its value exactly
/// when the run is nonempty, all digits, and no larger than `2^31` (the
/// largest magnitude an `i32` literal can carry).
fn scan_digits(s: &str, from: usize, to: usize) -> (r: Option<u64>)
    requires
        from <= to <= s@.len(),
    ensures
        ({
            let seg = s@.subrange(from as int, to as int);
            &&& (r is Some <==> (to > from && all_digits(seg) && digits_val(seg) <= 0x8000_0000))
            &&& (r matches Some(v) ==> (v as nat == digits_val(seg) && v <= 0x8000_0000))
        }),
{
    let ghost seg = s@.subrange(from as int, to as int);
    if to == from {
        return None;
    }
    let mut idx: usize = from;
    let mut acc: u64 = 0;
    proof {
        assert(seg.take(0) =~= Seq::<char>::empty());
    }
    while idx < to
        invariant
            from <= idx <= to <= s@.len(),
            seg == s@.subrange(from as int, to as int),
            to > from,
            acc as nat == digits_val(seg.take(idx - from)),
            acc <= 0x8000_0000,
            all_digits(seg.take(idx - from)),
        decreases to - idx,
    {
        let c = s.get_char(idx);
        proof {
            assert(seg[idx - from] == s@[idx as int]);
        }
        let d = match digit_value(c) {
            Some(d) => d,
            None => {
                proof {
                    assert(!is_digit(seg[idx - from]));
                }
                return None;
            },
        };
        let acc2 = acc * 10 + d;
        proof {
            lemma_digits_val_take_step(seg, idx - from);
        }
        if acc2 > 0x8000_0000 {
            proof {
                lemma_digits_val_take_le(seg, idx + 1 - from);
            }
            return None;
        }
        proof {
            assert forall|k: int| 0 <= k < idx + 1 - from implies is_digit(
                #[trigger] seg.take(idx + 1 - from)[k],
            ) by {
                if k < idx - from {
                    assert(seg.take(idx + 1 - from)[k] == seg.take(idx - from)[k]);
                }
            }
        }
        acc = acc2;
        idx += 1;
    }
    proof {
        assert(seg.take(to - from) =~= seg);
    }
    Some(acc)
}

/// Read the optionally signed integer literal `s[from..to]`.  Yields its
/// value exactly when the text is an integer literal whose value fits `i32`.
fn parse_signed(s: &str, from: usize, to: usize) -> (r: Option<i64>)
    requires
        from <= to <= s@.len(),
    ensures
        ({
            let seg = s@.subrange(from as int, to as int);
            &&& (r is Some <==> (is_int_lit(seg) && fits_i32(int_lit_val(seg))))
            &&& (r matches Some(v) ==> v as int == int_lit_val(seg))
        }),
{
    let ghost seg = s@.subrange(from as int, to as int);
    if to == from {
        return None;
    }
    let c0 = s.get_char(from);
    proof {
        assert(seg[0] == s@[from as int]);
    }
    let neg: bool;
    let dstart: usize;
    if c0 == '-' {
        neg = true;
        dstart = from + 1;
    } else if c0 == '+' {
        neg = false;
        dstart = from + 1;
    } else {
        neg = false;
        dstart = from;
    }
    let ghost dseg = s@.subrange(dstart as int, to as int);
    proof {
        if dstart == from {
            assert(dseg =~= seg);
        } else {
            assert(dseg =~= seg.skip(1));
        }
    }
    match scan_digits(s, dstart, to) {
        None => {
            proof {
                assert(!(is_int_lit(seg) && fits_i32(int_lit_val(seg)))) by {
                    if is_int_lit(seg) && fits_i32(int_lit_val(seg)) {
                        assert(to > dstart && all_digits(dseg));
                        assert(digits_val(dseg) <= 0x8000_0000);
                    }
                }
            }
            None
        },
        Some(mag) => {
            if neg {
                proof {
                    assert(int_lit_val(seg) == -(digits_val(dseg) as int));
                }
                Some(-(mag as i64))
            } else {
                proof {
                    assert(int_lit_val(seg) == digits_val(dseg) as int);
                }
                if mag > 0x7fff_ffff {
                    None
                } else {
                    Some(mag as i64)
                }
            }
        },
    }
}

/// Parse cell text into a canonical rational.
///
/// Accepts optionally signed integer literals and fraction literals `p/q`;
/// yields `Malformed` on any other text or on values that do not fit the
/// 32-bit fields, and `DivisionByZero` on a fraction with denominator zero.
pub fn parse(s: &str) -> (r: Result<Rational, ParseError>)
    ensures
        spec_parse(s@) matches Ok(v) ==> (r matches Ok(q) && q.wf() && q@ == v),
        spec_parse(s@) matches Err(e) ==> r == Err::<Rational, ParseError>(e),
{
    let len = s.unicode_len();
    match find_slash(s) {
        None => {
            proof {
                assert(!wf_frac(s@)) by {
                    if wf_frac(s@) {
                        let i = choose|i: int| frac_at(s@, i);
                        assert(s@[i] != '/');
                    }
                }
                assert(s@.subrange(0, len as int) =~= s@);
            }
            match parse_signed(s, 0, len) {
                Some(v) => {
                    let q = Rational::from_int(v as i32);
                    Ok(q)
                },
                None => Err(ParseError::Malformed),
            }
        },
        Some(i) => {
            proof {
                lemma_wf_frac_at_first(s@, i as int);
                if is_int_lit(s@) {
                    lemma_int_lit_no_slash(s@);
                }
            }
            let num = match parse_signed(s, 0, i) {
                Some(v) => v,
                None => {
                    proof {
                        assert(s@.subrange(0, i as int) =~= s@.take(i as int));
                        if wf_frac(s@) {
                            let j = choose|j: int| frac_at(s@, j);
                            lemma_frac_at_unique(s@, i as int, j);
                            assert(!fits_i32(int_lit_val(s@.take(i as int))));
                        }
                    }
                    return Err(ParseError::Malformed);
                },
            };
            let den = match parse_signed(s, i + 1, len) {
                Some(v) => v,
                None => {
                    proof {
                        assert(s@.subrange(i + 1, len as int) =~= s@.skip(i + 1));
                        if wf_frac(s@) {
                            let j = choose|j: int| frac_at(s@, j);
                            lemma_frac_at_unique(s@, i as int, j);
                            assert(!fits_i32(int_lit_val(s@.skip(i + 1))));
                        }
                    }
                    return Err(ParseError::Malformed);
                },
            };
            proof {
                assert(frac_at(s@, i as int));
                let j = choose|j: int| frac_at(s@, j);
                lemma_frac_at_unique(s@, i as int, j);
                assert(s@.subrange(0, i as int) =~= s@.take(i as int));
                assert(s@.subrange(i + 1, len as int) =~= s@.skip(i + 1));
            }
            if den == 0 {
                return Err(ParseError::DivisionByZero);
            }
            match Rational::new(num as i32, den as i32) {
                Some(q) => Ok(q),
                None => Err(ParseError::Malformed),
            }
        },
    }
}

/// Parse cell text with the fail-safe-to-zero policy: any text that does not
/// parse resolves to the rational zero.  (`parse` reports the reason where a
/// caller wants to surface it.)
pub fn parse_cell(s: &str) -> (r: Rational)
    ensures
        r.wf(),
        spec_parse(s@) matches Ok(v) ==> r@ == v,
        spec_parse(s@) is Err ==> r@ == rat_zero(),
{
    match parse(s) {
        Ok(q) => q,
        Err(_) => Rational::zero(),
    }
}

/// Append one digit character.
fn push_digit(out: &mut String, d: u64)
    requires
        d < 10,
    ensures
        final(out)@ == old(out)@.push(digit_char(d as nat)),
{
    if d == 0 {
        proof {
            reveal_strlit("0");
        }
        out.append("0");
    } else if d == 1 {
        proof {
            reveal_strlit("1");
        }
        out.append("1");
    } else if d == 2 {
        proof {
            reveal_strlit("2");
        }
        out.append("2");
    } else if d == 3 {
        proof {
            reveal_strlit("3");
        }
        out.append("3");
    } else if d == 4 {
        proof {
            reveal_strlit("4");
        }
        out.append("4");
    } else if d == 5 {
        proof {
            reveal_strlit("5");
        }
        out.append("5");
    } else if d == 6 {
        proof {
            reveal_strlit("6");
        }
        out.append("6");
    } else if d == 7 {
        proof {
            reveal_strlit("7");
        }
        out.append("7");
    } else if d == 8 {
        proof {
            reveal_strlit("8");
        }
        out.append("8");
    } else {
        proof {
            reveal_strlit("9");
        }
        out.append("9");
    }
    proof {
        assert(final(out)@ =~= old(out)@.push(digit_char(d as nat)));
    }
}

/// Append the decimal digits of `n`, most significant first.
fn push_digits(out: &mut String, n: u32)
    ensures
        final(out)@ == old(out)@ + dec_digits(n as nat),
    decreases n,
{
    if n < 10 {
        push_digit(out, n as u64);
        proof {
            assert(final(out)@ =~= old(out)@ + dec_digits(n as nat));
        }
    } else {
        push_digits(out, n / 10);
        push_digit(out, (n % 10) as u64);
        proof {
            assert(final(out)@ =~= old(out)@ + dec_digits(n as nat));
        }
    }
}

impl Rational {
    /// The canonical display text: the numerator alone when the denominator
    /// is one, else numerator, `/`, denominator.
    pub fn format(&self) -> (out: String)
        requires
            self.wf(),
        ensures
            out@ == rat_text(self@),
    {
        let mut out = String::new();
        let n = self.numer();
        if n < 0 {
            proof {
                reveal_strlit("-");
            }
            out.append("-");
            let mag = (-(n as i64)) as u32;
            push_digits(&mut out, mag);
            proof {
                assert(out@ =~= int_text(self@.0));
            }
        } else {
            push_digits(&mut out, n as u32);
            proof {
                assert(out@ =~= int_text(self@.0));
            }
        }
        let d = self.denom();
        if d != 1 {
            proof {
                reveal_strlit("/");
            }
            let ghost before = out@;
            out.append("/");
            push_digits(&mut out, d as u32);
            proof {
                assert(out@ =~= before + seq!['/'] + dec_digits(self@.1 as nat));
            }
        }
        out
    }
}

impl Tableau {
    /// A read-only view of the matrix for rendering: each cell as its
    /// canonical display text, in row order.
    pub fn display_rows(&self) -> (out: Vec<Vec<String>>)
        requires
            self.wf(),
        ensures
            out@.len() == self.mat().len(),
            forall|i: int| 0 <= i < out@.len() ==> (#[trigger] out@[i]@).len() == self.mat()[0].len(),
            forall|i: int, j: int|
                0 <= i < out@.len() && 0 <= j < out@[i]@.len() ==> (#[trigger] out@[i]@[j])@
                    == rat_text(self.mat()[i][j]),
    {
        let n = self.num_rows();
        let m = self.num_cols();
        let mut out: Vec<Vec<String>> = Vec::new();
        let mut i: usize = 0;
        while i < n
            invariant
                self.wf(),
                n == self.mat().len(),
                m == self.mat()[0].len(),
                i <= n,
                out@.len() == i,
                forall|a: int| 0 <= a < i ==> (#[trigger] out@[a]@).len() == m,
                forall|a: int, b: int|
                    0 <= a < i && 0 <= b < m ==> (#[trigger] out@[a]@[b])@ == rat_text(
                        self.mat()[a][b],
                    ),
            decreases n - i,
        {
            let mut row: Vec<String> = Vec::new();
            let mut j: usize = 0;
            while j < m
                invariant
                    self.wf(),
                    n == self.mat().len(),
                    m == self.mat()[0].len(),
                    i < n,
                    j <= m,
                    row@.len() == j,
                    forall|b: int|
                        0 <= b < j ==> (#[trigger] row@[b])@ == rat_text(self.mat()[i as int][b]),
                decreases m - j,
            {
                let cell = self.cell(i, j);
                row.push(cell.format());
                j += 1;
            }
            out.push(row);
            proof {
                assert forall|b: int| 0 <= b < m implies (#[trigger] out@[i as int]@[b])@
                    == rat_text(self.mat()[i as int][b]) by {
                    assert(out@[i as int]@[b] == row@[b]);
                }
            }
            i += 1;
        }
        out
    }
}

} // verus!
