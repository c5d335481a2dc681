//! An exact data type for amounts of Great British Pounds.
//!
//! Amounts are stored as whole pounds plus pence, with the invariant that
//! the pence component is always below 100. All arithmetic is exact
//! integer arithmetic on minor units (pence), so no rounding error can
//! enter the system. Tax rates are exact fractions in basis points
//! (ten-thousandths), so multiplying an amount by a rate is likewise
//! exact integer arithmetic with a single, well-defined rounding step.

use num_format::ToFormattedString;
use vstd::prelude::*;

use crate::digits::all_digits;
use crate::digits::digit_char;
use crate::digits::digits_of;
use crate::digits::first_dot;
use crate::digits::group_digits;
use crate::digits::is_digit;
use crate::digits::parse_digits;
use crate::digits::remove_commas;

verus! {

/// Represents errors that can occur when parsing an amount from text.
#[derive(Clone, Copy, Debug, Eq, PartialEq, Structural)]
pub enum ParseError {
    /// The integer or fractional text, after removing the symbol and any
    /// thousands separators, is not a valid non-negative integer, or the
    /// integer part overflows the representable range.
    InvalidNumber,
    /// A fractional part is present whose length is not exactly two
    /// digits.
    InvalidDecimal,
}

impl ParseError {
    /// A human-readable description of the error.
    pub fn message(&self) -> (r: &'static str)
        ensures
            r@ == match self {
                ParseError::InvalidNumber => "Invalid number for GBP value"@,
                ParseError::InvalidDecimal => "Invalid decimal for GBP value"@,
            },
    {
        match self {
            ParseError::InvalidNumber => "Invalid number for GBP value",
            ParseError::InvalidDecimal => "Invalid decimal for GBP value",
        }
    }
}

/// Largest representable amount, in pence: `u32::MAX` pounds and 99 pence.
pub open spec fn max_pence() -> int {
    0xffff_ffffint * 100 + 99
}

/// Minimum of two integers.
pub open spec fn min_int(a: int, b: int) -> int {
    if a <= b {
        a
    } else {
        b
    }
}

/// A rate by which an amount can be multiplied, stored exactly as a count
/// of basis points (ten-thousandths). A tax rate of 20% is 2000 basis
/// points; rates above one (10000 basis points) are also representable.
#[derive(Clone, Copy, Debug, Eq, PartialEq, Structural)]
pub struct Rate {
    basis_points: u32,
}

impl View for Rate {
    type V = int;

    /// The abstract value of a rate: its count of basis points.
    closed spec fn view(&self) -> int {
        self.basis_points as int
    }
}

impl Rate {
    /// Construct a rate from a count of basis points (ten-thousandths).
    pub fn from_basis_points(basis_points: u32) -> (r: Rate)
        ensures
            r@ == basis_points,
    {
        Rate { basis_points }
    }

    /// Construct a rate from a whole percentage.
    pub fn from_percent(percent: u32) -> (r: Rate)
        requires
            percent * 100 <= u32::MAX,
        ensures
            r@ == percent * 100,
    {
        Rate { basis_points: percent * 100 }
    }

    /// The rate's count of basis points.
    pub fn basis_points(&self) -> (r: u32)
        ensures
            r == self@,
    {
        self.basis_points
    }
}

/// The number of pence produced by multiplying `pence` by a rate of
/// `basis_points` ten-thousandths: the mathematically exact product,
/// rounded to the nearest penny with ties away from zero.
pub open spec fn rate_mul(pence: int, basis_points: int) -> int {
    (pence * basis_points + 5000) / 10000
}

/// Represents an amount of Great British Pounds, stored as pounds and pence.
///
/// The invariant [`Gbp::inv`] (pence below 100) is established by every
/// constructor and preserved by every operation.
#[derive(Clone, Copy, Debug, Eq, Ord, PartialEq, PartialOrd, Structural)]
pub struct Gbp {
    pounds: u32,
    pence: u8,
}

impl View for Gbp {
    type V = int;

    /// The abstract value of an amount: its total number of pence.
    closed spec fn view(&self) -> int {
        self.pounds * 100 + self.pence
    }
}

impl Gbp {
    /// Well-formedness: the pence component is a normalized minor-unit count.
    pub closed spec fn inv(&self) -> bool {
        self.pence < 100
    }

    /// Construct a `Gbp` from pounds and pence.
    ///
    /// Pence of 100 or more are normalized by carrying whole pounds into
    /// the pound count; the carry must not overflow the pound count.
    pub fn new(pounds: u32, pence: u8) -> (r: Gbp)
        requires
            pounds + pence / 100 <= u32::MAX,
        ensures
            r.inv(),
            r@ == pounds * 100 + pence,
    {
        Gbp { pounds: pounds + (pence / 100) as u32, pence: pence % 100 }
    }

    /// Construct a `Gbp` from a number of whole pounds.
    pub fn from_pounds(pounds: u32) -> (r: Gbp)
        ensures
            r.inv(),
            r@ == pounds * 100,
    {
        Gbp { pounds, pence: 0 }
    }

    /// The largest representable amount.
    pub fn max_value() -> (r: Gbp)
        ensures
            r.inv(),
            r@ == max_pence(),
    {
        Gbp { pounds: u32::MAX, pence: 99 }
    }

    /// Add another amount to this one, exactly.
    ///
    /// The sum must not exceed the largest representable amount.
    pub fn add(self, rhs: &Gbp) -> (r: Gbp)
        requires
            self.inv(),
            rhs.inv(),
            self@ + rhs@ <= max_pence(),
        ensures
            r.inv(),
            r@ == self@ + rhs@,
    {
        let pence_sum: u8 = self.pence + rhs.pence;
        if pence_sum >= 100 {
            Gbp { pounds: self.pounds + rhs.pounds + 1, pence: pence_sum - 100 }
        } else {
            Gbp { pounds: self.pounds + rhs.pounds, pence: pence_sum }
        }
    }

    /// Subtract another amount from this one, exactly.
    ///
    /// Subtraction is defined only for non-negative results: the
    /// subtrahend must not exceed this amount.
    pub fn subtract(self, rhs: Gbp) -> (r: Gbp)
        requires
            self.inv(),
            rhs.inv(),
            rhs@ <= self@,
        ensures
            r.inv(),
            r@ == self@ - rhs@,
    {
        if rhs.pence > self.pence {
            Gbp { pounds: self.pounds - rhs.pounds - 1, pence: 100 + self.pence - rhs.pence }
        } else {
            Gbp { pounds: self.pounds - rhs.pounds, pence: self.pence - rhs.pence }
        }
    }

    /// Subtract another amount from this one in place, exactly.
    ///
    /// As with [`Gbp::subtract`], the subtrahend must not exceed this
    /// amount.
    pub fn subtract_assign(&mut self, rhs: Gbp)
        requires
            old(self).inv(),
            rhs.inv(),
            rhs@ <= old(self)@,
        ensures
            final(self).inv(),
            final(self)@ == old(self)@ - rhs@,
    {
        if rhs.pence > self.pence {
            self.pounds = self.pounds - rhs.pounds - 1;
            self.pence = 100 + self.pence - rhs.pence;
        } else {
            self.pounds = self.pounds - rhs.pounds;
            self.pence = self.pence - rhs.pence;
        }
    }

    /// The smaller of this amount and another.
    pub fn min_of(self, other: Gbp) -> (r: Gbp)
        requires
            self.inv(),
            other.inv(),
        ensures
            r.inv(),
            r@ == min_int(self@, other@),
    {
        if self.pounds < other.pounds || (self.pounds == other.pounds && self.pence <= other.pence) {
            self
        } else {
            other
        }
    }

    /// Multiply this amount by a rate, rounding the mathematically exact
    /// product to the nearest penny, ties away from zero.
    ///
    /// The rounded result must not exceed the largest representable
    /// amount.
    pub fn multiply_by_rate(self, rate: Rate) -> (r: Gbp)
        requires
            self.inv(),
            rate_mul(self@, rate@) <= max_pence(),
        ensures
            r.inv(),
            r@ == rate_mul(self@, rate@),
    {
        let total: u128 = self.pounds as u128 * 100 + self.pence as u128;
        assert(total * rate.basis_points as u128 <= 0xffff_ffff_ffff_ffffu128 * 0xffff_ffffu128)
            by (nonlinear_arith)
            requires
                total <= 0xffff_ffffu128 * 100 + 99,
                rate.basis_points <= 0xffff_ffffu32,
        ;
        let amount: u128 = (total * rate.basis_points as u128 + 5000) / 10000;
        assert(amount == rate_mul(self@, rate@));
        let pounds: u32 = (amount / 100) as u32;
        let pence: u8 = (amount % 100) as u8;
        Gbp { pounds, pence }
    }
}

/// The text an amount of `v` pence displays as: a pound sign, the pound
/// count with a comma between each group of three digits, a full stop,
/// and exactly two pence digits.
pub open spec fn gbp_display(v: int) -> Seq<char> {
    seq!['£'] + group_digits(digits_of((v / 100) as nat)) + seq!['.'] + seq![
        digit_char(v % 100 / 10),
        digit_char(v % 100 % 10),
    ]
}

/// What parsing a text yields: the pound and pence counts, or the error.
///
/// An optional leading pound sign is dropped; the text splits at the
/// first full stop into an integer part and a fractional part (an absent
/// fractional part counts as "00"). A fractional part whose length is not
/// exactly two is an invalid decimal. The integer part with its commas
/// removed, and the fractional part, must each be all digits, and the
/// pound count must fit the representable range; otherwise the number is
/// invalid.
pub open spec fn gbp_parse(s: Seq<char>) -> Result<(int, int), ParseError> {
    let t = if s.len() > 0 && s[0] == '£' {
        s.subrange(1, s.len() as int)
    } else {
        s
    };
    let dot = first_dot(t);
    let ip = if dot >= 0 {
        t.subrange(0, dot)
    } else {
        t
    };
    let fp = if dot >= 0 {
        t.subrange(dot + 1, t.len() as int)
    } else {
        seq!['0', '0']
    };
    if fp.len() != 2 {
        Err(ParseError::InvalidDecimal)
    } else {
        let ds = remove_commas(ip);
        if ds.len() == 0 || !all_digits(ds) || parse_digits(ds) > u32::MAX {
            Err(ParseError::InvalidNumber)
        } else if !all_digits(fp) {
            Err(ParseError::InvalidNumber)
        } else {
            Ok((parse_digits(ds), parse_digits(fp)))
        }
    }
}

/// Relies on num_format's `ToFormattedString::to_formatted_string` with
/// `Locale::en`: it renders an unsigned integer as its decimal digits
/// with a "," between each group of three digits, counted from the
/// least significant end.
#[verifier::external_body]
fn group_thousands(n: u32) -> (r: String)
    ensures
        r@ == group_digits(digits_of(n as nat)),
{
    n.to_formatted_string(&num_format::Locale::en)
}

/// The one-character text of a digit value.
fn digit_str(d: u8) -> (r: &'static str)
    requires
        d < 10,
    ensures
        r@.len() == 1,
        r@[0] == digit_char(d as int),
{
    proof {
        reveal_strlit("0");
        reveal_strlit("1");
        reveal_strlit("2");
        reveal_strlit("3");
        reveal_strlit("4");
        reveal_strlit("5");
        reveal_strlit("6");
        reveal_strlit("7");
        reveal_strlit("8");
        reveal_strlit("9");
    }
    match d {
        0 => "0",
        1 => "1",
        2 => "2",
        3 => "3",
        4 => "4",
        5 => "5",
        6 => "6",
        7 => "7",
        8 => "8",
        _ => "9",
    }
}

impl Gbp {
    /// Display an amount, formatted like: £1,234,567.89
    pub fn to_display_string(&self) -> (r: String)
        requires
            self.inv(),
        ensures
            r@ == gbp_display(self@),
    {
        let mut out = String::from_str("£");
        let grouped = group_thousands(self.pounds);
        out.append(grouped.as_str());
        out.append(".");
        let d1 = digit_str(self.pence / 10);
        out.append(d1);
        let d0 = digit_str(self.pence % 10);
        out.append(d0);
        proof {
            reveal_strlit("£");
            reveal_strlit(".");
            vstd::arithmetic::div_mod::lemma_fundamental_div_mod_converse(
                self@,
                100,
                self.pounds as int,
                self.pence as int,
            );
            assert(out@ =~= gbp_display(self@));
        }
        out
    }
}

/// Find the first full stop at or after `start`, returning its position,
/// or the text's length if there is none.
fn find_first_dot(cs: &Vec<char>, start: usize) -> (r: usize)
    requires
        start <= cs@.len(),
    ensures
        start <= r <= cs@.len(),
        ({
            let fd = first_dot(cs@.subrange(start as int, cs@.len() as int));
            if fd >= 0 {
                r == start + fd
            } else {
                r == cs@.len()
            }
        }),
{
    let n = cs.len();
    let mut j = start;
    let mut dot = n;
    while j < n
        invariant
            start <= j <= n,
            start <= dot <= n,
            n == cs@.len(),
            dot == n ==> forall|k: int| start <= k < j ==> cs@[k] != '.',
            dot < n ==> start <= dot < j && cs@[dot as int] == '.' && (forall|k: int|
                start <= k < dot ==> cs@[k] != '.'),
        decreases n - j,
    {
        if dot == n && cs[j] == '.' {
            dot = j;
        }
        j += 1;
    }
    proof {
        let t = cs@.subrange(start as int, n as int);
        crate::digits::lemma_first_dot(t);
        assert(forall|k: int| 0 <= k < t.len() ==> t[k] == cs@[k + start]);
        let fd = first_dot(t);
        if dot == n {
            if fd >= 0 {
                assert(cs@[fd + start] == '.');
            }
        } else {
            if fd == -1 {
                assert(t[dot - start] == '.');
            } else {
                if fd < dot - start {
                    assert(cs@[fd + start] == '.');
                }
                if fd > dot - start {
                    assert(t[dot - start] == '.');
                }
            }
        }
    }
    dot
}

/// Read a non-negative integer from the characters in `[start, end)`,
/// ignoring commas. Yields nothing when there are no digits, when a
/// character other than a digit or comma appears, or when the value does
/// not fit.
fn parse_u32_digits(cs: &Vec<char>, start: usize, end: usize) -> (r: Option<u32>)
    requires
        start <= end <= cs@.len(),
    ensures
        ({
            let ds = remove_commas(cs@.subrange(start as int, end as int));
            match r {
                Some(v) => ds.len() > 0 && all_digits(ds) && parse_digits(ds) == v,
                None => ds.len() == 0 || !all_digits(ds) || parse_digits(ds) > u32::MAX,
            }
        }),
{
    let ghost whole = remove_commas(cs@.subrange(start as int, end as int));
    let ghost mut dseq: Seq<char> = Seq::empty();
    let mut value: u32 = 0;
    let mut has_digit = false;
    let mut k = start;
    proof {
        assert(cs@.subrange(start as int, start as int) =~= Seq::<char>::empty());
        crate::digits::lemma_remove_commas_empty();
    }
    while k < end
        invariant
            start <= k <= end <= cs@.len(),
            whole == remove_commas(cs@.subrange(start as int, end as int)),
            dseq == remove_commas(cs@.subrange(start as int, k as int)),
            all_digits(dseq),
            value == parse_digits(dseq),
            has_digit == (dseq.len() > 0),
        decreases end - k,
    {
        let c = cs[k];
        proof {
            let pre = cs@.subrange(start as int, k as int);
            let post = cs@.subrange(start as int, k + 1);
            let rest = cs@.subrange(k + 1, end as int);
            assert(post =~= pre.push(c));
            crate::digits::lemma_remove_commas_push(pre, c);
            assert(cs@.subrange(start as int, end as int) =~= post + rest);
            crate::digits::lemma_remove_commas_add(post, rest);
            assert(whole == remove_commas(post) + remove_commas(rest));
        }
        if c != ',' {
            proof {
                let post = cs@.subrange(start as int, k + 1);
                let rest = cs@.subrange(k + 1, end as int);
                assert(remove_commas(post) == dseq.push(c));
                assert(whole == dseq.push(c) + remove_commas(rest));
                assert(whole[dseq.len() as int] == c);
            }
            proof {
                vstd::utf8::char_is_scalar(c);
            }
            let d = c as u32;
            if d < 48 || d > 57 {
                proof {
                    assert(!is_digit(whole[dseq.len() as int]));
                }
                return None;
            }
            let dv = d - 48;
            proof {
                assert(48 <= c as u32 && c as u32 <= 57);
                assert(is_digit(c));
                assert(crate::digits::digit_val(c) == dv);
                crate::digits::lemma_parse_digits_push(dseq, c);
                vstd::arithmetic::div_mod::lemma_fundamental_div_mod(
                    (u32::MAX - dv) as int,
                    10,
                );
            }
            if value > (u32::MAX - dv) / 10 {
                proof {
                    assert(parse_digits(dseq.push(c)) > u32::MAX);
                    if all_digits(whole) {
                        assert(whole.subrange(0, dseq.len() as int + 1) =~= dseq.push(c));
                        crate::digits::lemma_parse_digits_prefix_le(whole, dseq.len() as int + 1);
                    }
                }
                return None;
            }
            value = value * 10 + dv;
            has_digit = true;
            proof {
                dseq = dseq.push(c);
            }
        }
        k += 1;
    }
    if has_digit {
        Some(value)
    } else {
        None
    }
}

impl Gbp {
    /// Parse a currency amount from text, such as "£1,234,567.89".
    ///
    /// A leading pound sign is optional, commas in the integer part are
    /// ignored, and a fractional part, when present, must be exactly two
    /// digits.
    pub fn parse(s: &str) -> (r: Result<Gbp, ParseError>)
        ensures
            match r {
                Ok(v) => v.inv() && gbp_parse(s@) == Ok::<(int, int), ParseError>(
                    (v@ / 100, v@ % 100),
                ),
                Err(e) => gbp_parse(s@) == Err::<(int, int), ParseError>(e),
            },
    {
        let len = s.unicode_len();
        let mut cs: Vec<char> = Vec::new();
        let mut i: usize = 0;
        while i < len
            invariant
                i <= len,
                len == s@.len(),
                cs@ == s@.subrange(0, i as int),
            decreases len - i,
        {
            let c = s.get_char(i);
            cs.push(c);
            proof {
                assert(cs@ =~= s@.subrange(0, i + 1));
            }
            i += 1;
        }
        proof {
            assert(cs@ =~= s@);
        }
        let n = cs.len();
        let start: usize = if n > 0 && cs[0] == '£' {
            1
        } else {
            0
        };
        let ghost t = if s@.len() > 0 && s@[0] == '£' {
            s@.subrange(1, s@.len() as int)
        } else {
            s@
        };
        proof {
            assert(t =~= cs@.subrange(start as int, n as int));
        }
        let dotpos = find_first_dot(&cs, start);
        let ghost fd = first_dot(t);
        proof {
            crate::digits::lemma_first_dot(t);
        }
        if dotpos < n && n - dotpos - 1 != 2 {
            proof {
                assert(fd == dotpos - start);
                assert(t.subrange(fd + 1, t.len() as int).len() == n - dotpos - 1);
            }
            return Err(ParseError::InvalidDecimal);
        }
        let ipend = if dotpos < n {
            dotpos
        } else {
            n
        };
        let ghost ip = if fd >= 0 {
            t.subrange(0, fd)
        } else {
            t
        };
        let ghost fp = if fd >= 0 {
            t.subrange(fd + 1, t.len() as int)
        } else {
            seq!['0', '0']
        };
        proof {
            assert(ip =~= cs@.subrange(start as int, ipend as int));
            assert(fp.len() == 2);
        }
        let pounds = match parse_u32_digits(&cs, start, ipend) {
            Some(v) => v,
            None => {
                return Err(ParseError::InvalidNumber);
            },
        };
        let pence: u8;
        if dotpos < n {
            let c1 = cs[dotpos + 1];
            let c0 = cs[dotpos + 2];
            proof {
                assert(fp =~= seq![c1, c0]);
            }
            proof {
                vstd::utf8::char_is_scalar(c1);
                vstd::utf8::char_is_scalar(c0);
            }
            let d1 = c1 as u32;
            let d0 = c0 as u32;
            if d1 < 48 || d1 > 57 || d0 < 48 || d0 > 57 {
                proof {
                    assert(!is_digit(fp[0]) || !is_digit(fp[1]));
                }
                return Err(ParseError::InvalidNumber);
            }
            pence = ((d1 - 48) * 10 + (d0 - 48)) as u8;
            proof {
                assert(48 <= c1 as u32 && c1 as u32 <= 57);
                assert(48 <= c0 as u32 && c0 as u32 <= 57);
                assert(is_digit(c1) && is_digit(c0));
                assert(fp[0] == c1 && fp[1] == c0);
                assert(all_digits(fp)) by {
                    assert(forall|q: int| 0 <= q < fp.len() ==> is_digit(#[trigger] fp[q])) by {
                        assert(fp.len() == 2);
                        assert(is_digit(fp[0]) && is_digit(fp[1]));
                    }
                }
                lemma_parse_digits_pair(c1, c0);
                assert(parse_digits(fp) == pence);
            }
        } else {
            pence = 0;
            proof {
                assert(is_digit('0'));
                assert(fp[0] == '0' && fp[1] == '0');
                assert(all_digits(fp)) by {
                    assert(forall|q: int| 0 <= q < fp.len() ==> is_digit(#[trigger] fp[q])) by {
                        assert(fp.len() == 2);
                        assert(is_digit(fp[0]) && is_digit(fp[1]));
                    }
                }
                lemma_parse_digits_pair('0', '0');
                assert(parse_digits(fp) == 0);
            }
        }
        proof {
            assert(gbp_parse(s@) == Ok::<(int, int), ParseError>(
                (pounds as int, pence as int),
            ));
            vstd::arithmetic::div_mod::lemma_fundamental_div_mod_converse(
                pounds * 100 + pence,
                100,
                pounds as int,
                pence as int,
            );
        }
        Ok(Gbp { pounds, pence })
    }
}

/// A rate's basis-point count is non-negative and fits the basis-point
/// range.
pub proof fn lemma_rate_bounds(r: Rate)
    ensures
        0 <= r@ <= u32::MAX,
{
}

/// A well-formed amount's value lies between zero and the maximum.
pub proof fn lemma_view_bounds(v: Gbp)
    requires
        v.inv(),
    ensures
        0 <= v@ <= max_pence(),
{
}

/// Multiplying by a rate of at most one (10000 basis points) never
/// enlarges an amount, and never yields a negative one.
pub proof fn lemma_rate_mul_le(pence: int, basis_points: int)
    requires
        0 <= pence,
        0 <= basis_points <= 10000,
    ensures
        0 <= rate_mul(pence, basis_points) <= pence,
{
    assert(pence * basis_points <= pence * 10000) by (nonlinear_arith)
        requires
            0 <= pence,
            basis_points <= 10000,
    ;
    assert(0 <= pence * basis_points) by (nonlinear_arith)
        requires
            0 <= pence,
            0 <= basis_points,
    ;
    vstd::arithmetic::div_mod::lemma_div_is_ordered(
        pence * basis_points + 5000,
        pence * 10000 + 5000,
        10000,
    );
    vstd::arithmetic::div_mod::lemma_div_is_ordered(0, pence * basis_points + 5000, 10000);
    assert((pence * 10000 + 5000) / 10000 == pence) by {
        vstd::arithmetic::div_mod::lemma_fundamental_div_mod_converse(
            pence * 10000 + 5000,
            10000,
            pence,
            5000,
        );
    }
}

/// An amount is determined by its value: two well-formed amounts with
/// the same number of pence are the same amount.
pub proof fn lemma_view_injective(a: Gbp, b: Gbp)
    requires
        a.inv(),
        b.inv(),
        a@ == b@,
    ensures
        a == b,
{
    vstd::arithmetic::div_mod::lemma_fundamental_div_mod_converse(
        a@,
        100,
        a.pounds as int,
        a.pence as int,
    );
    vstd::arithmetic::div_mod::lemma_fundamental_div_mod_converse(
        b@,
        100,
        b.pounds as int,
        b.pence as int,
    );
}

/// Law: subtracting an amount and adding it back restores the original.
///
/// For amounts `a >= b`, let `d` be what [`Gbp::subtract`] yields for
/// `a - b` and `r` what [`Gbp::add`] yields for `d + b`, as their
/// contracts state; then `r` is `a` itself.
pub proof fn lemma_subtract_add_roundtrip(a: Gbp, b: Gbp, d: Gbp, r: Gbp)
    requires
        a.inv(),
        b.inv(),
        b@ <= a@,
        d.inv(),
        d@ == a@ - b@,
        r.inv(),
        r@ == d@ + b@,
    ensures
        r == a,
{
    lemma_view_injective(r, a);
}

/// Law: displaying an amount is a pure function of its value. Any two
/// texts that satisfy the display contract for the same amount are
/// identical.
pub proof fn lemma_display_deterministic(v: Gbp, s1: Seq<char>, s2: Seq<char>)
    requires
        s1 == gbp_display(v@),
        s2 == gbp_display(v@),
    ensures
        s1 == s2,
{
}

/// Law: parsing the text an amount displays as yields the amount back.
///
/// For any well-formed amount, the display text parses successfully to
/// the same pound and pence counts.
pub proof fn lemma_parse_display_roundtrip(v: Gbp)
    requires
        v.inv(),
    ensures
        gbp_parse(gbp_display(v@)) == Ok::<(int, int), ParseError>((v@ / 100, v@ % 100)),
{
    vstd::arithmetic::div_mod::lemma_fundamental_div_mod_converse(
        v@,
        100,
        v.pounds as int,
        v.pence as int,
    );
    let p = v@ / 100;
    let c = v@ % 100;
    crate::digits::lemma_digits_of_correct(p as nat);
    let ds0 = digits_of(p as nat);
    let g = group_digits(ds0);
    crate::digits::lemma_group_digits_chars(ds0);
    crate::digits::lemma_group_digits_remove_commas(ds0);
    crate::digits::lemma_digit_char_val(c / 10);
    crate::digits::lemma_digit_char_val(c % 10);
    let d1 = digit_char(c / 10);
    let d0 = digit_char(c % 10);
    let s = gbp_display(v@);
    assert(s == seq!['£'] + g + seq!['.'] + seq![d1, d0]);
    assert(s[0] == '£');
    let t = s.subrange(1, s.len() as int);
    assert(t =~= g + seq!['.'] + seq![d1, d0]);
    assert(forall|i: int| 0 <= i < g.len() ==> t[i] == g[i]);
    assert(t[g.len() as int] == '.');
    crate::digits::lemma_first_dot(t);
    let fd = first_dot(t);
    assert(forall|i: int|
        0 <= i < g.len() ==> is_digit(#[trigger] t[i]) || t[i] == ',');
    assert(forall|i: int| 0 <= i < g.len() ==> t[i] != '.');
    if fd == -1 {
        assert(t[g.len() as int] == '.');
    }
    assert(fd == g.len());
    let ip = t.subrange(0, fd);
    let fp = t.subrange(fd + 1, t.len() as int);
    assert(ip =~= g);
    assert(fp =~= seq![d1, d0]);
    assert(remove_commas(ip) == ds0);
    lemma_parse_digits_pair(d1, d0);
    vstd::arithmetic::div_mod::lemma_fundamental_div_mod(c, 10);
    assert(parse_digits(fp) == c);
    assert(all_digits(fp)) by {
        assert(forall|q: int| 0 <= q < fp.len() ==> is_digit(#[trigger] fp[q])) by {
            assert(fp.len() == 2);
            assert(is_digit(fp[0]) && is_digit(fp[1]));
        }
    }
}

/// The value of a two-digit string.
proof fn lemma_parse_digits_pair(c1: char, c0: char)
    ensures
        parse_digits(seq![c1, c0]) == crate::digits::digit_val(c1) * 10
            + crate::digits::digit_val(c0),
{
    reveal_with_fuel(parse_digits, 3);
    assert(seq![c1, c0].drop_last() =~= seq![c1]);
    assert(seq![c1].drop_last() =~= Seq::<char>::empty());
}

/// The total number of pence held by a sequence of amounts.
pub open spec fn sum_pence(s: Seq<Gbp>) -> int
    decreases s.len(),
{
    if s.len() == 0 {
        0
    } else {
        sum_pence(s.drop_last()) + s.last()@
    }
}

/// Every prefix of a sequence of well-formed amounts sums to no more than
/// the whole sequence.
proof fn lemma_sum_pence_prefix_le(s: Seq<Gbp>, i: int)
    requires
        0 <= i <= s.len(),
    ensures
        sum_pence(s.subrange(0, i)) <= sum_pence(s),
        sum_pence(s) >= 0,
    decreases s.len(),
{
    if s.len() == 0 {
        assert(s.subrange(0, i) =~= s);
    } else {
        lemma_sum_pence_prefix_le(s.drop_last(), if i < s.len() { i } else { i - 1 });
        if i < s.len() {
            assert(s.subrange(0, i) =~= s.drop_last().subrange(0, i));
        } else {
            assert(s.subrange(0, i) =~= s);
            assert(s.drop_last().subrange(0, i - 1) =~= s.drop_last());
        }
    }
}

impl Gbp {
    /// Sum a sequence of amounts by repeated addition from zero.
    ///
    /// The total must not exceed the largest representable amount.
    pub fn sum(values: &Vec<Gbp>) -> (r: Gbp)
        requires
            forall|i: int| 0 <= i < values@.len() ==> (#[trigger] values@[i]).inv(),
            sum_pence(values@) <= max_pence(),
        ensures
            r.inv(),
            r@ == sum_pence(values@),
    {
        let mut total = Gbp::from_pounds(0);
        let mut i: usize = 0;
        while i < values.len()
            invariant
                0 <= i <= values@.len(),
                forall|k: int| 0 <= k < values@.len() ==> (#[trigger] values@[k]).inv(),
                sum_pence(values@) <= max_pence(),
                total.inv(),
                total@ == sum_pence(values@.subrange(0, i as int)),
            decreases values@.len() - i,
        {
            proof {
                lemma_sum_pence_prefix_le(values@, i + 1);
                assert(values@.subrange(0, i + 1).drop_last() =~= values@.subrange(0, i as int));
                assert(values@.subrange(0, i + 1).last() == values@[i as int]);
            }
            total = total.add(&values[i]);
            i = i + 1;
        }
        proof {
            assert(values@.subrange(0, values@.len() as int) =~= values@);
        }
        total
    }
}

} // verus!
