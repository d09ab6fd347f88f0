//! Fixed-precision monetary amounts.
//!
//! A `Money` value is an unsigned integer count of 1/10000 currency
//! units, so four decimal digits are represented exactly and no
//! floating-point arithmetic occurs anywhere in the ledger.

use crate::digits::all_digits;
use crate::digits::dec_digits;
use crate::digits::dec_val;
use crate::digits::digits_only;
use crate::digits::lemma_dec_val_bound;
use crate::digits::pad_digits;
use crate::digits::parse_uint;
use crate::digits::pow10;
use crate::digits::render_dec;
use crate::digits::render_padded;
use crate::digits::uint_parse;
use vstd::prelude::*;
use vstd::string::StrSliceExecFns;
use vstd::string::StringExecFns;

verus! {

/// The number of stored units that make up one whole currency unit.
pub const SCALE: u64 = 10000;

/// An exact, non-negative monetary amount with four decimal digits of
/// precision, stored as a count of 1/10000 currency units.
#[derive(PartialEq, Eq, Structural, Debug, Clone, Copy, PartialOrd, Ord)]
pub struct Money(u64);

impl View for Money {
    type V = nat;

    closed spec fn view(&self) -> nat {
        self.0 as nat
    }
}

/// Why a piece of monetary text was rejected.
#[derive(PartialEq, Eq, Structural, Debug, Clone, Copy)]
pub enum MoneyParseError {
    /// The whole part is too large to scale, or the amount carries
    /// more fractional precision than the type stores.
    ExceededPrecision,
    /// The text is not of the shape `digits` or `digits.digits`.
    Malformed,
}

impl Money {
    /// The additive identity.
    pub fn zero() -> (r: Money)
        ensures
            r@ == 0,
    {
        Money(0)
    }

    /// Builds an amount from a whole part and a count of 1/10000 units.
    pub fn from_parts(whole: u64, fractional_units: u64) -> (r: Money)
        requires
            fractional_units < SCALE,
            whole * SCALE + fractional_units <= u64::MAX,
        ensures
            r@ == whole * SCALE + fractional_units,
    {
        Money(whole * SCALE + fractional_units)
    }

    /// The stored count of 1/10000 currency units.
    pub fn units(&self) -> (r: u64)
        ensures
            r == self@,
    {
        self.0
    }

    /// Exact sum of two amounts.
    pub fn add(self, rhs: Money) -> (r: Money)
        requires
            self@ + rhs@ <= u64::MAX,
        ensures
            r@ == self@ + rhs@,
    {
        Money(self.0 + rhs.0)
    }

    /// Exact difference of two amounts; the subtrahend must not exceed
    /// the minuend, since no negative amount is representable.
    pub fn sub(self, rhs: Money) -> (r: Money)
        requires
            rhs@ <= self@,
        ensures
            r@ == self@ - rhs@,
    {
        Money(self.0 - rhs.0)
    }
}

/// Whether `c` is one of the ASCII whitespace characters stripped
/// from the ends of monetary text before parsing.
pub open spec fn is_ws(c: char) -> bool {
    c == ' ' || c == '\t' || c == '\n' || c == '\r' || c == '\u{b}' || c == '\u{c}'
}

/// `s` with leading and trailing whitespace removed.
pub open spec fn trimmed(s: Seq<char>) -> Seq<char>
    decreases s.len(),
{
    if s.len() > 0 && is_ws(s[0]) {
        trimmed(s.drop_first())
    } else if s.len() > 0 && is_ws(s.last()) {
        trimmed(s.drop_last())
    } else {
        s
    }
}

/// The index of the first `'.'` in `s`, or `s.len()` if there is none.
pub open spec fn first_dot(s: Seq<char>) -> int
    decreases s.len(),
{
    if s.len() == 0 {
        0
    } else if s[0] == '.' {
        0
    } else {
        1 + first_dot(s.drop_first())
    }
}

/// The scaled value of the whole part `w`: the digits are read as an
/// integer, rejected as `Malformed` when they are not a numeral and as
/// `ExceededPrecision` when scaling the value would overflow.
pub open spec fn whole_result(w: Seq<char>) -> Result<nat, MoneyParseError> {
    match uint_parse(w, u64::MAX as nat) {
        None => Err(MoneyParseError::Malformed),
        Some(v) => if v > (u64::MAX / SCALE) as nat {
            Err(MoneyParseError::ExceededPrecision)
        } else {
            Ok((v * SCALE) as nat)
        },
    }
}

/// The value of the fractional part `f` in 1/10000 units: the digits
/// are implicitly extended with zeros to the stored scale of four.
pub open spec fn frac_result(f: Seq<char>) -> Result<nat, MoneyParseError> {
    if f.len() == 0 || !all_digits(f) {
        Err(MoneyParseError::Malformed)
    } else if f.len() > 4 {
        Err(MoneyParseError::ExceededPrecision)
    } else if f.len() == 1 {
        Ok(dec_val(f) * 1000)
    } else if f.len() == 2 {
        Ok(dec_val(f) * 100)
    } else if f.len() == 3 {
        Ok(dec_val(f) * 10)
    } else {
        Ok(dec_val(f))
    }
}

/// The combined value of a whole part and a fractional part; an error
/// in the whole part wins over one in the fractional part.
pub open spec fn combined_result(w: Seq<char>, f: Seq<char>) -> Result<nat, MoneyParseError> {
    match whole_result(w) {
        Err(e) => Err(e),
        Ok(wv) => match frac_result(f) {
            Err(e) => Err(e),
            Ok(fv) => if wv + fv > u64::MAX as nat {
                Err(MoneyParseError::ExceededPrecision)
            } else {
                Ok(wv + fv)
            },
        },
    }
}

/// What parsing the monetary text `s` yields: after trimming, either a
/// plain numeral or one numeral each side of a single decimal point.
pub open spec fn parse_result(s: Seq<char>) -> Result<nat, MoneyParseError> {
    let t = trimmed(s);
    if t.len() == 0 {
        Err(MoneyParseError::Malformed)
    } else if !t.contains('.') {
        whole_result(t)
    } else {
        let d = first_dot(t);
        let f = t.skip(d + 1);
        if f.contains('.') {
            Err(MoneyParseError::Malformed)
        } else {
            combined_result(t.take(d), f)
        }
    }
}

/// If `s` has a `'.'` at `i` and none before it, then `i` is where
/// `first_dot` points.
proof fn lemma_first_dot_at(s: Seq<char>, i: int)
    requires
        0 <= i < s.len(),
        s[i] == '.',
        forall|j: int| 0 <= j < i ==> s[j] != '.',
    ensures
        s.contains('.'),
        first_dot(s) == i,
    decreases i,
{
    assert(s[i] == '.');
    if i > 0 {
        assert(s[0] != '.');
        let d = s.drop_first();
        assert(d[i - 1] == s[i]);
        assert(forall|j: int| 0 <= j < i - 1 ==> d[j] == s[j + 1] && s[j + 1] != '.');
        lemma_first_dot_at(d, i - 1);
    }
}

/// Whether `c` is an ASCII whitespace character.
fn ws_char(c: char) -> (b: bool)
    ensures
        b == is_ws(c),
{
    c == ' ' || c == '\t' || c == '\n' || c == '\r' || c == '\u{b}' || c == '\u{c}'
}

/// Reads `s[from..to]` as a whole part and scales it.
fn whole_scaled(s: &str, from: usize, to: usize) -> (r: Result<u64, MoneyParseError>)
    requires
        from <= to <= s@.len(),
    ensures
        match whole_result(s@.subrange(from as int, to as int)) {
            Ok(v) => r matches Ok(x) && x as nat == v,
            Err(e) => r matches Err(pe) && pe == e,
        },
{
    match parse_uint(s, from, to, u64::MAX) {
        None => Err(MoneyParseError::Malformed),
        Some(w) => {
            if w > u64::MAX / SCALE {
                Err(MoneyParseError::ExceededPrecision)
            } else {
                Ok(w * SCALE)
            }
        },
    }
}

/// Reads `s[from..to]` as a fractional part worth 1/10000 units.
fn frac_value(s: &str, from: usize, to: usize) -> (r: Result<u64, MoneyParseError>)
    requires
        from <= to <= s@.len(),
    ensures
        match frac_result(s@.subrange(from as int, to as int)) {
            Ok(v) => r matches Ok(x) && x as nat == v,
            Err(e) => r matches Err(pe) && pe == e,
        },
{
    let ghost f = s@.subrange(from as int, to as int);
    if from == to {
        return Err(MoneyParseError::Malformed);
    }
    if !digits_only(s, from, to) {
        return Err(MoneyParseError::Malformed);
    }
    let len = to - from;
    if len > 4 {
        return Err(MoneyParseError::ExceededPrecision);
    }
    proof {
        lemma_dec_val_bound(f);
        assert(pow10(0) == 1);
        assert(pow10(1) == 10);
        assert(pow10(2) == 100);
        assert(pow10(3) == 1000);
        assert(pow10(4) == 10000);
        assert(f.len() == 1 || f.len() == 2 || f.len() == 3 || f.len() == 4);
        assert(dec_val(f) < 10000);
    }
    match parse_uint(s, from, to, u64::MAX) {
        None => {
            proof {
                assert(uint_parse(f, u64::MAX as nat) is Some);
                assert(false);
            }
            Err(MoneyParseError::Malformed)
        },
        Some(val) => {
            proof {
                assert(val as nat == dec_val(f));
            }
            if len == 1 {
                proof {
                    assert(dec_val(f) < 10);
                }
                Ok(val * 1000)
            } else if len == 2 {
                proof {
                    assert(dec_val(f) < 100);
                }
                Ok(val * 100)
            } else if len == 3 {
                proof {
                    assert(dec_val(f) < 1000);
                }
                Ok(val * 10)
            } else {
                Ok(val)
            }
        },
    }
}

/// The fractional remainder `f` reduced by trailing zeros, never below
/// one digit: the reduced value paired with the display width.
pub open spec fn frac_parts(f: nat, k: nat) -> (nat, nat)
    decreases k,
{
    if k <= 1 || f % 10 != 0 {
        (f, k)
    } else {
        frac_parts(f / 10, (k - 1) as nat)
    }
}

/// The display form of a fractional remainder: its four digits with
/// trailing zeros dropped, but at least one digit.
pub open spec fn frac_digits(f: nat) -> Seq<char> {
    pad_digits(dec_digits(frac_parts(f, 4).0), frac_parts(f, 4).1)
}

/// The display form of a stored amount: the whole part, a decimal
/// point, and the reduced fractional part.
pub open spec fn display_of(v: nat) -> Seq<char> {
    dec_digits(v / (SCALE as nat)) + seq!['.'] + frac_digits(v % (SCALE as nat))
}

impl Money {
    /// Parses monetary text: optional surrounding whitespace, then a
    /// whole-part numeral, optionally followed by one decimal point
    /// and at most four fractional digits.
    pub fn parse(s: &str) -> (r: Result<Money, MoneyParseError>)
        ensures
            match parse_result(s@) {
                Ok(v) => r matches Ok(m) && m@ == v,
                Err(e) => r matches Err(pe) && pe == e,
            },
    {
        let n = s.unicode_len();
        let mut lo: usize = 0;
        let mut hi: usize = n;
        proof {
            assert(s@.subrange(0, n as int) =~= s@);
        }
        while lo < hi && ws_char(s.get_char(lo))
            invariant
                lo <= hi,
                hi == n,
                n == s@.len(),
                trimmed(s@) == trimmed(s@.subrange(lo as int, hi as int)),
            decreases hi - lo,
        {
            proof {
                let t = s@.subrange(lo as int, hi as int);
                assert(t[0] == s@[lo as int]);
                assert(t.drop_first() =~= s@.subrange(lo as int + 1, hi as int));
            }
            lo = lo + 1;
        }
        while lo < hi && ws_char(s.get_char(hi - 1))
            invariant
                lo <= hi <= n,
                n == s@.len(),
                trimmed(s@) == trimmed(s@.subrange(lo as int, hi as int)),
                lo == hi || !is_ws(s@[lo as int]),
            decreases hi,
        {
            proof {
                let t = s@.subrange(lo as int, hi as int);
                assert(t[0] == s@[lo as int]);
                assert(t.last() == s@[hi - 1]);
                assert(t.drop_last() =~= s@.subrange(lo as int, hi - 1));
            }
            hi = hi - 1;
        }
        let ghost t = s@.subrange(lo as int, hi as int);
        proof {
            if t.len() > 0 {
                assert(t[0] == s@[lo as int]);
                assert(t.last() == s@[hi - 1]);
            }
            assert(trimmed(t) == t);
        }
        if lo == hi {
            return Err(MoneyParseError::Malformed);
        }
        let mut dot: usize = hi;
        let mut second: bool = false;
        let mut i: usize = lo;
        while i < hi
            invariant
                lo <= i <= hi <= n,
                n == s@.len(),
                dot == hi || lo <= dot < i,
                dot == hi ==> forall|j: int| lo <= j < i ==> s@[j] != '.',
                dot < hi ==> s@[dot as int] == '.',
                dot < hi ==> forall|j: int| lo <= j < dot ==> s@[j] != '.',
                dot < hi ==> (second <==> exists|j: int| dot < j < i && s@[j] == '.'),
                dot == hi ==> !second,
            decreases hi - i,
        {
            let c = s.get_char(i);
            if c == '.' {
                if dot == hi {
                    dot = i;
                } else {
                    second = true;
                }
            }
            i = i + 1;
        }
        if dot == hi {
            proof {
                assert(forall|k: int| 0 <= k < t.len() ==> t[k] == s@[lo + k] && s@[lo + k] != '.');
                assert(!t.contains('.'));
            }
            match whole_scaled(s, lo, hi) {
                Ok(w) => Ok(Money(w)),
                Err(e) => Err(e),
            }
        } else {
            proof {
                assert(t[dot - lo] == s@[dot as int]);
                assert(forall|j: int| 0 <= j < dot - lo ==> t[j] == s@[lo + j] && s@[lo + j] != '.');
                lemma_first_dot_at(t, dot - lo);
            }
            let ghost f = t.skip(dot - lo + 1);
            proof {
                assert(f =~= s@.subrange(dot as int + 1, hi as int));
            }
            if second {
                proof {
                    let j = choose|j: int| dot < j < hi && s@[j] == '.';
                    assert(f[j - dot - 1] == s@[j]);
                    assert(f.contains('.'));
                }
                return Err(MoneyParseError::Malformed);
            }
            proof {
                assert(forall|k: int| 0 <= k < f.len() ==> f[k] == s@[dot + 1 + k] && s@[dot + 1 + k]
                    != '.');
                assert(!f.contains('.'));
                assert(t.take(dot - lo) =~= s@.subrange(lo as int, dot as int));
            }
            match whole_scaled(s, lo, dot) {
                Err(e) => Err(e),
                Ok(wv) => match frac_value(s, dot + 1, hi) {
                    Err(e) => Err(e),
                    Ok(fv) => match wv.checked_add(fv) {
                        None => Err(MoneyParseError::ExceededPrecision),
                        Some(total) => Ok(Money(total)),
                    },
                },
            }
        }
    }

    /// Renders the amount as `whole.fraction` with trailing fractional
    /// zeros dropped, e.g. `"42.0"`, `"1.5"`, `"3.0014"`.
    pub fn to_display_string(&self) -> (r: String)
        ensures
            r@ == display_of(self@),
    {
        let whole = self.0 / SCALE;
        let mut f = self.0 % SCALE;
        let mut k: usize = 4;
        while f % 10 == 0 && k > 1
            invariant
                1 <= k <= 4,
                f <= 9999,
                frac_parts((self.0 % SCALE) as nat, 4) == frac_parts(f as nat, k as nat),
            decreases k,
        {
            f = f / 10;
            k = k - 1;
        }
        let mut out = render_dec(whole);
        proof {
            reveal_strlit(".");
        }
        out.append(".");
        let fs = render_padded(f, k);
        out.append(fs.as_str());
        proof {
            assert("."@ =~= seq!['.']);
            assert(out@ =~= display_of(self@));
        }
        out
    }
}

} // verus!
