//! Decimal digit strings: specifications and verified helpers for
//! reading unsigned integers out of text and rendering them back.

use vstd::prelude::*;
use vstd::string::StrSliceExecFns;
use vstd::string::StringExecFns;

verus! {

/// Whether `c` is an ASCII decimal digit.
pub open spec fn is_digit(c: char) -> bool {
    '0' as u32 <= c as u32 && c as u32 <= '9' as u32
}

/// The numeric value of a digit character; zero for anything else.
pub open spec fn digit_of(c: char) -> nat {
    if is_digit(c) {
        (c as u32 - '0' as u32) as nat
    } else {
        0
    }
}

/// Whether every character of `s` is an ASCII decimal digit.
pub open spec fn all_digits(s: Seq<char>) -> bool {
    forall|i: int| 0 <= i < s.len() ==> is_digit(s[i])
}

/// The value of `s` read as a big-endian decimal numeral.
pub open spec fn dec_val(s: Seq<char>) -> nat
    decreases s.len(),
{
    if s.len() == 0 {
        0
    } else {
        dec_val(s.drop_last()) * 10 + digit_of(s.last())
    }
}

/// Ten to the power `n`.
pub open spec fn pow10(n: nat) -> nat
    decreases n,
{
    if n == 0 {
        1
    } else {
        10 * pow10((n - 1) as nat)
    }
}

/// A numeral's value is bounded by ten to its length.
pub proof fn lemma_dec_val_bound(s: Seq<char>)
    ensures
        dec_val(s) < pow10(s.len()),
    decreases s.len(),
{
    if s.len() == 0 {
    } else {
        lemma_dec_val_bound(s.drop_last());
    }
}

/// Reading only a prefix of a numeral never yields a larger value.
pub proof fn lemma_dec_val_prefix(s: Seq<char>, j: int)
    requires
        0 <= j <= s.len(),
    ensures
        dec_val(s.take(j)) <= dec_val(s),
    decreases s.len() - j,
{
    if j == s.len() {
        assert(s.take(j) =~= s);
    } else {
        lemma_dec_val_prefix(s, j + 1);
        assert(s.take(j + 1).drop_last() =~= s.take(j));
        assert(dec_val(s.take(j)) <= dec_val(s.take(j + 1)));
    }
}

/// The result of reading the numeral `s`, accepted only when it is a
/// nonempty run of digits whose value does not exceed `max`.
pub open spec fn uint_parse(s: Seq<char>, max: nat) -> Option<nat> {
    if s.len() > 0 && all_digits(s) && dec_val(s) <= max {
        Some(dec_val(s))
    } else {
        None
    }
}

/// Reads `s[from..to]` as a decimal numeral worth at most `max`.
pub fn parse_uint(s: &str, from: usize, to: usize, max: u64) -> (r: Option<u64>)
    requires
        from <= to <= s@.len(),
    ensures
        match uint_parse(s@.subrange(from as int, to as int), max as nat) {
            Some(v) => r matches Some(x) && x as nat == v,
            None => r is None,
        },
{
    let ghost whole = s@.subrange(from as int, to as int);
    if from == to {
        return None;
    }
    let mut v: u64 = 0;
    let mut i: usize = from;
    while i < to
        invariant
            from <= i <= to <= s@.len(),
            whole == s@.subrange(from as int, to as int),
            all_digits(s@.subrange(from as int, i as int)),
            v as nat == dec_val(s@.subrange(from as int, i as int)),
            v <= max,
        decreases to - i,
    {
        let c = s.get_char(i);
        let u = c as u32;
        if u < 48 || u > 57 {
            proof {
                assert(whole[i - from] == s@[i as int]);
                assert(!is_digit(s@[i as int]));
            }
            return None;
        }
        let d = (u - 48) as u64;
        proof {
            assert(s@.subrange(from as int, i + 1).drop_last() =~= s@.subrange(
                from as int,
                i as int,
            ));
            assert(s@.subrange(from as int, i + 1).last() == s@[i as int]);
            assert(is_digit(s@[i as int]));
            assert(digit_of(s@[i as int]) == d as nat);
            assert(dec_val(s@.subrange(from as int, i + 1)) == v as nat * 10 + d as nat);
            assert(whole.take(i + 1 - from) =~= s@.subrange(from as int, i + 1));
        }
        let vn: u64 = match v.checked_mul(10) {
            Some(v10) => match v10.checked_add(d) {
                Some(vn) => vn,
                None => {
                    proof {
                        lemma_dec_val_prefix(whole, i + 1 - from);
                    }
                    return None;
                },
            },
            None => {
                proof {
                    lemma_dec_val_prefix(whole, i + 1 - from);
                }
                return None;
            },
        };
        if vn > max {
            proof {
                lemma_dec_val_prefix(whole, i + 1 - from);
            }
            return None;
        }
        proof {
            assert(all_digits(s@.subrange(from as int, i + 1))) by {
                assert(forall|k: int|
                    0 <= k < i + 1 - from ==> s@.subrange(from as int, i + 1)[k] == s@.subrange(
                        from as int,
                        i as int,
                    ).push(s@[i as int])[k]);
                assert(s@.subrange(from as int, i + 1) =~= s@.subrange(from as int, i as int).push(
                    s@[i as int],
                ));
            }
        }
        v = vn;
        i = i + 1;
    }
    proof {
        assert(s@.subrange(from as int, i as int) =~= whole);
    }
    Some(v)
}

/// Whether `s[from..to]` consists only of ASCII decimal digits.
pub fn digits_only(s: &str, from: usize, to: usize) -> (r: bool)
    requires
        from <= to <= s@.len(),
    ensures
        r == all_digits(s@.subrange(from as int, to as int)),
{
    let ghost whole = s@.subrange(from as int, to as int);
    let mut i: usize = from;
    while i < to
        invariant
            from <= i <= to <= s@.len(),
            whole == s@.subrange(from as int, to as int),
            all_digits(s@.subrange(from as int, i as int)),
        decreases to - i,
    {
        let c = s.get_char(i);
        let u = c as u32;
        if u < 48 || u > 57 {
            proof {
                assert(whole[i - from] == s@[i as int]);
            }
            return false;
        }
        proof {
            assert(s@.subrange(from as int, i + 1) =~= s@.subrange(from as int, i as int).push(
                s@[i as int],
            ));
        }
        i = i + 1;
    }
    proof {
        assert(s@.subrange(from as int, i as int) =~= whole);
    }
    true
}

/// The character for the digit `d`; digits past nine fall back to `'9'`.
pub open spec fn digit_char(d: nat) -> char {
    if d == 0 {
        '0'
    } else if d == 1 {
        '1'
    } else if d == 2 {
        '2'
    } else if d == 3 {
        '3'
    } else if d == 4 {
        '4'
    } else if d == 5 {
        '5'
    } else if d == 6 {
        '6'
    } else if d == 7 {
        '7'
    } else if d == 8 {
        '8'
    } else {
        '9'
    }
}

/// The minimal decimal numeral for `n`, with `"0"` for zero.
pub open spec fn dec_digits(n: nat) -> Seq<char>
    decreases n,
{
    if n < 10 {
        seq![digit_char(n)]
    } else {
        dec_digits(n / 10).push(digit_char(n % 10))
    }
}

/// A run of `n` zero characters.
pub open spec fn zeros(n: nat) -> Seq<char>
    decreases n,
{
    if n == 0 {
        Seq::empty()
    } else {
        zeros((n - 1) as nat).push('0')
    }
}

/// `s` left-padded with zeros to length `k`.
pub open spec fn pad_digits(s: Seq<char>, k: nat) -> Seq<char> {
    if s.len() >= k {
        s
    } else {
        zeros((k - s.len()) as nat) + s
    }
}

/// A one-character string slice holding the digit `d`.
fn digit_str(d: u64) -> (r: &'static str)
    requires
        d < 10,
    ensures
        r@ =~= seq![digit_char(d as nat)],
{
    if d == 0 {
        proof {
            reveal_strlit("0");
        }
        "0"
    } else if d == 1 {
        proof {
            reveal_strlit("1");
        }
        "1"
    } else if d == 2 {
        proof {
            reveal_strlit("2");
        }
        "2"
    } else if d == 3 {
        proof {
            reveal_strlit("3");
        }
        "3"
    } else if d == 4 {
        proof {
            reveal_strlit("4");
        }
        "4"
    } else if d == 5 {
        proof {
            reveal_strlit("5");
        }
        "5"
    } else if d == 6 {
        proof {
            reveal_strlit("6");
        }
        "6"
    } else if d == 7 {
        proof {
            reveal_strlit("7");
        }
        "7"
    } else if d == 8 {
        proof {
            reveal_strlit("8");
        }
        "8"
    } else {
        proof {
            reveal_strlit("9");
        }
        "9"
    }
}

/// Renders `n` as its minimal decimal numeral.
pub fn render_dec(n: u64) -> (s: String)
    ensures
        s@ == dec_digits(n as nat),
    decreases n,
{
    if n < 10 {
        let r = digit_str(n).to_owned();
        proof {
            assert(r@ =~= dec_digits(n as nat));
        }
        r
    } else {
        proof {
            assert(n / 10 < n) by (nonlinear_arith)
                requires
                    n >= 10,
            ;
        }
        let mut s = render_dec(n / 10);
        s.append(digit_str(n % 10));
        proof {
            assert(s@ =~= dec_digits((n / 10) as nat).push(digit_char((n % 10) as nat)));
        }
        s
    }
}

/// Renders `n` as a numeral left-padded with zeros to `width`.
pub fn render_padded(n: u64, width: usize) -> (s: String)
    ensures
        s@ == pad_digits(dec_digits(n as nat), width as nat),
{
    let ds = render_dec(n);
    let dl = ds.as_str().unicode_len();
    let mut out = String::new();
    let mut i: usize = dl;
    while i < width
        invariant
            dl <= i,
            i <= width || i == dl,
            out@ == zeros((i - dl) as nat),
            ds@ == dec_digits(n as nat),
            dl == ds@.len(),
        decreases width - i,
    {
        out.append(digit_str(0));
        proof {
            assert(out@ =~= zeros((i + 1 - dl) as nat));
        }
        i = i + 1;
    }
    let r = out.concat(ds.as_str());
    proof {
        if dl >= width {
            assert(zeros(0) =~= Seq::<char>::empty());
            assert(r@ =~= pad_digits(dec_digits(n as nat), width as nat));
        } else {
            assert(r@ =~= pad_digits(dec_digits(n as nat), width as nat));
        }
    }
    r
}

} // verus!
