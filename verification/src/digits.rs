//! Decimal digit strings: the value of a digit run, parsing in the manner of
//! `usize::from_str`, and rendering a number back to decimal.

use vstd::prelude::*;

verus! {

/// An ASCII decimal digit.
pub open spec fn is_digit_char(c: char) -> bool {
    '0' <= c && c <= '9'
}

/// Numeric value of one digit character.
pub open spec fn digit_val(c: char) -> int {
    c as int - '0' as int
}

/// Every character of `s` is a decimal digit.
pub open spec fn all_digits(s: Seq<char>) -> bool {
    forall|i: int| 0 <= i < s.len() ==> is_digit_char(s[i])
}

/// Value of a digit string read most-significant first.
pub open spec fn dec_val(s: Seq<char>) -> int
    decreases s.len(),
{
    if s.len() == 0 {
        0
    } else {
        dec_val(s.drop_last()) * 10 + digit_val(s.last())
    }
}

/// The digit character for a value in 0..10.
pub open spec fn digit_char(d: int) -> char {
    if d == 0 {
        '0'
    } else if d == 1 {
        '1'
    } else if d == 2 {
        '2'
    } else if d == 3 {
        '3'
    } else if d == 4 {
        '4'
    } else if d == 5 {
        '5'
    } else if d == 6 {
        '6'
    } else if d == 7 {
        '7'
    } else if d == 8 {
        '8'
    } else {
        '9'
    }
}

/// Decimal rendering of a non-negative number, without leading zeros.
pub open spec fn dec_str(n: int) -> Seq<char>
    decreases n,
{
    if n < 10 {
        seq![digit_char(n)]
    } else {
        dec_str(n / 10).push(digit_char(n % 10))
    }
}

pub proof fn lemma_dec_val_nonneg(s: Seq<char>)
    requires
        all_digits(s),
    ensures
        dec_val(s) >= 0,
    decreases s.len(),
{
    if s.len() > 0 {
        assert(all_digits(s.drop_last()));
        lemma_dec_val_nonneg(s.drop_last());
    }
}

/// The value of a digit string only grows as more digits follow.
pub proof fn lemma_dec_val_take_le(s: Seq<char>, i: int)
    requires
        all_digits(s),
        0 <= i <= s.len(),
    ensures
        dec_val(s.take(i)) <= dec_val(s),
    decreases s.len() - i,
{
    if i < s.len() {
        assert(s.take(i + 1).drop_last() =~= s.take(i));
        assert(all_digits(s.take(i)));
        lemma_dec_val_nonneg(s.take(i));
        assert(dec_val(s.take(i + 1)) == dec_val(s.take(i)) * 10 + digit_val(s[i]));
        lemma_dec_val_take_le(s, i + 1);
    } else {
        assert(s.take(i) =~= s);
    }
}

/// The digit run accepted by `usize::from_str`: an optional leading `+`,
/// then the digits themselves.
pub open spec fn usize_str_digits(s: Seq<char>) -> Seq<char> {
    if s.len() > 0 && s[0] == '+' {
        s.drop_first()
    } else {
        s
    }
}

/// Whether `usize::from_str` accepts `s`: at least one digit after the
/// optional sign, and a value that fits in `usize`.
pub open spec fn usize_str_ok(s: Seq<char>) -> bool {
    let d = usize_str_digits(s);
    d.len() > 0 && all_digits(d) && dec_val(d) <= usize::MAX
}

/// The value `usize::from_str` returns on an accepted string.
pub open spec fn usize_str_val(s: Seq<char>) -> int {
    dec_val(usize_str_digits(s))
}

/// Parses a non-negative decimal integer exactly as `usize::from_str` does:
/// `None` where that parse reports an error, whether for an empty digit run,
/// a stray character or overflow.
#[verifier::loop_isolation(false)]
pub fn parse_usize(s: &str) -> (r: Option<usize>)
    ensures
        r is Some <==> usize_str_ok(s@),
        r matches Some(v) ==> v == usize_str_val(s@),
{
    let n = s.unicode_len();
    let mut start: usize = 0;
    if n > 0 && s.get_char(0) == '+' {
        start = 1;
    }
    if start >= n {
        return None;
    }
    let ghost d = usize_str_digits(s@);
    proof {
        assert(d =~= s@.subrange(start as int, n as int));
    }
    let mut val: usize = 0;
    let mut i: usize = start;
    while i < n
        invariant
            start <= i <= n,
            all_digits(d.take(i - start)),
            val == dec_val(d.take(i - start)),
        decreases n - i,
    {
        let c = s.get_char(i);
        proof {
            assert(d[i - start] == c);
        }
        if !('0' <= c && c <= '9') {
            return None;
        }
        let digit: usize = (c as u32 - 48) as usize;
        proof {
            assert(digit == digit_val(c));
            assert(d.take(i - start + 1).drop_last() =~= d.take(i - start));
            assert(d.take(i - start + 1).last() == c);
            assert(dec_val(d.take(i - start + 1)) == val * 10 + digit_val(c));
        }
        if val > (usize::MAX - digit) / 10 {
            proof {
                assert(val * 10 + digit > usize::MAX);
                if all_digits(d) && dec_val(d) <= usize::MAX {
                    lemma_dec_val_take_le(d, i - start + 1);
                    assert(false);
                }
            }
            return None;
        }
        val = val * 10 + digit;
        i = i + 1;
    }
    proof {
        assert(d.take(n - start) =~= d);
    }
    Some(val)
}

/// Rendering a value and reading it back is the identity.
pub proof fn lemma_dec_str_val(n: int)
    requires
        n >= 0,
    ensures
        all_digits(dec_str(n)),
        dec_str(n).len() > 0,
        dec_val(dec_str(n)) == n,
        n >= 1 ==> dec_str(n)[0] != '0',
        n < 10 ==> dec_str(n).len() == 1,
    decreases n,
{
    if n < 10 {
        assert(dec_str(n) =~= seq![digit_char(n)]);
        assert(dec_str(n).drop_last() =~= Seq::<char>::empty());
        assert(dec_val(Seq::<char>::empty()) == 0);
        assert(dec_val(dec_str(n)) == digit_val(digit_char(n)));
    } else {
        lemma_dec_str_val(n / 10);
        let s = dec_str(n);
        assert(s =~= dec_str(n / 10).push(digit_char(n % 10)));
        assert(s.drop_last() =~= dec_str(n / 10));
        assert(dec_val(s) == (n / 10) * 10 + n % 10);
        assert(s[0] == dec_str(n / 10)[0]);
        assert(forall|i: int|
            0 <= i < s.len() ==> is_digit_char(#[trigger] s[i]));
    }
}

/// A digit run that does not start with `0` has a value of at least one.
pub proof fn lemma_dec_val_ge_one(s: Seq<char>)
    requires
        s.len() > 0,
        all_digits(s),
        s[0] != '0',
    ensures
        dec_val(s) >= 1,
    decreases s.len(),
{
    if s.len() == 1 {
        assert(s.drop_last() =~= Seq::<char>::empty());
        assert(dec_val(Seq::<char>::empty()) == 0);
        assert(s.last() == s[0]);
        assert(digit_val(s[0]) >= 1);
    } else {
        assert(s.drop_last()[0] == s[0]);
        assert(all_digits(s.drop_last()));
        lemma_dec_val_ge_one(s.drop_last());
        assert(0 <= digit_val(s.last()));
    }
}

/// Reading a digit run without leading zeros and rendering the value back
/// is the identity.
pub proof fn lemma_dec_val_str(s: Seq<char>)
    requires
        s.len() > 0,
        all_digits(s),
        s[0] != '0' || s.len() == 1,
    ensures
        dec_str(dec_val(s)) =~= s,
    decreases s.len(),
{
    lemma_dec_val_nonneg(s);
    if s.len() == 1 {
        assert(s.drop_last() =~= Seq::<char>::empty());
        assert(dec_val(Seq::<char>::empty()) == 0);
        assert(s.last() == s[0]);
        assert(dec_val(s) == digit_val(s[0]));
        assert(digit_char(digit_val(s[0])) == s[0]);
        assert(dec_str(dec_val(s)) =~= seq![s[0]]);
        assert(s =~= seq![s[0]]);
    } else {
        let front = s.drop_last();
        let d = digit_val(s.last());
        assert(all_digits(front));
        assert(front[0] == s[0]);
        lemma_dec_val_ge_one(front);
        lemma_dec_val_str(front);
        lemma_dec_val_nonneg(front);
        let v = dec_val(s);
        assert(v == dec_val(front) * 10 + d);
        assert(v / 10 == dec_val(front) && v % 10 == d) by {
            lemma_div_mod_of_digit(dec_val(front), d);
        }
        assert(v >= 10);
        assert(dec_str(v) =~= dec_str(dec_val(front)).push(digit_char(d)));
        assert(digit_char(d) == s.last());
    }
}

proof fn lemma_div_mod_of_digit(a: int, d: int)
    requires
        a >= 0,
        0 <= d < 10,
    ensures
        (a * 10 + d) / 10 == a,
        (a * 10 + d) % 10 == d,
{
    assert((a * 10 + d) / 10 == a && (a * 10 + d) % 10 == d) by (nonlinear_arith)
        requires
            a >= 0,
            0 <= d < 10,
    ;
}

/// Renders a value in decimal, as `usize`'s `to_string` does.
pub fn usize_to_string(n: usize) -> (r: String)
    ensures
        r@ == dec_str(n as int),
    decreases n,
{
    let digits = "0123456789";
    proof {
        reveal_strlit("0123456789");
    }
    let d: usize = n % 10;
    let piece = digits.substring_char(d, d + 1);
    proof {
        assert(piece@ =~= seq![digit_char(d as int)]);
    }
    if n < 10 {
        proof {
            assert(dec_str(n as int) =~= seq![digit_char(n as int)]);
        }
        piece.to_owned()
    } else {
        let mut front = usize_to_string(n / 10);
        front.append(piece);
        proof {
            assert(dec_str(n as int) =~= dec_str(n as int / 10).push(digit_char(n as int % 10)));
            assert(front@ =~= dec_str(n as int));
        }
        front
    }
}

} // verus!
