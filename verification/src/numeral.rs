//! Base-10 numerals: the operand syntax of the language.  An operand token
//! is accepted exactly when it is a non-empty run of ASCII digits whose
//! value fits the machine word; no sign, no leading `+`, no inner blanks.

use vstd::prelude::*;

verus! {

/// An ASCII decimal digit.
pub open spec fn is_digit(c: char) -> bool {
    48 <= (c as u32) && (c as u32) <= 57
}

/// The value of one digit character.
pub open spec fn digit_val(c: char) -> int {
    (c as u32) - 48
}

/// Every character of the token is a digit.
pub open spec fn all_digits(t: Seq<char>) -> bool {
    forall|i: int| 0 <= i < t.len() ==> is_digit(#[trigger] t[i])
}

/// The numeric value of a digit string, most significant digit first.
pub open spec fn num_val(t: Seq<char>) -> int
    decreases t.len(),
{
    if t.len() == 0 {
        0
    } else {
        num_val(t.drop_last()) * 10 + digit_val(t.last())
    }
}

/// The tokens accepted as operands: non-empty, all digits, value within
/// the machine word.
pub open spec fn is_numeral(t: Seq<char>) -> bool {
    t.len() > 0 && all_digits(t) && num_val(t) <= usize::MAX
}

/// A digit string's value never goes below any of its prefixes' values.
proof fn lemma_num_val_prefix(t: Seq<char>, j: int)
    requires
        all_digits(t),
        0 <= j <= t.len(),
    ensures
        0 <= num_val(t.take(j)) <= num_val(t),
    decreases t.len() - j,
{
    lemma_num_val_nonneg(t.take(j));
    if j < t.len() {
        lemma_num_val_prefix(t, j + 1);
        assert(t.take(j + 1).drop_last() =~= t.take(j));
        assert(num_val(t.take(j + 1)) == num_val(t.take(j)) * 10 + digit_val(t[j]));
        lemma_num_val_nonneg(t.take(j));
        assert(num_val(t.take(j)) * 10 >= num_val(t.take(j)));
    } else {
        assert(t.take(j) =~= t);
    }
}

proof fn lemma_num_val_nonneg(t: Seq<char>)
    requires
        all_digits(t),
    ensures
        num_val(t) >= 0,
    decreases t.len(),
{
    if t.len() > 0 {
        assert(all_digits(t.drop_last())) by {
            assert(forall|i: int|
                0 <= i < t.len() - 1 ==> #[trigger] t.drop_last()[i] == t[i]);
        }
        lemma_num_val_nonneg(t.drop_last());
    }
}

/// Reads a token as a non-negative base-10 machine integer.  Returns the
/// value exactly when the token is a well-formed numeral that fits; rejects
/// the empty token, any non-digit character, and overflow.
pub fn parse_usize(t: &Vec<char>) -> (r: Option<usize>)
    ensures
        match r {
            Some(v) => is_numeral(t@) && v == num_val(t@),
            None => !is_numeral(t@),
        },
{
    let n = t.len();
    if n == 0 {
        return None;
    }
    let mut acc: usize = 0;
    let mut i: usize = 0;
    while i < n
        invariant
            0 < n == t@.len(),
            0 <= i <= n,
            all_digits(t@.take(i as int)),
            acc == num_val(t@.take(i as int)),
        decreases n - i,
    {
        let c = t[i];
        let u: u32 = c as u32;
        if !(48 <= u && u <= 57) {
            proof {
                assert(!is_digit(t@[i as int]));
            }
            return None;
        }
        let d: usize = (u - 48) as usize;
        proof {
            assert(d == digit_val(t@[i as int]));
            assert(t@.take(i as int + 1).drop_last() =~= t@.take(i as int));
        }
        if acc > (usize::MAX - d) / 10 {
            proof {
                assert(acc * 10 + d > usize::MAX) by (nonlinear_arith)
                    requires
                        acc > (usize::MAX - d) / 10,
                        d <= 9,
                ;
                assert(num_val(t@.take(i as int + 1)) > usize::MAX);
                if is_numeral(t@) {
                    lemma_num_val_prefix(t@, i as int + 1);
                }
            }
            return None;
        }
        proof {
            assert(acc * 10 + d <= usize::MAX) by (nonlinear_arith)
                requires
                    acc <= (usize::MAX - d) / 10,
                    d <= 9,
                    acc >= 0,
            ;
        }
        acc = acc * 10 + d;
        i = i + 1;
    }
    proof {
        assert(t@.take(n as int) =~= t@);
    }
    Some(acc)
}

/// The decimal rendering of a value, most significant digit first, with
/// no sign and no leading zero (except for the value zero itself).
pub open spec fn dec_rep(n: int) -> Seq<char>
    decreases n,
{
    if n <= 0 {
        seq!['0']
    } else if n < 10 {
        seq![digit_char(n)]
    } else {
        dec_rep(n / 10).push(digit_char(n % 10))
    }
}

/// The digit character for one value below ten.
pub open spec fn digit_char(d: int) -> char {
    ((d + 48) as u8) as char
}

/// Rendering a digit and reading it back is the identity, and a rendered
/// digit is never a blank or a line break.
proof fn lemma_digit_char(d: int)
    requires
        0 <= d <= 9,
    ensures
        is_digit(digit_char(d)),
        digit_val(digit_char(d)) == d,
        !crate::scan::is_space(digit_char(d)),
        digit_char(d) != '\n',
{
}

/// A decimal rendering is a numeral and reads back to the value rendered;
/// it contains no blanks and no line breaks.
pub proof fn lemma_dec_rep(n: int)
    requires
        0 <= n <= usize::MAX,
    ensures
        is_numeral(dec_rep(n)),
        num_val(dec_rep(n)) == n,
        forall|i: int|
            0 <= i < dec_rep(n).len()
                ==> !crate::scan::is_space(#[trigger] dec_rep(n)[i]) && dec_rep(n)[i] != '\n',
    decreases n,
{
    if n < 10 {
        lemma_digit_char(n);
        assert(num_val(Seq::<char>::empty()) == 0);
        assert(dec_rep(n) =~= seq![digit_char(n)]);
        assert(dec_rep(n).drop_last() =~= Seq::<char>::empty());
        assert(dec_rep(n).last() == digit_char(n));
        assert(num_val(dec_rep(n)) == num_val(Seq::<char>::empty()) * 10 + digit_val(
            digit_char(n),
        ));
    } else {
        assert(0 <= n / 10 < n) by (nonlinear_arith)
            requires
                n >= 10,
        ;
        assert(0 <= n % 10 <= 9 && n == (n / 10) * 10 + n % 10) by (nonlinear_arith)
            requires
                n >= 10,
        ;
        lemma_dec_rep(n / 10);
        lemma_digit_char(n % 10);
        assert(dec_rep(n).drop_last() =~= dec_rep(n / 10));
        assert(dec_rep(n).last() == digit_char(n % 10));
        assert(num_val(dec_rep(n)) == num_val(dec_rep(n / 10)) * 10 + digit_val(
            digit_char(n % 10),
        ));
        assert(all_digits(dec_rep(n))) by {
            assert(forall|i: int|
                0 <= i < dec_rep(n).len() - 1
                    ==> #[trigger] dec_rep(n)[i] == dec_rep(n / 10)[i]);
        }
    }
}

/// Renders a value in decimal.
pub fn render_usize(n: usize) -> (r: Vec<char>)
    ensures
        r@ == dec_rep(n as int),
    decreases n,
{
    if n < 10 {
        let mut v: Vec<char> = Vec::new();
        v.push((((n as u8) + 48) as char));
        proof {
            assert(v@ =~= dec_rep(n as int));
        }
        v
    } else {
        let mut v = render_usize(n / 10);
        v.push(((((n % 10) as u8) + 48) as char));
        proof {
            assert(v@ =~= dec_rep(n as int));
        }
        v
    }
}

} // verus!
