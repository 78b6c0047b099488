//! Decimal counts: parsing a non-negative integer field and rendering
//! a count back to its decimal digits.
use vstd::prelude::*;

verus! {

/// A decimal digit.
pub open spec fn is_digit(c: char) -> bool {
    '0' <= c && c <= '9'
}

/// The numeric value of a digit character.
pub open spec fn digit_val(c: char) -> nat {
    (c as int - '0' as int) as nat
}

pub open spec fn all_digits(s: Seq<char>) -> bool {
    forall|i: int| 0 <= i < s.len() ==> is_digit(#[trigger] s[i])
}

/// The value of a digit string read in base ten.
pub open spec fn digits_val(s: Seq<char>) -> nat
    decreases s.len(),
{
    if s.len() == 0 {
        0
    } else {
        digits_val(s.drop_last()) * 10 + digit_val(s.last())
    }
}

/// The digits of a count field, one optional leading plus sign removed,
/// as the standard integer parser admits.
pub open spec fn digits_part(s: Seq<char>) -> Seq<char> {
    if s.len() > 0 && s[0] == '+' {
        s.drop_first()
    } else {
        s
    }
}

/// Whether `s` is a well-formed count: at least one digit, digits only,
/// and a value that fits the count type.
pub open spec fn is_count_text(s: Seq<char>) -> bool {
    let d = digits_part(s);
    d.len() > 0 && all_digits(d) && digits_val(d) <= usize::MAX
}

/// The count a well-formed count field denotes.
pub open spec fn count_val(s: Seq<char>) -> nat {
    digits_val(digits_part(s))
}

/// A longer digit string never has a smaller value than its prefix.
proof fn lemma_digits_val_prefix(s: Seq<char>, k: int)
    requires
        0 <= k <= s.len(),
    ensures
        digits_val(s) >= digits_val(s.take(k)),
    decreases s.len() - k,
{
    if k == s.len() {
        assert(s.take(k) =~= s);
    } else {
        lemma_digits_val_prefix(s, k + 1);
        assert(s.take(k + 1).drop_last() =~= s.take(k));
        assert(digits_val(s.take(k + 1)) == digits_val(s.take(k)) * 10 + digit_val(
            s.take(k + 1).last(),
        ));
        assert(digits_val(s.take(k)) * 10 >= digits_val(s.take(k)));
    }
}

/// Parse a count field: `Some` exactly on a well-formed count, and then
/// its value.
pub fn parse_count(field: &Vec<char>) -> (r: Option<usize>)
    ensures
        is_count_text(field@) ==> r == Some((count_val(field@) as usize)),
        !is_count_text(field@) ==> r is None,
{
    let n = field.len();
    let mut i: usize = 0;
    if n > 0 && field[0] == '+' {
        i = 1;
    }
    let ghost d = digits_part(field@);
    proof {
        assert(d =~= field@.skip(i as int));
    }
    if i == n {
        return None;
    }
    let mut acc: usize = 0;
    let mut j: usize = i;
    while j < n
        invariant
            i <= j <= n,
            n == field@.len(),
            i == 0 || (i == 1 && field@[0] == '+'),
            d == digits_part(field@),
            d == field@.skip(i as int),
            forall|m: int| i <= m < j ==> is_digit(#[trigger] field@[m]),
            acc == digits_val(field@.subrange(i as int, j as int)),
        decreases n - j,
    {
        let c = field[j];
        if !('0' <= c && c <= '9') {
            proof {
                assert(d[j - i] == field@[j as int]);
                assert(!is_digit(d[j - i]));
            }
            return None;
        }
        let dv = (c as u32 - 48) as usize;
        proof {
            assert(is_digit(field@[j as int]));
            assert(dv == digit_val(field@[j as int]));
        }
        let ghost pre = field@.subrange(i as int, j as int);
        let ghost ext = field@.subrange(i as int, j as int + 1);
        proof {
            assert(ext.drop_last() =~= pre);
            assert(ext.last() == field@[j as int]);
            assert(digits_val(ext) == acc * 10 + dv);
        }
        if acc > (usize::MAX - dv) / 10 {
            proof {
                assert(acc * 10 + dv > usize::MAX) by (nonlinear_arith)
                    requires
                        acc > (usize::MAX - dv) / 10,
                        dv <= usize::MAX,
                ;
                assert(ext =~= d.take(j - i + 1));
                lemma_digits_val_prefix(d, j - i + 1);
                assert(digits_val(d) > usize::MAX);
            }
            return None;
        }
        proof {
            assert(acc * 10 + dv <= usize::MAX) by (nonlinear_arith)
                requires
                    acc <= (usize::MAX - dv) / 10,
                    dv <= usize::MAX,
            ;
        }
        acc = acc * 10 + dv;
        j = j + 1;
    }
    proof {
        assert(field@.subrange(i as int, n as int) =~= d);
        assert(forall|m: int| 0 <= m < d.len() ==> d[m] == field@[i + m]);
        assert(all_digits(d));
        assert(is_count_text(field@));
    }
    Some(acc)
}

/// The digit character for a value below ten.
pub open spec fn digit_char(d: nat) -> char {
    if d == 0 {
        '0'
    } else if d == 1 {
        '1'
    } else if d == 2 {
        '2'
    } else if d == 3 {
        '3'
    } else if d == 4 {
        '4'
    } else if d == 5 {
        '5'
    } else if d == 6 {
        '6'
    } else if d == 7 {
        '7'
    } else if d == 8 {
        '8'
    } else {
        '9'
    }
}

/// The decimal digits of `n`, most significant first, without leading
/// zeros (zero itself is the single digit `0`).
pub open spec fn dec_digits(n: nat) -> Seq<char>
    decreases n,
{
    if n < 10 {
        seq![digit_char(n)]
    } else {
        dec_digits(n / 10).push(digit_char(n % 10))
    }
}

fn digit_char_of(d: usize) -> (c: char)
    requires
        d < 10,
    ensures
        c == digit_char(d as nat),
{
    if d == 0 {
        '0'
    } else if d == 1 {
        '1'
    } else if d == 2 {
        '2'
    } else if d == 3 {
        '3'
    } else if d == 4 {
        '4'
    } else if d == 5 {
        '5'
    } else if d == 6 {
        '6'
    } else if d == 7 {
        '7'
    } else if d == 8 {
        '8'
    } else {
        '9'
    }
}

/// The decimal digits of a count, as characters.
pub fn dec_chars(n: usize) -> (r: Vec<char>)
    ensures
        r@ == dec_digits(n as nat),
    decreases n,
{
    if n < 10 {
        let mut r: Vec<char> = Vec::new();
        r.push(digit_char_of(n));
        proof {
            assert(r@ =~= dec_digits(n as nat));
        }
        r
    } else {
        let mut r = dec_chars(n / 10);
        r.push(digit_char_of(n % 10));
        r
    }
}

} // verus!
