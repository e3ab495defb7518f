//! Characters and decimal numerals: the whitespace class used by the state
//! format, digit characters, and rendering/parsing of unsigned decimal
//! numbers over sequences of characters.

use vstd::prelude::*;
use vstd::string::StringExecFns;

verus! {

/// The whitespace characters that separate tokens of the state format.
pub open spec fn is_space(c: char) -> bool {
    c == ' ' || c == '\n' || c == '\t' || c == '\r'
}

pub open spec fn is_digit(c: char) -> bool {
    c == '0' || c == '1' || c == '2' || c == '3' || c == '4' || c == '5' || c == '6' || c == '7'
        || c == '8' || c == '9'
}

pub open spec fn digit_char(d: nat) -> char {
    if d == 0 {
        '0'
    } else if d == 1 {
        '1'
    } else if d == 2 {
        '2'
    } else if d == 3 {
        '3'
    } else if d == 4 {
        '4'
    } else if d == 5 {
        '5'
    } else if d == 6 {
        '6'
    } else if d == 7 {
        '7'
    } else if d == 8 {
        '8'
    } else {
        '9'
    }
}

pub open spec fn digit_val(c: char) -> nat {
    if c == '0' {
        0
    } else if c == '1' {
        1
    } else if c == '2' {
        2
    } else if c == '3' {
        3
    } else if c == '4' {
        4
    } else if c == '5' {
        5
    } else if c == '6' {
        6
    } else if c == '7' {
        7
    } else if c == '8' {
        8
    } else {
        9
    }
}

/// The decimal numeral of `n`, most significant digit first, no leading
/// zeros (except for `n == 0` itself).
pub open spec fn dec_rep(n: nat) -> Seq<char>
    decreases n,
{
    if n < 10 {
        seq![digit_char(n)]
    } else {
        dec_rep(n / 10) + seq![digit_char(n % 10)]
    }
}

/// The value of a sequence of digit characters, most significant first.
pub open spec fn dec_val(t: Seq<char>) -> nat
    decreases t.len(),
{
    if t.len() == 0 {
        0
    } else {
        dec_val(t.drop_last()) * 10 + digit_val(t.last())
    }
}

pub open spec fn all_digits(t: Seq<char>) -> bool {
    forall|k: int| 0 <= k < t.len() ==> is_digit(#[trigger] t[k])
}

/// A numeral renders back to its value: `dec_rep` is a right inverse of
/// `dec_val`, and yields nonempty, digit-only (hence space-free) text.
pub proof fn lemma_dec_rep_val(n: nat)
    ensures
        dec_val(dec_rep(n)) == n,
        dec_rep(n).len() >= 1,
        all_digits(dec_rep(n)),
    decreases n,
{
    if n < 10 {
        let s = seq![digit_char(n)];
        assert(dec_rep(n) =~= s);
        assert(s.drop_last() =~= Seq::<char>::empty());
        assert(dec_val(s.drop_last()) == 0);
        assert(dec_val(s) == digit_val(s.last()));
    } else {
        lemma_dec_rep_val(n / 10);
        let prefix = dec_rep(n / 10);
        let whole = dec_rep(n);
        assert(whole =~= prefix + seq![digit_char(n % 10)]);
        assert(whole.drop_last() =~= prefix);
        assert(whole.last() == digit_char(n % 10));
        assert(dec_val(whole) == dec_val(prefix) * 10 + digit_val(digit_char(n % 10)));
        assert(digit_val(digit_char(n % 10)) == n % 10) by {
            assert(0 <= n % 10 < 10) by (nonlinear_arith);
        }
        assert((n / 10) * 10 + n % 10 == n) by (nonlinear_arith);
    }
}

/// Extending a numeral to the right never lowers its value.
pub proof fn lemma_dec_val_prefix_le(t: Seq<char>, k: int)
    requires
        0 <= k <= t.len(),
    ensures
        dec_val(t.take(k)) <= dec_val(t),
    decreases t.len() - k,
{
    if k < t.len() {
        lemma_dec_val_prefix_le(t, k + 1);
        let a = t.take(k + 1);
        assert(a.drop_last() =~= t.take(k));
        assert(dec_val(a) == dec_val(t.take(k)) * 10 + digit_val(a.last()));
        assert(dec_val(t.take(k)) <= dec_val(t.take(k)) * 10) by (nonlinear_arith);
    } else {
        assert(t.take(k) =~= t);
    }
}

/// The digit `d` as a one-character string slice.
pub fn digit_str(d: u8) -> (r: &'static str)
    requires
        d <= 9,
    ensures
        r@ =~= seq![digit_char(d as nat)],
{
    proof {
        reveal_strlit("0");
        reveal_strlit("1");
        reveal_strlit("2");
        reveal_strlit("3");
        reveal_strlit("4");
        reveal_strlit("5");
        reveal_strlit("6");
        reveal_strlit("7");
        reveal_strlit("8");
        reveal_strlit("9");
    }
    match d {
        0 => "0",
        1 => "1",
        2 => "2",
        3 => "3",
        4 => "4",
        5 => "5",
        6 => "6",
        7 => "7",
        8 => "8",
        _ => "9",
    }
}

/// Appends the decimal numeral of `n` to `s`.
pub fn push_decimal(s: &mut String, n: usize)
    ensures
        final(s)@ == old(s)@ + dec_rep(n as nat),
    decreases n,
{
    if n < 10 {
        s.append(digit_str(n as u8));
    } else {
        push_decimal(s, n / 10);
        s.append(digit_str((n % 10) as u8));
        assert(old(s)@ + dec_rep((n / 10) as nat) + dec_rep(n as nat).subrange(
            dec_rep((n / 10) as nat).len() as int,
            dec_rep(n as nat).len() as int,
        ) =~= old(s)@ + dec_rep(n as nat));
        assert(s@ =~= old(s)@ + dec_rep(n as nat));
    }
}

/// Parses a whole token as an unsigned decimal number; `None` when the
/// token is empty, holds a non-digit, or exceeds `usize`.
pub fn parse_decimal(t: &str) -> (r: Option<usize>)
    ensures
        match r {
            Some(v) => t@.len() >= 1 && all_digits(t@) && v as nat == dec_val(t@),
            None => t@.len() == 0 || !all_digits(t@) || dec_val(t@) > usize::MAX,
        },
{
    let len = t.unicode_len();
    if len == 0 {
        return None;
    }
    let mut acc: usize = 0;
    let mut k: usize = 0;
    while k < len
        invariant
            k <= len,
            len == t@.len(),
            all_digits(t@.take(k as int)),
            acc as nat == dec_val(t@.take(k as int)),
        decreases len - k,
    {
        let c = t.get_char(k);
        let d: usize = match c {
            '0' => 0,
            '1' => 1,
            '2' => 2,
            '3' => 3,
            '4' => 4,
            '5' => 5,
            '6' => 6,
            '7' => 7,
            '8' => 8,
            '9' => 9,
            _ => {
                assert(!is_digit(t@[k as int]));
                return None;
            },
        };
        assert(is_digit(t@[k as int]) && d as nat == digit_val(t@[k as int]));
        if acc > (usize::MAX - d) / 10 {
            proof {
                let ghost nxt = t@.take(k as int + 1);
                assert(nxt.drop_last() =~= t@.take(k as int));
                assert(nxt.last() == t@[k as int]);
                assert(dec_val(nxt) == (acc as nat) * 10 + d);
                assert((acc as nat) * 10 + d > usize::MAX) by (nonlinear_arith)
                    requires
                        acc > (usize::MAX - d) / 10,
                        d <= 9,
                        acc as nat <= usize::MAX,
                        d as nat + (usize::MAX as nat) >= 0,
                ;
                lemma_dec_val_prefix_le(t@, k as int + 1);
            }
            return None;
        }
        proof {
            let ghost nxt = t@.take(k as int + 1);
            assert(nxt.drop_last() =~= t@.take(k as int));
            assert(nxt.last() == t@[k as int]);
            assert((acc as nat) * 10 + d <= usize::MAX) by (nonlinear_arith)
                requires
                    acc <= (usize::MAX - d) / 10,
                    d <= 9,
            ;
        }
        acc = acc * 10 + d;
        k = k + 1;
    }
    proof {
        assert(t@.take(len as int) =~= t@);
    }
    Some(acc)
}

} // verus!
