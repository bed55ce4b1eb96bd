//! Decimal numerals: writing a number out and reading one back.

use crate::text;
use vstd::prelude::*;
use vstd::string::*;

verus! {

broadcast use vstd::string::group_string_axioms;

/// The decimal digit for `d`.
pub open spec fn digit_char(d: int) -> char {
    (48 + d) as char
}

/// Whether `c` is one of `0` to `9`.
pub open spec fn is_digit(c: char) -> bool {
    48 <= c as u32 <= 57
}

/// The digits of `n` in base ten, most significant first, without leading zeros.
pub open spec fn decimal(n: nat) -> Seq<char>
    decreases n,
{
    if n < 10 {
        seq![digit_char(n as int)]
    } else {
        decimal(n / 10).push(digit_char((n % 10) as int))
    }
}

/// A non-empty run of digits.
pub open spec fn numeral(s: Seq<char>) -> bool {
    &&& s.len() > 0
    &&& forall|i: int| 0 <= i < s.len() ==> is_digit(#[trigger] s[i])
}

/// The number that a run of digits denotes in base ten.
pub open spec fn digits_value(s: Seq<char>) -> nat
    decreases s.len(),
{
    if s.len() == 0 {
        0
    } else {
        (digits_value(s.drop_last()) * 10 + (s.last() as u32 - 48)) as nat
    }
}

/// The natural number that `s` spells: digits, with an optional `+` before them.
pub open spec fn natural(s: Seq<char>) -> Option<nat> {
    let body = if s.len() > 0 && s[0] == '+' {
        s.drop_first()
    } else {
        s
    };
    if numeral(body) {
        Some(digits_value(body))
    } else {
        None
    }
}

/// The integer that `s` spells: digits, with an optional `+` or `-` before them.
pub open spec fn integer(s: Seq<char>) -> Option<int> {
    if s.len() > 0 && s[0] == '-' {
        if numeral(s.drop_first()) {
            Some(-digits_value(s.drop_first()))
        } else {
            None
        }
    } else {
        match natural(s) {
            Some(v) => Some(v as int),
            None => None,
        }
    }
}

/// The natural number that `s` spells, if it is at most `max`.
pub open spec fn natural_up_to(s: Seq<char>, max: nat) -> Option<nat> {
    match natural(s) {
        Some(v) => if v <= max {
            Some(v)
        } else {
            None
        },
        None => None,
    }
}

/// The integer that `s` spells, if an `i128` holds it.
pub open spec fn amount_of(s: Seq<char>) -> Option<int> {
    match integer(s) {
        Some(v) => if i128::MIN <= v <= i128::MAX {
            Some(v)
        } else {
            None
        },
        None => None,
    }
}

/// The digits of `n` spell `n`.
pub proof fn lemma_decimal(n: nat)
    ensures
        numeral(decimal(n)),
        digits_value(decimal(n)) == n,
    decreases n,
{
    if n < 10 {
        let s = decimal(n);
        assert(s.drop_last() =~= Seq::<char>::empty());
        assert(digits_value(s.drop_last()) == 0);
        assert(s.last() as u32 == 48 + n);
    } else {
        lemma_decimal(n / 10);
        let p = decimal(n / 10);
        let s = decimal(n);
        assert(s.drop_last() =~= p);
        assert(s.last() as u32 == 48 + n % 10);
        assert forall|i: int| 0 <= i < s.len() implies is_digit(#[trigger] s[i]) by {
            if i < p.len() {
                assert(s[i] == p[i]);
            }
        }
    }
}

/// Writing a number out and reading it back gives that number.
pub proof fn decimal_reads_back(n: nat, max: nat)
    requires
        n <= max,
    ensures
        natural_up_to(decimal(n), max) == Some(n),
{
    lemma_decimal(n);
    assert(is_digit(decimal(n)[0]));
}

proof fn lemma_prefix_value(s: Seq<char>, k: int)
    requires
        0 <= k <= s.len(),
        forall|i: int| 0 <= i < s.len() ==> is_digit(#[trigger] s[i]),
    ensures
        digits_value(s.take(k)) <= digits_value(s),
    decreases s.len() - k,
{
    if k < s.len() {
        let t = s.drop_last();
        lemma_prefix_value(t, k);
        assert(t.take(k) =~= s.take(k));
        assert(is_digit(s[s.len() - 1]));
    } else {
        assert(s.take(k) =~= s);
    }
}

/// The one-digit text of `d`.
fn digit_text(d: u64) -> (res: &'static str)
    requires
        d < 10,
    ensures
        res@ == seq![digit_char(d as int)],
{
    proof {
        reveal_strlit("0");
        reveal_strlit("1");
        reveal_strlit("2");
        reveal_strlit("3");
        reveal_strlit("4");
        reveal_strlit("5");
        reveal_strlit("6");
        reveal_strlit("7");
        reveal_strlit("8");
        reveal_strlit("9");
    }
    match d {
        0 => "0",
        1 => "1",
        2 => "2",
        3 => "3",
        4 => "4",
        5 => "5",
        6 => "6",
        7 => "7",
        8 => "8",
        _ => "9",
    }
}

/// `n` written in decimal.
pub fn decimal_text(n: u64) -> (res: String)
    ensures
        res@ == decimal(n as nat),
    decreases n,
{
    if n < 10 {
        digit_text(n).to_owned()
    } else {
        let mut out: String = decimal_text(n / 10);
        out.append(digit_text(n % 10));
        out
    }
}

/// Reads the digits of `chars` from position `from` on as a number of at most `max`.
fn read_digits(chars: &Vec<char>, from: usize, max: u128) -> (res: Option<u128>)
    requires
        from <= chars@.len(),
    ensures
        ({
            let body = chars@.skip(from as int);
            match res {
                Some(v) => numeral(body) && v == digits_value(body) && v <= max,
                None => !numeral(body) || digits_value(body) > max,
            }
        }),
{
    let ghost body = chars@.skip(from as int);
    if from == chars.len() {
        return None;
    }
    let mut value: u128 = 0;
    let mut i: usize = from;
    assert(body.take(0) =~= Seq::<char>::empty());
    while i < chars.len()
        invariant
            from <= i <= chars@.len(),
            body == chars@.skip(from as int),
            forall|k: int| 0 <= k < i - from ==> is_digit(#[trigger] body[k]),
            value == digits_value(body.take(i - from)),
            value <= max,
        decreases chars@.len() - i,
    {
        let c: u32 = chars[i] as u32;
        let ghost k = i - from;
        assert(body[k] == chars@[i as int]);
        if c < 48 || c > 57 {
            assert(!is_digit(body[k]));
            return None;
        }
        let d: u128 = (c - 48) as u128;
        let ghost next = body.take(k + 1);
        assert(next.drop_last() =~= body.take(k));
        assert(digits_value(next) == value * 10 + d);
        if d > max || value > (max - d) / 10 {
            proof {
                if numeral(body) {
                    lemma_prefix_value(body, k + 1);
                }
            }
            return None;
        }
        value = value * 10 + d;
        i = i + 1;
    }
    assert(body.take(body.len() as int) =~= body);
    Some(value)
}

/// Reads `s` as a natural number of at most `max`: digits, with an optional `+` before them.
pub fn read_natural(s: &str, max: u128) -> (res: Option<u128>)
    ensures
        match res {
            Some(v) => natural_up_to(s@, max as nat) == Some(v as nat),
            None => natural_up_to(s@, max as nat) is None,
        },
{
    let chars: Vec<char> = text::chars_of(s);
    assert(chars@.skip(0) =~= chars@);
    if chars.len() > 0 && chars[0] == '+' {
        assert(chars@.skip(1) =~= chars@.drop_first());
        read_digits(&chars, 1, max)
    } else {
        read_digits(&chars, 0, max)
    }
}

/// Reads `s` as an `i128`: digits, with an optional `+` or `-` before them.
pub fn read_amount(s: &str) -> (res: Option<i128>)
    ensures
        match res {
            Some(v) => amount_of(s@) == Some(v as int),
            None => amount_of(s@) is None,
        },
{
    let chars: Vec<char> = text::chars_of(s);
    if chars.len() > 0 && chars[0] == '-' {
        assert(chars@.skip(1) =~= chars@.drop_first());
        let least: u128 = 0x8000_0000_0000_0000_0000_0000_0000_0000;
        match read_digits(&chars, 1, least) {
            Some(v) => {
                if v == least {
                    Some(i128::MIN)
                } else {
                    Some(-(v as i128))
                }
            },
            None => None,
        }
    } else {
        let most: u128 = 0x7fff_ffff_ffff_ffff_ffff_ffff_ffff_ffff;
        match read_natural(s, most) {
            Some(v) => Some(v as i128),
            None => None,
        }
    }
}

/// A number below ten is written as its digit; any other is written as its tens, followed by the digit
/// of its ones.
pub proof fn decimal_is_written_in_tens(tens: nat, ones: nat)
    requires
        ones < 10,
    ensures
        decimal(ones).len() == 1,
        decimal(ones)[0] as u32 == '0' as u32 + ones,
        tens > 0 ==> decimal(10 * tens + ones) == decimal(tens) + decimal(ones),
{
    if tens > 0 {
        let n = 10 * tens + ones;
        assert(n / 10 == tens && n % 10 == ones);
        assert(decimal(n) =~= decimal(tens) + decimal(ones));
    }
}

/// A run of digits reads as a number, of which each further digit makes ten times as much and its own
/// value more.
pub proof fn digits_read_in_tens(s: Seq<char>, c: char)
    requires
        forall|i: int| 0 <= i < s.len() ==> '0' <= #[trigger] s[i] <= '9',
        '0' <= c <= '9',
    ensures
        natural(seq![c]) == Some((c as u32 - '0' as u32) as nat),
        s.len() > 0 ==> natural(s) is Some && natural(s.push(c)) == Some(
            (10 * natural(s)->0 + (c as u32 - '0' as u32)) as nat,
        ),
{
    let t = s.push(c);
    assert(seq![c].drop_last() =~= Seq::<char>::empty());
    assert(digits_value(seq![c]) == c as u32 - 48) by {
        reveal_with_fuel(digits_value, 2);
    }
    if s.len() > 0 {
        assert(t.drop_last() =~= s);
        assert(s[0] != '+');
        assert(t[0] == s[0]);
        assert forall|i: int| 0 <= i < t.len() implies is_digit(#[trigger] t[i]) by {
            if i < s.len() {
                assert(t[i] == s[i]);
            }
        }
    }
}

/// A natural number is written with digits alone, after a plus sign if there is one; anything else
/// reads as none. The plus sign does not change it.
pub proof fn only_numerals_read(s: Seq<char>)
    ensures
        s.len() == 0 || s[0] != '+' ==> (natural(s) is Some <==> s.len() > 0 && forall|i: int|
            0 <= i < s.len() ==> '0' as u32 <= (#[trigger] s[i]) as u32 <= '9' as u32),
        natural(seq!['+'] + s) == (if s.len() > 0 && s[0] == '+' {
            None
        } else {
            natural(s)
        }),
{
    let p = seq!['+'] + s;
    assert(p.drop_first() =~= s);
    if s.len() > 0 && s[0] == '+' {
        assert(!is_digit(s[0]));
    } else if numeral(s) {
        assert forall|i: int| 0 <= i < s.len() implies '0' as u32 <= (#[trigger] s[i]) as u32
            <= '9' as u32 by {
            assert(is_digit(s[i]));
        }
    } else if s.len() > 0 {
        let i = choose|i: int| 0 <= i < s.len() && !is_digit(#[trigger] s[i]);
        assert(!('0' as u32 <= s[i] as u32 <= '9' as u32));
    }
}

/// A number is read up to a limit: what is within it reads as itself, and what is above reads as none.
/// An amount may besides have a minus sign, and is read as far as an `i128` goes.
pub proof fn numbers_are_read_within_their_limits(s: Seq<char>, max: nat)
    ensures
        natural_up_to(s, max) == (if natural(s) is Some && natural(s)->0 <= max {
            natural(s)
        } else {
            None
        }),
        s.len() == 0 || s[0] != '-' ==> amount_of(s) == (if natural(s) is Some && natural(s)->0
            <= 0x7fff_ffff_ffff_ffff_ffff_ffff_ffff_ffff {
            Some(natural(s)->0 as int)
        } else {
            None
        }),
        s.len() > 0 && s[0] == '-' ==> amount_of(s) == (if s.len() > 1 && s[1] != '+' && natural(
            s.drop_first(),
        ) is Some && natural(s.drop_first())->0 <= 0x8000_0000_0000_0000_0000_0000_0000_0000 {
            Some(-(natural(s.drop_first())->0 as int))
        } else {
            None
        }),
{
    if s.len() > 1 && s[0] == '-' {
        let t = s.drop_first();
        assert(t[0] == s[1]);
        if s[1] == '+' && numeral(t) {
            assert(is_digit(t[0]));
        }
    }
}

} // verus!
