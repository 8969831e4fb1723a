//! Decimal rendering of unsigned integers, used wherever an identifier is shown to a person.
use vstd::prelude::*;
use vstd::string::StringExecFns;

verus! {

/// The character that stands for the digit `d`.
pub open spec fn digit_char(d: nat) -> char {
    (('0' as nat) + d) as char
}

/// The decimal numeral of `n`, most significant digit first and without leading zeros.
pub open spec fn decimal(n: nat) -> Seq<char>
    decreases n,
{
    if n < 10 {
        seq![digit_char(n)]
    } else {
        decimal(n / 10).push(digit_char(n % 10))
    }
}

fn digit_str(d: u64) -> (s: &'static str)
    requires
        d < 10,
    ensures
        s@ == seq![digit_char(d as nat)],
{
    proof {
        reveal_strlit("0");
        reveal_strlit("1");
        reveal_strlit("2");
        reveal_strlit("3");
        reveal_strlit("4");
        reveal_strlit("5");
        reveal_strlit("6");
        reveal_strlit("7");
        reveal_strlit("8");
        reveal_strlit("9");
    }
    let s: &'static str = if d == 0 {
        "0"
    } else if d == 1 {
        "1"
    } else if d == 2 {
        "2"
    } else if d == 3 {
        "3"
    } else if d == 4 {
        "4"
    } else if d == 5 {
        "5"
    } else if d == 6 {
        "6"
    } else if d == 7 {
        "7"
    } else if d == 8 {
        "8"
    } else {
        "9"
    };
    assert(s@ =~= seq![digit_char(d as nat)]);
    s
}

/// Renders `n` as its decimal numeral.
pub fn render_decimal(n: u64) -> (s: String)
    ensures
        s@ == decimal(n as nat),
    decreases n,
{
    if n < 10 {
        String::from_str(digit_str(n))
    } else {
        let head = render_decimal(n / 10);
        let s = head.concat(digit_str(n % 10));
        assert(s@ =~= decimal(n as nat));
        s
    }
}

/// Renders `n` as its decimal numeral behind `prefix`.
pub fn render_prefixed(prefix: &str, n: u64) -> (s: String)
    ensures
        s@ == prefix@ + decimal(n as nat),
{
    String::from_str(prefix).concat(render_decimal(n).as_str())
}

/// Whether `c` is a decimal digit.
pub open spec fn is_digit(c: char) -> bool {
    '0' <= c && c <= '9'
}

/// Whether `digits` is a decimal numeral, leading zeros allowed.
pub open spec fn is_numeral(digits: Seq<char>) -> bool {
    digits.len() > 0 && forall|i: int| 0 <= i < digits.len() ==> is_digit(#[trigger] digits[i])
}

/// The number that a run of decimal digits stands for.
pub open spec fn numeral_value(digits: Seq<char>) -> nat
    decreases digits.len(),
{
    if digits.len() == 0 {
        0
    } else {
        10 * numeral_value(digits.drop_last()) + ((digits.last() as nat) - ('0' as nat)) as nat
    }
}

/// The number that `text` names: a decimal numeral, which a plus sign may precede, that is not too
/// large.
pub open spec fn named_number(text: Seq<char>) -> Option<u64> {
    let digits = if text.len() > 0 && text[0] == '+' {
        text.skip(1)
    } else {
        text
    };
    if is_numeral(digits) && numeral_value(digits) <= u64::MAX {
        Some(numeral_value(digits) as u64)
    } else {
        None
    }
}

/// The number that `text` names, if it names one.
pub fn parse_number(text: &str) -> (number: Option<u64>)
    ensures
        number == named_number(text@),
{
    let len: usize = text.unicode_len();
    let start: usize = if len > 0 && text.get_char(0) == '+' {
        1
    } else {
        0
    };
    let ghost digits = if start == 1 {
        text@.skip(1)
    } else {
        text@
    };
    if start == len {
        return None;
    }
    let mut value: u64 = 0;
    let mut fits = true;
    let mut i: usize = start;
    proof {
        assert(digits.take(0).len() == 0);
    }
    while i < len
        invariant
            start <= i <= len,
            len == text@.len(),
            start <= 1,
            digits.len() == len - start,
            digits == if text@.len() > 0 && text@[0] == '+' {
                text@.skip(1)
            } else {
                text@
            },
            forall|k: int| 0 <= k < digits.len() ==> digits[k] == text@[k + start],
            forall|k: int| 0 <= k < i - start ==> is_digit(#[trigger] digits[k]),
            fits ==> value == numeral_value(digits.take(i - start)),
            !fits ==> numeral_value(digits.take(i - start)) > u64::MAX,
        decreases len - i,
    {
        let c: char = text.get_char(i);
        proof {
            assert(digits[i - start] == c);
        }
        if !('0' <= c && c <= '9') {
            return None;
        }
        let digit: u64 = (c as u32 - '0' as u32) as u64;
        proof {
            let head = digits.take(i - start);
            let more = digits.take(i + 1 - start);
            assert(more.drop_last() =~= head);
            assert(more.last() == c);
        }
        if fits {
            match value.checked_mul(10) {
                Some(tens) => match tens.checked_add(digit) {
                    Some(sum) => {
                        value = sum;
                    },
                    None => {
                        fits = false;
                    },
                },
                None => {
                    fits = false;
                },
            }
        }
        i = i + 1;
    }
    assert(digits.take(i - start) =~= digits);
    if fits {
        Some(value)
    } else {
        None
    }
}

/// A number is read back from its decimal numeral.
pub proof fn law_numbers_read_back(n: u64)
    ensures
        named_number(decimal(n as nat)) == Some(n),
{
    lemma_decimal_is_numeral(n as nat);
    let d = decimal(n as nat);
    assert(is_digit(d[0]));
}

proof fn lemma_decimal_is_numeral(n: nat)
    ensures
        is_numeral(decimal(n)),
        numeral_value(decimal(n)) == n,
    decreases n,
{
    reveal_with_fuel(numeral_value, 2);
    let d = decimal(n);
    if n < 10 {
        assert(d.drop_last() =~= Seq::empty());
        assert(is_digit(d[0]));
    } else {
        lemma_decimal_is_numeral(n / 10);
        assert(d.drop_last() =~= decimal(n / 10));
        assert forall|i: int| 0 <= i < d.len() implies is_digit(#[trigger] d[i]) by {
            if i < d.len() - 1 {
                assert(decimal(n / 10)[i] == d[i]);
            }
        }
    }
}

/// A text names a number exactly where it is a run of one or more decimal digits, behind at most one
/// plus sign, and the number is not too large. Each digit counts ten times what the next one does.
pub proof fn law_numbers_are_decimal(text: Seq<char>, digits: Seq<char>, digit: char)
    ensures
        named_number(text) is Some ==> {
            let rest = if text[0] == '+' {
                text.skip(1)
            } else {
                text
            };
            &&& text.len() > 0
            &&& rest.len() > 0
            &&& forall|i: int| 0 <= i < rest.len() ==> '0' <= #[trigger] rest[i] && rest[i] <= '9'
            &&& numeral_value(rest) == named_number(text)->0
        },
        digits.len() > 0 && (forall|i: int|
            0 <= i < digits.len() ==> '0' <= #[trigger] digits[i] && digits[i] <= '9')
            && numeral_value(digits) <= u64::MAX ==> {
            &&& named_number(digits) == Some(numeral_value(digits) as u64)
            &&& named_number(seq!['+'] + digits) == Some(numeral_value(digits) as u64)
        },
        numeral_value(Seq::empty()) == 0,
        '0' <= digit && digit <= '9' ==> numeral_value(digits.push(digit)) == 10 * numeral_value(
            digits,
        ) + (digit as nat - 48),
{
    assert(digits.push(digit).drop_last() =~= digits);
    assert((seq!['+'] + digits).skip(1) =~= digits);
    if digits.len() > 0 && (forall|i: int|
        0 <= i < digits.len() ==> '0' <= #[trigger] digits[i] && digits[i] <= '9') {
        assert(is_digit(digits[0]));
    }
}

/// A numeral is written in decimal digits without a leading zero, the last one for the ones.
pub proof fn law_numerals_are_decimal(n: nat)
    ensures
        n < 10 ==> decimal(n) == seq![(48 + n) as char],
        n >= 10 ==> decimal(n) == decimal(n / 10) + seq![(48 + n % 10) as char],
        n > 0 ==> decimal(n)[0] != '0',
        decimal(n).len() > 0,
    decreases n,
{
    if n >= 10 {
        law_numerals_are_decimal(n / 10);
        assert(decimal(n) =~= decimal(n / 10) + seq![(48 + n % 10) as char]);
    }
}

} // verus!
