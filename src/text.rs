use vstd::prelude::*;
use vstd::string::StringExecFns;

verus! {

/// The character of a decimal digit `d`, `0 <= d < 10`.
pub open spec fn digit_char(d: int) -> char {
    seq!['0', '1', '2', '3', '4', '5', '6', '7', '8', '9'][d]
}

/// Decimal digits of `n`, most significant first, without leading zeros.
pub open spec fn digits(n: nat) -> Seq<char>
    decreases n,
{
    if n < 10 {
        seq![digit_char(n as int)]
    } else {
        digits(n / 10).push(digit_char((n % 10) as int))
    }
}

/// Decimal text of `n`, with a leading `-` when it is negative.
pub open spec fn decimal(n: int) -> Seq<char> {
    if n < 0 {
        seq!['-'] + digits((-n) as nat)
    } else {
        digits(n as nat)
    }
}

/// The decimal text of `n`, led by zeros up to `length` characters when it
/// is shorter, and left whole when it is not.
pub open spec fn zero_padded(n: int, length: int) -> Seq<char> {
    let s = decimal(n);
    if s.len() < length {
        Seq::new((length - s.len()) as nat, |i: int| '0') + s
    } else {
        s
    }
}

/// The text of digit `d`.
fn digit_text(d: u64) -> (t: &'static str)
    requires
        d < 10,
    ensures
        t@ == seq![digit_char(d as int)],
{
    proof {
        reveal_strlit("0");
        reveal_strlit("1");
        reveal_strlit("2");
        reveal_strlit("3");
        reveal_strlit("4");
        reveal_strlit("5");
        reveal_strlit("6");
        reveal_strlit("7");
        reveal_strlit("8");
        reveal_strlit("9");
    }
    match d {
        0 => "0",
        1 => "1",
        2 => "2",
        3 => "3",
        4 => "4",
        5 => "5",
        6 => "6",
        7 => "7",
        8 => "8",
        _ => "9",
    }
}

/// Appends the decimal digits of `n` to `text`.
fn push_digits(text: &mut String, n: u64)
    ensures
        final(text)@ == old(text)@ + digits(n as nat),
    decreases n,
{
    if n >= 10 {
        push_digits(text, n / 10);
    }
    text.append(digit_text(n % 10));
    proof {
        if n < 10 {
            assert(n % 10 == n);
        }
    }
    assert(text@ =~= old(text)@ + digits(n as nat));
}

/// Number of decimal digits of `n`.
fn digit_count(n: u64) -> (count: u64)
    ensures
        count == digits(n as nat).len(),
        1 <= count <= 20,
    decreases n,
{
    if n < 10 {
        1
    } else {
        let rest = digit_count(n / 10);
        proof {
            lemma_digits_pow(n as nat);
        }
        rest + 1
    }
}

proof fn lemma_digits_pow(n: nat)
    ensures
        n < 10 ==> digits(n).len() == 1,
        n < 100 ==> digits(n).len() <= 2,
        n < 1000 ==> digits(n).len() <= 3,
        n < 10000 ==> digits(n).len() <= 4,
        n < 100000 ==> digits(n).len() <= 5,
        n < 1000000 ==> digits(n).len() <= 6,
        n < 10000000 ==> digits(n).len() <= 7,
        n < 100000000 ==> digits(n).len() <= 8,
        n < 1000000000 ==> digits(n).len() <= 9,
        n < 10000000000 ==> digits(n).len() <= 10,
        n < 100000000000 ==> digits(n).len() <= 11,
        n < 1000000000000 ==> digits(n).len() <= 12,
        n < 10000000000000 ==> digits(n).len() <= 13,
        n < 100000000000000 ==> digits(n).len() <= 14,
        n < 1000000000000000 ==> digits(n).len() <= 15,
        n < 10000000000000000 ==> digits(n).len() <= 16,
        n < 100000000000000000 ==> digits(n).len() <= 17,
        n < 1000000000000000000 ==> digits(n).len() <= 18,
        n < 10000000000000000000 ==> digits(n).len() <= 19,
        n < 100000000000000000000 ==> digits(n).len() <= 20,
    decreases n,
{
    if n >= 10 {
        lemma_digits_pow(n / 10);
    }
}

/// `number` in decimal, led by zeros up to `length` characters; a longer
/// text is returned whole. A negative number keeps its sign after the zeros.
pub fn zero_pad(number: i32, length: i32) -> (text: String)
    ensures
        text@ == zero_padded(number as int, length as int),
{
    let magnitude: u64 = if number < 0 {
        (-(number as i64)) as u64
    } else {
        number as u64
    };
    let count: i64 = digit_count(magnitude) as i64 + if number < 0 {
        1i64
    } else {
        0i64
    };
    proof {
        reveal_strlit("0");
        reveal_strlit("-");
        lemma_digits_pow(magnitude as nat);
    }
    let mut text = String::new();
    let mut k: i64 = count;
    while k < length as i64
        invariant
            count <= k,
            count < length ==> k <= length,
            count >= length ==> k == count,
            text@ == Seq::new((k - count) as nat, |i: int| '0'),
        decreases length - k,
    {
        proof {
            reveal_strlit("0");
        }
        text.append("0");
        k = k + 1;
        assert(text@ =~= Seq::new((k - count) as nat, |i: int| '0'));
    }
    let ghost zeros = text@;
    if number < 0 {
        text.append("-");
    }
    push_digits(&mut text, magnitude);
    proof {
        assert(decimal(number as int).len() == count);
        if number < 0 {
            assert(text@ =~= zeros + (seq!['-'] + digits(magnitude as nat)));
        }
        if count < length {
            assert(zeros =~= Seq::new((length - count) as nat, |i: int| '0'));
        } else {
            assert(zeros =~= Seq::<char>::empty());
        }
        assert(text@ =~= zero_padded(number as int, length as int));
    }
    text
}

} // verus!
