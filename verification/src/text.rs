//! Decimal numerals and joined lines, as character sequences and as strings.
use vstd::prelude::*;
use vstd::string::StringExecFns;

verus! {

/// The character of a decimal digit.
pub open spec fn digit(d: nat) -> char {
    if d == 0 {
        '0'
    } else if d == 1 {
        '1'
    } else if d == 2 {
        '2'
    } else if d == 3 {
        '3'
    } else if d == 4 {
        '4'
    } else if d == 5 {
        '5'
    } else if d == 6 {
        '6'
    } else if d == 7 {
        '7'
    } else if d == 8 {
        '8'
    } else {
        '9'
    }
}

/// The decimal numeral of a natural number, without leading zeros.
pub open spec fn numeral(n: nat) -> Seq<char>
    decreases n,
{
    if n < 10 {
        seq![digit(n)]
    } else {
        numeral(n / 10).push(digit(n % 10))
    }
}

/// Whether a character is a decimal digit.
pub open spec fn is_digit(c: char) -> bool {
    c == '0' || c == '1' || c == '2' || c == '3' || c == '4' || c == '5' || c == '6' || c == '7'
        || c == '8' || c == '9'
}

/// A numeral is not empty and holds digits only.
pub proof fn lemma_numeral_digits(n: nat)
    ensures
        numeral(n).len() >= 1,
        forall|i: int| 0 <= i < numeral(n).len() ==> is_digit(#[trigger] numeral(n)[i]),
    decreases n,
{
    if n >= 10 {
        lemma_numeral_digits(n / 10);
    }
}

/// Two numbers with the same numeral are the same number.
pub proof fn lemma_numeral_injective(a: nat, b: nat)
    requires
        numeral(a) == numeral(b),
    ensures
        a == b,
    decreases a,
{
    lemma_numeral_digits(a / 10);
    lemma_numeral_digits(b / 10);
    if a >= 10 && b >= 10 {
        let x = numeral(a / 10);
        let y = numeral(b / 10);
        assert(x.push(digit(a % 10)).drop_last() =~= x);
        assert(y.push(digit(b % 10)).drop_last() =~= y);
        assert(x.push(digit(a % 10)).last() == digit(a % 10));
        assert(y.push(digit(b % 10)).last() == digit(b % 10));
        lemma_numeral_injective(a / 10, b / 10);
        assert(digit(a % 10) == digit(b % 10));
        assert(a % 10 == b % 10);
    } else if a < 10 && b < 10 {
        assert(numeral(a)[0] == digit(a));
        assert(numeral(b)[0] == digit(b));
    } else if a < 10 {
        assert(numeral(a).len() == 1);
        assert(numeral(b).len() == numeral(b / 10).len() + 1);
    } else {
        assert(numeral(b).len() == 1);
        assert(numeral(a).len() == numeral(a / 10).len() + 1);
    }
}

/// A text that ends in a numeral after a stem that does not end in a digit
/// can be read in one way only: two such texts that are equal have the same
/// stem and the same number.
pub proof fn lemma_stem_and_number(s1: Seq<char>, k1: nat, s2: Seq<char>, k2: nat)
    requires
        s1.len() >= 1,
        s2.len() >= 1,
        !is_digit(s1.last()),
        !is_digit(s2.last()),
        s1 + numeral(k1) == s2 + numeral(k2),
    ensures
        s1 == s2,
        k1 == k2,
{
    lemma_numeral_digits(k1);
    lemma_numeral_digits(k2);
    let whole = s1 + numeral(k1);
    let other = s2 + numeral(k2);
    assert(whole.len() == s1.len() + numeral(k1).len());
    assert(other.len() == s2.len() + numeral(k2).len());
    if s1.len() < s2.len() {
        let at = s2.len() - 1;
        assert(other[at] == s2.last());
        assert(whole[at] == numeral(k1)[at - s1.len()]);
    } else if s2.len() < s1.len() {
        let at = s1.len() - 1;
        assert(whole[at] == s1.last());
        assert(other[at] == numeral(k2)[at - s2.len()]);
    } else {
        assert(s1 =~= whole.subrange(0, s1.len() as int));
        assert(s2 =~= other.subrange(0, s2.len() as int));
        assert(numeral(k1) =~= whole.subrange(s1.len() as int, whole.len() as int));
        assert(numeral(k2) =~= other.subrange(s2.len() as int, other.len() as int));
        lemma_numeral_injective(k1, k2);
    }
}

/// The decimal numeral of an integer: a minus sign before the numeral of its
/// magnitude where it is negative.
pub open spec fn decimal(i: int) -> Seq<char> {
    if i < 0 {
        seq!['-'] + numeral((-i) as nat)
    } else {
        numeral(i as nat)
    }
}

/// The lines joined into one text, with `sep` between each two neighbours.
pub open spec fn join(lines: Seq<Seq<char>>, sep: Seq<char>) -> Seq<char>
    decreases lines.len(),
{
    if lines.len() == 0 {
        Seq::empty()
    } else if lines.len() == 1 {
        lines[0]
    } else {
        join(lines.drop_last(), sep) + sep + lines.last()
    }
}

/// What each string of a sequence holds.
pub open spec fn texts(lines: Seq<String>) -> Seq<Seq<char>> {
    Seq::new(lines.len(), |i: int| lines[i]@)
}

fn digit_str(d: u64) -> (s: &'static str)
    requires
        d < 10,
    ensures
        s@ == seq![digit(d as nat)],
{
    proof {
        reveal_strlit("0");
        reveal_strlit("1");
        reveal_strlit("2");
        reveal_strlit("3");
        reveal_strlit("4");
        reveal_strlit("5");
        reveal_strlit("6");
        reveal_strlit("7");
        reveal_strlit("8");
        reveal_strlit("9");
    }
    let s = if d == 0 {
        "0"
    } else if d == 1 {
        "1"
    } else if d == 2 {
        "2"
    } else if d == 3 {
        "3"
    } else if d == 4 {
        "4"
    } else if d == 5 {
        "5"
    } else if d == 6 {
        "6"
    } else if d == 7 {
        "7"
    } else if d == 8 {
        "8"
    } else {
        "9"
    };
    assert(s@ =~= seq![digit(d as nat)]);
    s
}

/// Appends the numeral of `n` to `out`.
pub fn push_numeral(out: &mut String, n: u64)
    ensures
        final(out)@ == old(out)@ + numeral(n as nat),
    decreases n,
{
    if n >= 10 {
        push_numeral(out, n / 10);
    }
    out.append(digit_str(n % 10));
    proof {
        if n >= 10 {
            assert(out@ =~= old(out)@ + numeral((n / 10) as nat).push(digit((n % 10) as nat)));
        } else {
            assert(out@ =~= old(out)@ + seq![digit(n as nat)]);
        }
    }
}

/// Appends the decimal numeral of `i` to `out`.
pub fn push_decimal(out: &mut String, i: i32)
    ensures
        final(out)@ == old(out)@ + decimal(i as int),
{
    if i < 0 {
        proof {
            reveal_strlit("-");
        }
        out.append("-");
        let magnitude: u64 = (-(i as i64)) as u64;
        push_numeral(out, magnitude);
        assert(out@ =~= old(out)@ + (seq!['-'] + numeral((-i) as nat)));
    } else {
        push_numeral(out, i as u64);
    }
}

/// Appends the numeral of a count or an index to `out`.
pub fn push_index(out: &mut String, n: usize)
    ensures
        final(out)@ == old(out)@ + numeral(n as nat),
{
    push_numeral(out, n as u64);
}

/// Joins the lines into one string, with `sep` between each two neighbours.
pub fn join_lines(lines: &Vec<String>, sep: &str) -> (out: String)
    ensures
        out@ == join(texts(lines@), sep@),
{
    let mut out = String::new();
    let mut i: usize = 0;
    while i < lines.len()
        invariant
            i <= lines.len(),
            out@ == join(texts(lines@).take(i as int), sep@),
        decreases lines.len() - i,
    {
        if i > 0 {
            out.append(sep);
        }
        out.append(lines[i].as_str());
        proof {
            let all = texts(lines@);
            let grown = all.take(i + 1);
            assert(grown.drop_last() =~= all.take(i as int));
            assert(grown.last() == lines@[i as int]@);
            if i == 0 {
                assert(out@ =~= grown[0]);
            }
        }
        i += 1;
    }
    proof {
        assert(texts(lines@).take(i as int) =~= texts(lines@));
    }
    out
}

} // verus!
