//! Decimal integers written and read the way `i32`'s `Display` and `FromStr` do.

use vstd::prelude::*;

verus! {

/// An ASCII decimal digit.
pub open spec fn is_digit(c: char) -> bool {
    48 <= c as u32 <= 57
}

/// The value of an ASCII decimal digit.
pub open spec fn digit_value(c: char) -> int {
    c as u32 - 48
}

/// The digit character for `0 <= d < 10`.
pub open spec fn digit_char(d: int) -> char {
    if d == 0 {
        '0'
    } else if d == 1 {
        '1'
    } else if d == 2 {
        '2'
    } else if d == 3 {
        '3'
    } else if d == 4 {
        '4'
    } else if d == 5 {
        '5'
    } else if d == 6 {
        '6'
    } else if d == 7 {
        '7'
    } else if d == 8 {
        '8'
    } else {
        '9'
    }
}

/// Every character of `s` is a decimal digit.
pub open spec fn all_digits(s: Seq<char>) -> bool {
    forall|i: int| 0 <= i < s.len() ==> is_digit(#[trigger] s[i])
}

/// The number that the digits of `s` spell, most significant first.
pub open spec fn digits_value(s: Seq<char>) -> int
    decreases s.len(),
{
    if s.len() == 0 {
        0
    } else {
        digits_value(s.drop_last()) * 10 + digit_value(s.last())
    }
}

/// What `str::parse::<i32>` gives for `s`: an optional sign, then at least one
/// digit and nothing else, with a value that fits in an `i32`.
pub open spec fn parse_i32(s: Seq<char>) -> Option<i32> {
    let signed = s.len() > 0 && (s[0] == '-' || s[0] == '+');
    let body = if signed {
        s.drop_first()
    } else {
        s
    };
    let value = if s.len() > 0 && s[0] == '-' {
        -digits_value(body)
    } else {
        digits_value(body)
    };
    if body.len() == 0 || !all_digits(body) || value < i32::MIN || value > i32::MAX {
        None
    } else {
        Some(value as i32)
    }
}

/// The decimal digits of `n`, without leading zeros.
pub open spec fn decimal_nat(n: nat) -> Seq<char>
    decreases n,
{
    if n < 10 {
        seq![digit_char(n as int)]
    } else {
        decimal_nat(n / 10).push(digit_char((n % 10) as int))
    }
}

/// How `Display` writes the integer `n`: a minus sign for a negative number, then
/// the digits of its magnitude.
pub open spec fn decimal(n: int) -> Seq<char> {
    if n < 0 {
        seq!['-'] + decimal_nat((-n) as nat)
    } else {
        decimal_nat(n as nat)
    }
}

fn digit(d: u64) -> (c: char)
    requires
        d < 10,
    ensures
        c == digit_char(d as int),
        is_digit(c),
        digit_value(c) == d,
{
    let c = match d {
        0 => '0',
        1 => '1',
        2 => '2',
        3 => '3',
        4 => '4',
        5 => '5',
        6 => '6',
        7 => '7',
        8 => '8',
        _ => '9',
    };
    assert(c == digit_char(d as int));
    c
}

fn push_decimal_nat(out: &mut Vec<char>, n: u64)
    ensures
        final(out)@ == old(out)@ + decimal_nat(n as nat),
    decreases n,
{
    if n >= 10 {
        push_decimal_nat(out, n / 10);
    }
    out.push(digit(n % 10));
    assert(final(out)@ =~= old(out)@ + decimal_nat(n as nat));
}

/// The decimal text of `n`.
pub fn decimal_chars(n: i64) -> (r: Vec<char>)
    ensures
        r@ == decimal(n as int),
{
    let mut out: Vec<char> = Vec::new();
    if n < 0 {
        out.push('-');
        let m: u64 = if n == i64::MIN {
            9223372036854775808u64
        } else {
            (-n) as u64
        };
        push_decimal_nat(&mut out, m);
    } else {
        push_decimal_nat(&mut out, n as u64);
    }
    assert(out@ =~= decimal(n as int));
    out
}

/// Reads `v` as `str::parse::<i32>` does.
pub fn parse_i32_chars(v: &Vec<char>) -> (r: Option<i32>)
    ensures
        r == parse_i32(v@),
{
    let n = v.len();
    if n == 0 {
        return None;
    }
    let negative = v[0] == '-';
    let start: usize = if v[0] == '-' || v[0] == '+' {
        1
    } else {
        0
    };
    let ghost body = v@.skip(start as int);
    assert(body == if v@[0] == '-' || v@[0] == '+' {
        v@.drop_first()
    } else {
        v@
    });
    if start == n {
        return None;
    }
    // Past this bound the value fits in no `i32`, whatever its sign.
    let limit: i64 = 2147483648;
    let mut acc: i64 = 0;
    let mut big = false;
    let mut i: usize = start;
    while i < n
        invariant
            start <= i <= n == v.len(),
            body == v@.skip(start as int),
            body == if v@[0] == '-' || v@[0] == '+' {
                v@.drop_first()
            } else {
                v@
            },
            negative == (v@[0] == '-'),
            all_digits(v@.subrange(start as int, i as int)),
            !big ==> 0 <= acc <= limit && acc == digits_value(v@.subrange(start as int, i as int)),
            big ==> digits_value(v@.subrange(start as int, i as int)) > limit,
            limit == 2147483648,
        decreases n - i,
    {
        let c = v[i];
        let u = c as u32;
        let ghost pre = v@.subrange(start as int, i as int);
        let ghost post = v@.subrange(start as int, i + 1);
        assert(post.drop_last() =~= pre);
        if u < 48 || u > 57 {
            assert(body[i - start] == c);
            assert(!is_digit(c));
            assert(!all_digits(body));
            return None;
        }
        let d = (u - 48) as i64;
        assert(digit_value(c) == d);
        if !big {
            acc = acc * 10 + d;
            if acc > limit {
                big = true;
            }
        }
        i += 1;
        assert(all_digits(post)) by {
            assert forall|j: int| 0 <= j < post.len() implies is_digit(#[trigger] post[j]) by {
                if j < pre.len() {
                    assert(post[j] == pre[j]);
                }
            }
        }
    }
    assert(v@.subrange(start as int, n as int) =~= body);
    if big {
        return None;
    }
    if negative {
        Some((-acc) as i32)
    } else if acc > 2147483647 {
        None
    } else {
        Some(acc as i32)
    }
}


proof fn lemma_decimal_nat_digits(n: nat)
    ensures
        decimal_nat(n).len() >= 1,
        all_digits(decimal_nat(n)),
        digits_value(decimal_nat(n)) == n,
    decreases n,
{
    let d = decimal_nat(n);
    if n >= 10 {
        lemma_decimal_nat_digits(n / 10);
        let prev = decimal_nat(n / 10);
        assert(digit_value(d.last()) == n % 10);
        assert(d.drop_last() == prev);
        assert(digits_value(d) == digits_value(prev) * 10 + digit_value(d.last()));
        assert((n / 10) * 10 + n % 10 == n);
        assert(d.drop_last() =~= prev);
        assert forall|i: int| 0 <= i < d.len() implies is_digit(#[trigger] d[i]) by {
            if i < prev.len() {
                assert(d[i] == prev[i]);
            }
        }
    } else {
        assert(d.drop_last() =~= Seq::<char>::empty());
        assert(digit_value(d.last()) == n);
        assert(digits_value(d) == digits_value(d.drop_last()) * 10 + digit_value(d.last()));
    }
}

/// Reading back the decimal text of any `i32` gives that `i32` again.
pub proof fn lemma_parse_reads_decimal(n: i32)
    ensures
        parse_i32(decimal(n as int)) == Some(n),
{
    let s = decimal(n as int);
    if n < 0 {
        let m = (-n) as nat;
        lemma_decimal_nat_digits(m);
        assert(s.drop_first() =~= decimal_nat(m));
    } else {
        lemma_decimal_nat_digits(n as nat);
        assert(is_digit(s[0]));
    }
}


/// The decimal text of an integer is not empty, and each of its characters is a
/// digit, or the minus sign that may start it.
pub proof fn lemma_decimal_chars(n: int)
    ensures
        decimal(n).len() >= 1,
        forall|i: int| 0 <= i < decimal(n).len() ==> is_digit(#[trigger] decimal(n)[i]) || (i == 0 && decimal(n)[i] == '-'),
{
    let m: nat = if n < 0 {
        (-n) as nat
    } else {
        n as nat
    };
    lemma_decimal_nat_digits(m);
    let d = decimal_nat(m);
    assert forall|i: int| 0 <= i < decimal(n).len() implies is_digit(#[trigger] decimal(n)[i]) || (i == 0 && decimal(n)[i] == '-') by {
        if n < 0 {
            if i > 0 {
                assert(decimal(n)[i] == d[i - 1]);
            }
        } else {
            assert(is_digit(d[i]));
        }
    }
}

/// The decimal text of an integer holds no line feed.
pub proof fn lemma_decimal_is_one_line(n: int)
    ensures
        !decimal(n).contains('\n'),
{
    let m: nat = if n < 0 {
        (-n) as nat
    } else {
        n as nat
    };
    lemma_decimal_nat_digits(m);
    let d = decimal_nat(m);
    assert forall|i: int| 0 <= i < decimal(n).len() implies decimal(n)[i] != '\n' by {
        if n < 0 {
            if i > 0 {
                assert(decimal(n)[i] == d[i - 1]);
                assert(is_digit(d[i - 1]));
            }
        } else {
            assert(is_digit(d[i]));
        }
    }
}

} // verus!
