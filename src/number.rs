//! Signed integers and their decimal text, read as `isize::from_str` reads them.
use vstd::prelude::*;

verus! {

pub open spec fn is_digit(c: char) -> bool {
    '0' <= c && c <= '9'
}

pub open spec fn digit_value(c: char) -> nat {
    (c as int - '0' as int) as nat
}

pub open spec fn all_digits(s: Seq<char>) -> bool {
    forall|i: int| 0 <= i < s.len() ==> is_digit(#[trigger] s[i])
}

/// The value of a run of decimal digits.
pub open spec fn digits_value(s: Seq<char>) -> nat
    decreases s.len(),
{
    if s.len() == 0 {
        0
    } else {
        digits_value(s.drop_last()) * 10 + digit_value(s.last())
    }
}

/// The integer that `s` writes: an optional `+` or `-`, then one or more decimal digits.
pub open spec fn int_of(s: Seq<char>) -> Option<int> {
    if s.len() > 0 && (s[0] == '+' || s[0] == '-') {
        let body = s.drop_first();
        if body.len() > 0 && all_digits(body) {
            if s[0] == '-' {
                Some(-digits_value(body))
            } else {
                Some(digits_value(body) as int)
            }
        } else {
            None
        }
    } else if s.len() > 0 && all_digits(s) {
        Some(digits_value(s) as int)
    } else {
        None
    }
}

/// The `isize` that `s` writes, where it writes one in range.
pub open spec fn isize_of(s: Seq<char>) -> Option<isize> {
    match int_of(s) {
        Some(v) => if isize::MIN <= v <= isize::MAX {
            Some(v as isize)
        } else {
            None
        },
        None => None,
    }
}

/// The decimal digits of `n`, most significant first, with no leading zero.
pub open spec fn digits_of(n: nat) -> Seq<char>
    decreases n,
{
    if n < 10 {
        seq![digit_char(n)]
    } else {
        digits_of(n / 10).push(digit_char(n % 10))
    }
}

pub open spec fn digit_char(d: nat) -> char {
    ((d + '0' as nat) as u32) as char
}

/// The decimal text of `n`: a `-` for a negative number, then the digits of its magnitude.
pub open spec fn decimal(n: int) -> Seq<char> {
    if n < 0 {
        seq!['-'] + digits_of((-n) as nat)
    } else {
        digits_of(n as nat)
    }
}

/// A run of digits weighs at least as much as each of its prefixes.
pub proof fn lemma_digits_value_prefix(s: Seq<char>, k: int)
    requires
        0 <= k <= s.len(),
    ensures
        digits_value(s.take(k)) <= digits_value(s),
    decreases s.len(),
{
    if k < s.len() {
        lemma_digits_value_prefix(s.drop_last(), k);
        assert(s.drop_last().take(k) =~= s.take(k));
    } else {
        assert(s.take(k) =~= s);
    }
}

/// Reads the integer that `s[from..end]` writes, where it writes an `isize`.
pub fn parse_isize(s: &Vec<char>, from: usize, end: usize) -> (r: Option<isize>)
    requires
        from <= end <= s.len(),
    ensures
        r == isize_of(s@.subrange(from as int, end as int)),
{
    let ghost t = s@.subrange(from as int, end as int);
    if from == end {
        return None;
    }
    let negative = s[from] == '-';
    let start = if s[from] == '+' || negative {
        from + 1
    } else {
        from
    };
    let ghost body = s@.subrange(start as int, end as int);
    assert(t[0] == s@[from as int]);
    assert(start > from ==> body =~= t.drop_first());
    assert(start == from ==> body =~= t);
    if start == end {
        return None;
    }
    let limit: i128 = isize::MAX as i128 + 1;
    let mut acc: i128 = 0;
    let mut i = start;
    while i < end
        invariant
            from <= start <= i <= end <= s.len(),
            body == s@.subrange(start as int, end as int),
            all_digits(body.take(i - start)),
            acc == digits_value(body.take(i - start)),
            acc <= limit,
            limit == isize::MAX as i128 + 1,
            t == s@.subrange(from as int, end as int),
            t.len() > 0,
            negative == (t[0] == '-'),
            start > from <==> (t[0] == '+' || t[0] == '-'),
            start > from ==> body == t.drop_first(),
            start == from ==> body == t,
        decreases end - i,
    {
        let c = s[i];
        if c < '0' || c > '9' {
            assert(!all_digits(body)) by {
                assert(body[i - start] == c);
            }
            return None;
        }
        let ghost pre = body.take(i - start);
        assert(body.take(i - start + 1).drop_last() =~= pre);
        acc = acc * 10 + (c as u32 - '0' as u32) as i128;
        i = i + 1;
        assert(all_digits(body.take(i - start)));
        if acc > limit {
            proof {
                if all_digits(body) {
                    lemma_digits_value_prefix(body, i - start);
                }
            }
            return None;
        }
    }
    assert(body.take(end - start) =~= body);
    let v: i128 = if negative {
        -acc
    } else {
        acc
    };
    if (isize::MIN as i128) <= v && v <= (isize::MAX as i128) {
        Some(v as isize)
    } else {
        None
    }
}

/// Appends the decimal digits of `n` to `out`.
fn push_digits(n: u128, out: &mut String)
    ensures
        final(out)@ == old(out)@ + digits_of(n as nat),
    decreases n,
{
    if n >= 10 {
        push_digits(n / 10, out);
    }
    let d = (n % 10) as usize;
    let table = "0123456789";
    proof {
        reveal_strlit("0123456789");
    }
    let digit = table.substring_char(d, d + 1);
    assert(digit@ =~= seq![digit_char(d as nat)]) by {
        assert(table@[d as int] == digit_char(d as nat));
    }
    out.append(digit);
}

/// The decimal text of `n`, as `isize::to_string` writes it.
pub fn decimal_string(n: isize) -> (r: String)
    ensures
        r@ == decimal(n as int),
{
    let mut out = String::new();
    let magnitude: u128 = if n < 0 {
        let sign = "-";
        proof {
            reveal_strlit("-");
        }
        out.append(sign);
        (-(n as i128)) as u128
    } else {
        n as u128
    };
    push_digits(magnitude, &mut out);
    assert(out@ =~= decimal(n as int));
    out
}

/// The digits of `n` are decimal digits, at least one, and weigh `n`.
pub proof fn lemma_digits_of(n: nat)
    ensures
        digits_of(n).len() > 0,
        all_digits(digits_of(n)),
        digits_value(digits_of(n)) == n,
    decreases n,
{
    if n >= 10 {
        lemma_digits_of(n / 10);
        let s = digits_of(n);
        assert(s.drop_last() =~= digits_of(n / 10));
        assert(all_digits(s)) by {
            assert forall|i: int| 0 <= i < s.len() implies is_digit(#[trigger] s[i]) by {
                if i < s.len() - 1 {
                    assert(s[i] == digits_of(n / 10)[i]);
                }
            }
        }
        assert(digit_value(digit_char(n % 10)) == n % 10);
        assert((n / 10) * 10 + n % 10 == n);
    } else {
        let s = digits_of(n);
        assert(s.drop_last() =~= Seq::<char>::empty());
        assert(digit_value(digit_char(n)) == n);
        assert(digits_value(s.drop_last()) == 0);
    }
}

/// The decimal text of an `isize` reads back as that `isize`.
pub proof fn lemma_decimal_reads_back(n: isize)
    ensures
        isize_of(decimal(n as int)) == Some(n),
{
    if n < 0 {
        let m = (-n) as nat;
        lemma_digits_of(m);
        let s = decimal(n as int);
        assert(s.drop_first() =~= digits_of(m));
    } else {
        lemma_digits_of(n as nat);
        let s = digits_of(n as nat);
        assert(is_digit(s[0]));
    }
}

} // verus!
