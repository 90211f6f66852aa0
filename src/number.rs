use vstd::prelude::*;

verus! {

/// Whether `c` is an ASCII decimal digit.
pub open spec fn is_digit(c: char) -> bool {
    '0' <= c && c <= '9'
}

/// The value of a string of decimal digits.
pub open spec fn digits_value(s: Seq<char>) -> int
    decreases s.len(),
{
    if s.len() == 0 {
        0
    } else {
        digits_value(s.drop_last()) * 10 + (s.last() as int - '0' as int)
    }
}

/// Whether `s` is one or more decimal digits.
pub open spec fn all_digits(s: Seq<char>) -> bool {
    s.len() > 0 && forall|i: int| 0 <= i < s.len() ==> is_digit(#[trigger] s[i])
}

/// The integer that `s` writes in decimal, with an optional leading `-`.
pub open spec fn int_of(s: Seq<char>) -> Option<int> {
    if s.len() > 0 && s[0] == '-' && all_digits(s.drop_first()) {
        Some(-digits_value(s.drop_first()))
    } else if all_digits(s) {
        Some(digits_value(s))
    } else {
        None
    }
}

/// The integer of `s` when its magnitude fits an `i64`.
pub open spec fn small_int_of(s: Seq<char>) -> Option<int> {
    match int_of(s) {
        Some(v) => if -i64::MAX <= v <= i64::MAX {
            Some(v)
        } else {
            None
        },
        None => None,
    }
}

/// Digit strings never lose value as digits are appended.
pub proof fn lemma_digits_grow(s: Seq<char>, i: int, j: int)
    requires
        0 <= i <= j <= s.len(),
        forall|k: int| 0 <= k < s.len() ==> is_digit(#[trigger] s[k]),
    ensures
        0 <= digits_value(s.take(i)) <= digits_value(s.take(j)),
    decreases j,
{
    if j == 0 {
        assert(s.take(0).len() == 0);
    } else {
        let k = if i < j { i } else { j - 1 };
        lemma_digits_grow(s, k, j - 1);
        assert(s.take(j).drop_last() =~= s.take(j - 1));
        assert(is_digit(s[j - 1]));
    }
}

/// Reads a decimal integer with an optional leading `-`; `None` when `s` is
/// not one or its magnitude exceeds `i64::MAX`.
pub fn parse_int(s: &str) -> (r: Option<i64>)
    ensures
        r is Some <==> small_int_of(s@) is Some,
        r is Some ==> r->0 == small_int_of(s@)->0,
{
    let cs = crate::util::chars_of(s);
    let n = cs.len();
    let neg = n > 0 && cs[0] == '-';
    let first: usize = if neg { 1 } else { 0 };
    if first >= n {
        if neg {
            assert(cs@.drop_first().len() == 0);
            assert(!is_digit(cs@[0]));
        }
        return None;
    }
    let ghost ds = cs@.subrange(first as int, n as int);
    assert(neg ==> ds =~= cs@.drop_first());
    assert(!neg ==> ds =~= cs@);
    let mut acc: i64 = 0;
    let mut i: usize = first;
    while i < n
        invariant
            first <= i <= n,
            n == cs@.len(),
            cs@ == s@,
            ds == cs@.subrange(first as int, n as int),
            forall|k: int| 0 <= k < i - first ==> is_digit(#[trigger] ds[k]),
            neg == (n > 0 && cs@[0] == '-'),
            neg ==> first == 1,
            !neg ==> first == 0 && ds == cs@,
            acc as int == digits_value(ds.take(i - first)),
            0 <= acc,
        decreases n - i,
    {
        let c = cs[i];
        if !('0' <= c && c <= '9') {
            assert(!is_digit(ds[i - first]));
            assert(!all_digits(ds));
            if neg {
                assert(ds =~= cs@.drop_first());
                assert(!is_digit(cs@[0]));
            }
            return None;
        }
        let d = (c as u32 - '0' as u32) as i64;
        assert(ds.take(i + 1 - first).drop_last() =~= ds.take(i - first));
        if acc > (i64::MAX - d) / 10 {
            assert(acc * 10 + d > i64::MAX) by (nonlinear_arith)
                requires acc > (i64::MAX - d) / 10, 0 <= d <= 9;
            proof {
                if all_digits(ds) {
                    lemma_digits_grow(ds, i + 1 - first, n - first);
                    assert(ds.take(n - first) =~= ds);
                }
                if neg {
                    assert(ds =~= cs@.drop_first());
                    assert(!is_digit(cs@[0]));
                }
            }
            return None;
        }
        acc = acc * 10 + d;
        i = i + 1;
    }
    assert(ds.take(n - first) =~= ds);
    if neg {
        Some(-acc)
    } else {
        Some(acc)
    }
}


/// The decimal digit of `d`, for `d` below ten.
pub open spec fn digit_char(d: int) -> char {
    (d + '0' as int) as char
}

/// The decimal digits of `n`, without leading zeros.
pub open spec fn nat_text(n: nat) -> Seq<char>
    decreases n,
{
    if n < 10 {
        seq![digit_char(n as int)]
    } else {
        nat_text(n / 10).push(digit_char(n as int % 10))
    }
}

/// `v` in decimal, with a leading `-` when negative.
pub open spec fn int_text(v: int) -> Seq<char> {
    if v < 0 {
        seq!['-'] + nat_text((-v) as nat)
    } else {
        nat_text(v as nat)
    }
}

/// The digits of `n` read back as `n`.
pub proof fn lemma_nat_text(n: nat)
    ensures
        all_digits(nat_text(n)),
        digits_value(nat_text(n)) == n,
    decreases n,
{
    if n >= 10 {
        lemma_nat_text(n / 10);
        let t = nat_text(n);
        assert(t.drop_last() =~= nat_text(n / 10));
        assert(t.last() == digit_char(n as int % 10));
        assert(digit_char(n as int % 10) as int == n as int % 10 + 48);
        assert(n == (n / 10) * 10 + n % 10);
        assert('0' as int == 48);
        assert(digits_value(t) == digits_value(t.drop_last()) * 10 + (t.last() as int - '0' as int));
        assert forall|i: int| 0 <= i < t.len() implies is_digit(#[trigger] t[i]) by {
            if i < t.len() - 1 {
                assert(t[i] == nat_text(n / 10)[i]);
            }
        }
    } else {
        assert(nat_text(n).drop_last().len() == 0);
        assert(digit_char(n as int) as int == n + 48);
        assert('0' as int == 48);
        let t = nat_text(n);
        assert(t.drop_last().len() == 0);
        assert(digits_value(t) == digits_value(t.drop_last()) * 10 + (t.last() as int - '0' as int));
    }
}

/// An integer written in decimal reads back as itself.
pub proof fn lemma_int_text(v: int)
    requires
        -i64::MAX <= v <= i64::MAX,
    ensures
        small_int_of(int_text(v)) == Some(v),
        int_text(v).len() > 0,
        forall|i: int| 0 <= i < int_text(v).len() ==> int_text(v)[i] == '-' || is_digit(
            #[trigger] int_text(v)[i],
        ),
        is_digit(int_text(v).last()),
{
    if v < 0 {
        let n = (-v) as nat;
        lemma_nat_text(n);
        let t = int_text(v);
        assert(t.drop_first() =~= nat_text(n));
        assert(t.last() == nat_text(n).last());
        assert forall|i: int| 0 <= i < t.len() implies t[i] == '-' || is_digit(#[trigger] t[i]) by {
            if i > 0 {
                assert(t[i] == nat_text(n)[i - 1]);
            }
        }
    } else {
        lemma_nat_text(v as nat);
        assert(!is_digit('-'));
        assert(int_text(v)[0] != '-');
    }
}

/// Appends the decimal digits of `n`.
fn push_nat(out: &mut String, n: u64)
    ensures
        final(out)@ == old(out)@ + nat_text(n as nat),
    decreases n,
{
    if n >= 10 {
        push_nat(out, n / 10);
    }
    crate::util::push_char(out, digit_of(n % 10));
}

/// The decimal digit of `d`.
fn digit_of(d: u64) -> (c: char)
    requires
        d < 10,
    ensures
        c == digit_char(d as int),
{
    if d == 0 {
        '0'
    } else if d == 1 {
        '1'
    } else if d == 2 {
        '2'
    } else if d == 3 {
        '3'
    } else if d == 4 {
        '4'
    } else if d == 5 {
        '5'
    } else if d == 6 {
        '6'
    } else if d == 7 {
        '7'
    } else if d == 8 {
        '8'
    } else {
        '9'
    }
}

/// Appends `v` in decimal.
pub fn push_int(out: &mut String, v: i64)
    ensures
        final(out)@ == old(out)@ + int_text(v as int),
{
    if v < 0 {
        crate::util::push_char(out, '-');
        let m = (-(v + 1)) as u64 + 1;
        push_nat(out, m);
        assert(final(out)@ =~= old(out)@ + int_text(v as int));
    } else {
        push_nat(out, v as u64);
    }
}

} // verus!
