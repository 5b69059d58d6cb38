//! Decimal notation of unsigned numbers.
use crate::order::{lemma_less_after_prefix, less};
use crate::text::chars_of;
use vstd::prelude::*;

verus! {

/// The character for a digit below ten.
pub open spec fn digit_char(d: int) -> char {
    (48 + d) as char
}

/// Whether `c` is one of `0` to `9`.
pub open spec fn is_ascii_digit(c: char) -> bool {
    '0' <= c <= '9'
}

/// Whether `s` is not empty and made of `0` to `9` only.
pub open spec fn all_ascii_digits(s: Seq<char>) -> bool {
    s.len() > 0 && forall|i: int| 0 <= i < s.len() ==> is_ascii_digit(#[trigger] s[i])
}

/// `n` in decimal notation, without leading zeros.
pub open spec fn decimal(n: nat) -> Seq<char>
    decreases n,
{
    if n < 10 {
        seq![digit_char(n as int)]
    } else {
        decimal(n / 10).push(digit_char((n % 10) as int))
    }
}

/// `count` times the character `0`.
pub open spec fn zeros(count: nat) -> Seq<char> {
    Seq::new(count, |i: int| '0')
}

/// `s` with zeros put in front until it has at least `width` characters.
pub open spec fn padded(s: Seq<char>, width: nat) -> Seq<char> {
    if s.len() < width {
        zeros((width - s.len()) as nat) + s
    } else {
        s
    }
}

/// The number that a sequence of digits stands for.
pub open spec fn digits_value(s: Seq<char>) -> nat
    decreases s.len(),
{
    if s.len() == 0 {
        0
    } else {
        digits_value(s.drop_last()) * 10 + (s.last() as nat - 48) as nat
    }
}

/// The digits of a number that may carry a leading plus sign.
pub open spec fn after_sign(s: Seq<char>) -> Seq<char> {
    if s.len() > 0 && s[0] == '+' {
        s.drop_first()
    } else {
        s
    }
}

/// The number up to `max` that `s` denotes: digits, with at most one plus sign in
/// front.
pub open spec fn parsed(s: Seq<char>, max: nat) -> Option<nat> {
    let d = after_sign(s);
    if all_ascii_digits(d) && digits_value(d) <= max {
        Some(digits_value(d))
    } else {
        None
    }
}

/// Decimal notation consists of digits, has no leading zero but for zero itself,
/// and denotes the number.
pub proof fn lemma_decimal(n: nat)
    ensures
        all_ascii_digits(decimal(n)),
        digits_value(decimal(n)) == n,
        n > 0 ==> decimal(n)[0] != '0',
    decreases n,
{
    let s = decimal(n);
    if n < 10 {
        assert(s.drop_last() == Seq::<char>::empty());
        assert(digits_value(Seq::<char>::empty()) == 0);
        assert(s.last() as nat == 48 + n);
    } else {
        lemma_decimal(n / 10);
        assert(s.drop_last() == decimal(n / 10));
        assert(s.last() as nat == 48 + n % 10);
        assert(s[0] == decimal(n / 10)[0]);
    }
}

/// Different numbers have different decimal notations.
pub proof fn lemma_decimal_injective(a: nat, b: nat)
    requires
        decimal(a) == decimal(b),
    ensures
        a == b,
{
    lemma_decimal(a);
    lemma_decimal(b);
}

/// The decimal notation of a number.
pub fn to_decimal(n: u64) -> (r: String)
    ensures
        r@ == decimal(n as nat),
    decreases n,
{
    if n < 10 {
        let mut r = String::new();
        r.push((48u8 + n as u8) as char);
        assert(r@ == seq![digit_char(n as int)]);
        r
    } else {
        let mut r = to_decimal(n / 10);
        r.push((48u8 + (n % 10) as u8) as char);
        r
    }
}

/// The number that a text denotes, if it denotes one up to `max`.
pub fn parse_number(s: &str, max: u64) -> (r: Option<u64>)
    ensures
        match r {
            Some(n) => parsed(s@, max as nat) == Some(n as nat),
            None => parsed(s@, max as nat) is None,
        },
{
    let cs = chars_of(s);
    let start: usize = if cs.len() > 0 && cs[0] == '+' { 1 } else { 0 };
    let ghost d = after_sign(s@);
    assert(d == cs@.skip(start as int));
    if start == cs.len() {
        return None;
    }
    let mut n: u64 = 0;
    for i in start..cs.len()
        invariant
            cs@ == s@,
            start < cs@.len(),
            d == after_sign(s@),
            d == cs@.skip(start as int),
            n == digits_value(d.take(i - start)),
            n <= max,
            forall|j: int| 0 <= j < i - start ==> is_ascii_digit(#[trigger] d[j]),
    {
        let c = cs[i];
        assert(c == d[i - start]);
        if c < '0' || c > '9' {
            return None;
        }
        let v: u64 = c as u64 - 48;
        proof {
            assert(d.take(i - start + 1).drop_last() == d.take(i - start));
            assert(digits_value(d.take(i - start + 1)) == n * 10 + v);
        }
        if v > max || n > (max - v) / 10 {
            proof {
                lemma_value_grows(d, i - start + 1);
            }
            return None;
        }
        n = n * 10 + v;
    }
    assert(d.take(d.len() as int) == d);
    Some(n)
}

/// The value of a sequence of digits is at least that of each beginning.
proof fn lemma_value_grows(s: Seq<char>, k: int)
    requires
        0 <= k <= s.len(),
    ensures
        digits_value(s.take(k)) <= digits_value(s),
    decreases s.len() - k,
{
    if k < s.len() {
        lemma_value_grows(s, k + 1);
        assert(s.take(k + 1).drop_last() == s.take(k));
    } else {
        assert(s.take(k) == s);
    }
}

/// A larger number does not take fewer digits.
pub proof fn lemma_decimal_len(i: nat, j: nat)
    requires
        i <= j,
    ensures
        0 < decimal(i).len() <= decimal(j).len(),
    decreases j,
{
    lemma_decimal(i);
    lemma_decimal(j);
    if i >= 10 {
        lemma_decimal_len(i / 10, j / 10);
    }
}

/// Leading zeros do not change the value.
pub proof fn lemma_padded_value(s: Seq<char>, width: nat)
    requires
        all_ascii_digits(s),
    ensures
        all_ascii_digits(padded(s, width)),
        digits_value(padded(s, width)) == digits_value(s),
        s.len() <= width ==> padded(s, width).len() == width,
{
    if s.len() < width {
        lemma_zeros_value((width - s.len()) as nat, s);
    }
}

proof fn lemma_zeros_value(count: nat, s: Seq<char>)
    ensures
        digits_value(zeros(count) + s) == digits_value(s),
    decreases s.len(), count,
{
    let t = zeros(count) + s;
    if s.len() > 0 {
        assert(t.drop_last() == zeros(count) + s.drop_last());
        lemma_zeros_value(count, s.drop_last());
    } else if count > 0 {
        assert(t.drop_last() == zeros((count - 1) as nat) + s);
        lemma_zeros_value((count - 1) as nat, s);
    } else {
        assert(t == s);
    }
}

/// Sequences of digits of one length that denote the same number are the same.
proof fn lemma_same_value(x: Seq<char>, y: Seq<char>)
    requires
        x.len() == y.len(),
        x.len() > 0 ==> all_ascii_digits(x) && all_ascii_digits(y),
        digits_value(x) == digits_value(y),
    ensures
        x == y,
    decreases x.len(),
{
    if x.len() > 0 {
        let p = x.drop_last();
        let q = y.drop_last();
        assert(is_ascii_digit(x.last()) && is_ascii_digit(y.last()));
        assert(digits_value(p) == digits_value(q) && x.last() == y.last());
        lemma_same_value(p, q);
        assert(x == p.push(x.last()));
        assert(y == q.push(y.last()));
    } else {
        assert(x == y);
    }
}

/// Sequences of digits of one length are ordered as the numbers that they denote.
pub proof fn lemma_value_order(x: Seq<char>, y: Seq<char>, u: Seq<char>, v: Seq<char>)
    requires
        x.len() == y.len(),
        all_ascii_digits(x),
        all_ascii_digits(y),
        digits_value(x) < digits_value(y),
    ensures
        less(x + u, y + v),
    decreases x.len(),
{
    let p = x.drop_last();
    let q = y.drop_last();
    let a = x.last();
    let b = y.last();
    assert(is_ascii_digit(a) && is_ascii_digit(b));
    assert(x + u == p + (seq![a] + u));
    assert(y + v == q + (seq![b] + v));
    if x.len() == 1 {
        assert(p == Seq::<char>::empty() && q == Seq::<char>::empty());
        assert(digits_value(p) == 0);
        assert((x + u)[0] == a && (y + v)[0] == b);
    } else if digits_value(p) < digits_value(q) {
        lemma_value_order(p, q, seq![a] + u, seq![b] + v);
    } else {
        lemma_same_value(p, q);
        assert((seq![a] + u)[0] == a && (seq![b] + v)[0] == b);
        lemma_less_after_prefix(p, seq![a] + u, seq![b] + v);
    }
}

/// `s` without the zeros at its start.
pub open spec fn without_zeros(s: Seq<char>) -> Seq<char>
    decreases s.len(),
{
    if s.len() > 0 && s[0] == '0' {
        without_zeros(s.drop_first())
    } else {
        s
    }
}

/// How many digits a number can have before it is marked as longer.
pub const ORDERED_WIDTH: usize = 8;

/// `count` times a colon, the character that comes after the digits.
pub open spec fn colons(count: nat) -> Seq<char> {
    Seq::new(count, |i: int| ':')
}

/// Digits in a form whose order as text is the order of the numbers: padded to eight
/// digits, and with a colon in front for each digit beyond eight.
pub open spec fn ordered_digits(s: Seq<char>) -> Seq<char> {
    if s.len() > ORDERED_WIDTH {
        colons((s.len() - ORDERED_WIDTH) as nat) + s
    } else {
        padded(s, ORDERED_WIDTH as nat)
    }
}

/// The digits from position `from` on, in a form whose order as text is the order of the
/// numbers.
pub fn order_digits(digits: &[char], from: usize) -> (r: String)
    requires
        from <= digits@.len(),
    ensures
        r@ == ordered_digits(digits@.skip(from as int)),
{
    let ghost s = digits@.skip(from as int);
    let n: usize = digits.len() - from;
    let mut r = String::new();
    if n > ORDERED_WIDTH {
        for k in 0..n - ORDERED_WIDTH
            invariant
                r@ == colons(k as nat),
        {
            r.push(':');
            assert(r@ =~= colons((k + 1) as nat));
        }
    } else {
        for k in 0..ORDERED_WIDTH - n
            invariant
                r@ == zeros(k as nat),
        {
            r.push('0');
            assert(r@ =~= zeros((k + 1) as nat));
        }
    }
    let ghost front = r@;
    for k in from..digits.len()
        invariant
            from <= digits@.len(),
            s == digits@.skip(from as int),
            r@ == front + s.take(k - from),
    {
        r.push(digits[k]);
        assert(s.take(k + 1 - from) =~= s.take(k - from).push(digits@[k as int]));
    }
    assert(s.take(s.len() as int) =~= s);
    assert(r@ =~= ordered_digits(s));
    r
}

/// Digits without a zero in front are the decimal notation of their number.
proof fn lemma_decimal_of_value(s: Seq<char>)
    requires
        all_ascii_digits(s),
        s[0] != '0',
    ensures
        s == decimal(digits_value(s)),
        digits_value(s) > 0,
    decreases s.len(),
{
    let p = s.drop_last();
    assert(is_ascii_digit(s.last()));
    assert(s =~= p.push(s.last()));
    if p.len() > 0 {
        assert(all_ascii_digits(p)) by {
            assert forall|i: int| 0 <= i < p.len() implies is_ascii_digit(#[trigger] p[i]) by {
                assert(p[i] == s[i]);
            }
        }
        lemma_decimal_of_value(p);
    } else {
        assert(digits_value(p) == 0);
        assert(s =~= seq![s.last()]);
    }
}

/// Without the zeros at their start, digits are those of the number in decimal notation.
pub proof fn lemma_without_zeros(s: Seq<char>)
    requires
        s.len() > 0 ==> all_ascii_digits(s),
    ensures
        without_zeros(s) == without_zeros(decimal(digits_value(s))),
    decreases s.len(),
{
    if s.len() == 0 {
        let d = decimal(0);
        assert(d.drop_first() =~= s);
        assert(without_zeros(d) == without_zeros(d.drop_first()));
    } else if s[0] == '0' {
        let t = s.drop_first();
        assert forall|i: int| 0 <= i < t.len() implies is_ascii_digit(#[trigger] t[i]) by {
            assert(t[i] == s[i + 1]);
        }
        lemma_without_zeros(t);
        lemma_zeros_value(1, t);
        assert(s =~= zeros(1) + t);
    } else {
        lemma_decimal_of_value(s);
    }
}

/// Leading zeros do not change the ordered form of a number in decimal notation.
pub proof fn lemma_ordered_decimal(n: nat)
    ensures
        ordered_digits(without_zeros(decimal(n))) == ordered_digits(decimal(n)),
{
    lemma_decimal(n);
    let d = decimal(n);
    if n == 0 {
        assert(d.drop_first() =~= Seq::<char>::empty());
        assert(without_zeros(d) == without_zeros(d.drop_first()));
        assert(padded(without_zeros(d), 8) =~= padded(d, 8));
    }
}

/// The ordered forms of two numbers are ordered as the numbers, whatever follows them.
pub proof fn lemma_ordered_digits(i: nat, j: nat, u: Seq<char>, v: Seq<char>)
    requires
        i < j,
    ensures
        less(ordered_digits(decimal(i)) + u, ordered_digits(decimal(j)) + v),
{
    let a = decimal(i);
    let b = decimal(j);
    lemma_decimal(i);
    lemma_decimal(j);
    lemma_decimal_len(i, j);
    let x = ordered_digits(a);
    let y = ordered_digits(b);
    if b.len() <= 8 {
        lemma_padded_value(a, 8);
        lemma_padded_value(b, 8);
        lemma_value_order(x, y, u, v);
    } else {
        let extra: nat = if a.len() > 8 {
            (a.len() - 8) as nat
        } else {
            0
        };
        let front = colons(extra);
        let xs = x.skip(extra as int);
        let ys = y.skip(extra as int);
        assert(x + u =~= front + (xs + u));
        assert(y + v =~= front + (ys + v));
        if a.len() == b.len() {
            assert(xs =~= a && ys =~= b);
            lemma_value_order(a, b, u, v);
        } else {
            lemma_padded_value(a, 8);
            assert(is_ascii_digit(padded(a, 8)[0]));
            assert(xs =~= padded(a, 8));
            assert((xs + u)[0] == padded(a, 8)[0]);
            assert((ys + v)[0] == ':');
        }
        lemma_less_after_prefix(front, xs + u, ys + v);
    }
}

/// A number is read as it is written, with or without a plus sign, up to the largest one
/// that is allowed; a text that is not made of digits is no number.
pub proof fn law_numbers_are_read(n: nat, max: nat, s: Seq<char>)
    ensures
        n <= max ==> parsed(decimal(n), max) == Some(n) && parsed(seq!['+'] + decimal(n), max) == Some(n),
        n > max ==> parsed(decimal(n), max) is None,
        parsed(Seq::empty(), max) is None,
        s.len() > 0 && !is_ascii_digit(s.last()) ==> parsed(s, max) is None,
{
    lemma_decimal(n);
    let d = decimal(n);
    assert(is_ascii_digit(d[0]));
    let p = seq!['+'] + d;
    assert(p.drop_first() =~= d);
    if s.len() > 0 && !is_ascii_digit(s.last()) {
        let t = after_sign(s);
        if t.len() > 0 {
            assert(t[t.len() - 1] == s.last());
        }
    }
}

} // verus!
