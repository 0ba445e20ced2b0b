//! Decimal rendering of integers, as the log format writes them.
use vstd::prelude::*;

verus! {

/// The ASCII digit for `d` (0 ..= 9).
pub open spec fn digit_char(d: int) -> char {
    (48 + d) as char
}

/// Decimal digits of `n`, most significant first, without leading zeros.
pub open spec fn decimal(n: nat) -> Seq<char>
    decreases n,
{
    if n < 10 {
        seq![digit_char(n as int)]
    } else {
        decimal(n / 10).push(digit_char((n % 10) as int))
    }
}

/// `count` copies of the character `c`.
pub open spec fn repeated(c: char, count: int) -> Seq<char> {
    Seq::new(if count > 0 { count as nat } else { 0 }, |_i: int| c)
}

/// Decimal digits of `n`, preceded by zeros up to `width` characters in all.
pub open spec fn zero_padded(n: nat, width: int) -> Seq<char> {
    repeated('0', width - decimal(n).len()) + decimal(n)
}

/// `v` in decimal, with a leading `-` when negative, zero-padded after the sign up to
/// `width` characters in all.
pub open spec fn signed_zero_padded(v: int, width: int) -> Seq<char> {
    if v < 0 {
        seq!['-'] + zero_padded((-v) as nat, width - 1)
    } else {
        zero_padded(v as nat, width)
    }
}

proof fn lemma_decimal_nonempty(n: nat)
    ensures
        decimal(n).len() >= 1,
    decreases n,
{
    if n >= 10 {
        lemma_decimal_nonempty(n / 10);
    }
}

/// The digit `d` as a one-character string.
fn digit_str(d: u64) -> (s: &'static str)
    requires
        d < 10,
    ensures
        s@ == seq![digit_char(d as int)],
{
    if d == 0 {
        proof { reveal_strlit("0"); }
        assert("0"@ =~= seq![digit_char(0)]);
        "0"
    } else if d == 1 {
        proof { reveal_strlit("1"); }
        assert("1"@ =~= seq![digit_char(1)]);
        "1"
    } else if d == 2 {
        proof { reveal_strlit("2"); }
        assert("2"@ =~= seq![digit_char(2)]);
        "2"
    } else if d == 3 {
        proof { reveal_strlit("3"); }
        assert("3"@ =~= seq![digit_char(3)]);
        "3"
    } else if d == 4 {
        proof { reveal_strlit("4"); }
        assert("4"@ =~= seq![digit_char(4)]);
        "4"
    } else if d == 5 {
        proof { reveal_strlit("5"); }
        assert("5"@ =~= seq![digit_char(5)]);
        "5"
    } else if d == 6 {
        proof { reveal_strlit("6"); }
        assert("6"@ =~= seq![digit_char(6)]);
        "6"
    } else if d == 7 {
        proof { reveal_strlit("7"); }
        assert("7"@ =~= seq![digit_char(7)]);
        "7"
    } else if d == 8 {
        proof { reveal_strlit("8"); }
        assert("8"@ =~= seq![digit_char(8)]);
        "8"
    } else {
        proof { reveal_strlit("9"); }
        assert("9"@ =~= seq![digit_char(9)]);
        "9"
    }
}

/// Appends the decimal digits of `n`.
pub fn push_decimal(out: &mut String, n: u64)
    ensures
        final(out)@ == old(out)@ + decimal(n as nat),
    decreases n,
{
    if n >= 10 {
        push_decimal(out, n / 10);
    }
    out.append(digit_str(n % 10));
    assert(decimal(n as nat) == (if n < 10 {
        seq![digit_char(n as int)]
    } else {
        decimal((n / 10) as nat).push(digit_char((n % 10) as int))
    }));
    assert(final(out)@ =~= old(out)@ + decimal(n as nat));
}

/// Number of decimal digits of `n`.
fn decimal_len(n: u64) -> (len: u64)
    ensures
        len == decimal(n as nat).len(),
        len <= n + 1,
    decreases n,
{
    if n < 10 {
        1
    } else {
        let rest = decimal_len(n / 10);
        proof {
            assert(decimal(n as nat) == decimal((n / 10) as nat).push(digit_char((n % 10) as int)));
        }
        rest + 1
    }
}

/// Appends `count` copies of `0`.
fn push_zeros(out: &mut String, count: u64)
    ensures
        final(out)@ == old(out)@ + repeated('0', count as int),
{
    let ghost start = out@;
    let mut i: u64 = 0;
    while i < count
        invariant
            i <= count,
            out@ == start + repeated('0', i as int),
        decreases count - i,
    {
        proof { reveal_strlit("0"); }
        out.append("0");
        assert(out@ =~= start + repeated('0', (i + 1) as int));
        i = i + 1;
    }
    assert(out@ =~= start + repeated('0', count as int));
}

/// Appends `n` in decimal, zero-padded to at least `width` characters.
pub fn push_zero_padded(out: &mut String, n: u64, width: u64)
    ensures
        final(out)@ == old(out)@ + zero_padded(n as nat, width as int),
{
    let ghost start = out@;
    let len = decimal_len(n);
    let pad = if width > len {
        width - len
    } else {
        0
    };
    push_zeros(out, pad);
    push_decimal(out, n);
    assert(repeated('0', pad as int) =~= repeated('0', width - decimal(n as nat).len()));
    assert(out@ =~= start + zero_padded(n as nat, width as int));
}

/// Appends `v` in decimal with its sign, zero-padded after the sign to at least `width`
/// characters in all.
pub fn push_signed_zero_padded(out: &mut String, v: i64, width: u64)
    requires
        width >= 1,
    ensures
        final(out)@ == old(out)@ + signed_zero_padded(v as int, width as int),
{
    let ghost start = out@;
    if v < 0 {
        proof { reveal_strlit("-"); }
        out.append("-");
        let magnitude: u64 = if v == i64::MIN {
            9_223_372_036_854_775_808
        } else {
            (-v) as u64
        };
        push_zero_padded(out, magnitude, width - 1);
        assert(out@ =~= start + signed_zero_padded(v as int, width as int));
    } else {
        push_zero_padded(out, v as u64, width);
    }
}

/// Ten to the power `k`.
pub open spec fn pow10(k: nat) -> nat
    decreases k,
{
    if k == 0 {
        1
    } else {
        10 * pow10((k - 1) as nat)
    }
}

/// A number below `10^width` has at most `width` digits (and always at least one).
pub proof fn lemma_decimal_len_bound(n: nat, width: nat)
    requires
        n < pow10(width),
        width >= 1,
    ensures
        1 <= decimal(n).len() <= width,
    decreases width,
{
    if n >= 10 {
        lemma_decimal_len_bound(n / 10, (width - 1) as nat);
    }
}

/// Zero padding to `width` gives exactly `width` characters for a number below `10^width`.
pub proof fn lemma_zero_padded_len(n: nat, width: nat)
    requires
        n < pow10(width),
        width >= 1,
    ensures
        zero_padded(n, width as int).len() == width,
{
    lemma_decimal_len_bound(n, width);
}

/// Different numbers have different decimal digits.
pub proof fn lemma_decimal_injective(a: nat, b: nat)
    requires
        a != b,
    ensures
        decimal(a) != decimal(b),
    decreases a + b,
{
    lemma_decimal_nonempty(a);
    lemma_decimal_nonempty(b);
    if a < 10 && b < 10 {
        assert(decimal(a)[0] != decimal(b)[0]);
    } else if a < 10 {
        lemma_decimal_nonempty(b / 10);
        assert(decimal(b).len() >= 2);
    } else if b < 10 {
        lemma_decimal_nonempty(a / 10);
        assert(decimal(a).len() >= 2);
    } else if a % 10 != b % 10 {
        assert(decimal(a).last() != decimal(b).last());
    } else {
        lemma_decimal_injective(a / 10, b / 10);
        if decimal(a) == decimal(b) {
            assert(decimal(a / 10) =~= decimal(a).drop_last());
            assert(decimal(b / 10) =~= decimal(b).drop_last());
        }
    }
}

/// Decimal digits are digits: none of them is a `-`.
pub proof fn lemma_decimal_has_no_dash(n: nat)
    ensures
        forall|i: int| 0 <= i < decimal(n).len() ==> #[trigger] decimal(n)[i] != '-',
    decreases n,
{
    if n >= 10 {
        lemma_decimal_has_no_dash(n / 10);
        assert forall|i: int| 0 <= i < decimal(n).len() implies #[trigger] decimal(n)[i] != '-' by {
            if i < decimal(n / 10).len() {
                assert(decimal(n)[i] == decimal(n / 10)[i]);
            } else {
                assert(decimal(n)[i] == digit_char((n % 10) as int));
            }
        }
    } else {
        assert(decimal(n)[0] == digit_char(n as int));
    }
}

/// The number that a string of decimal digits spells.
pub open spec fn numeral_value(digits: Seq<char>) -> int
    decreases digits.len(),
{
    if digits.len() == 0 {
        0
    } else {
        numeral_value(digits.drop_last()) * 10 + (digits.last() as int - 48)
    }
}

proof fn lemma_numeral_value_decimal(n: nat)
    ensures
        numeral_value(decimal(n)) == n,
    decreases n,
{
    if n >= 10 {
        lemma_numeral_value_decimal(n / 10);
        assert(decimal(n).drop_last() =~= decimal(n / 10));
        assert(digit_char((n % 10) as int) as int == 48 + n % 10);
        assert(decimal(n).last() == digit_char((n % 10) as int));
        assert(numeral_value(decimal(n)) == numeral_value(decimal(n / 10)) * 10 + (n % 10));
    } else {
        assert(decimal(n).drop_last() =~= Seq::<char>::empty());
        assert(numeral_value(Seq::<char>::empty()) == 0);
        assert(digit_char(n as int) as int == 48 + n);
        assert(decimal(n).last() == digit_char(n as int));
    }
}

proof fn lemma_numeral_value_leading_zeros(count: int, digits: Seq<char>)
    ensures
        numeral_value(repeated('0', count) + digits) == numeral_value(digits),
    decreases digits.len(),
{
    let zeros = repeated('0', count);
    if digits.len() == 0 {
        assert(zeros + digits =~= zeros);
        lemma_numeral_value_zeros(count);
    } else {
        lemma_numeral_value_leading_zeros(count, digits.drop_last());
        assert((zeros + digits).drop_last() =~= zeros + digits.drop_last());
    }
}

proof fn lemma_numeral_value_zeros(count: int)
    ensures
        numeral_value(repeated('0', count)) == 0,
    decreases (if count > 0 { count } else { 0 }),
{
    if count > 0 {
        lemma_numeral_value_zeros(count - 1);
        assert(repeated('0', count).drop_last() =~= repeated('0', count - 1));
    }
}

/// A zero-padded numeral spells the number it was made from, so different numbers give
/// different padded numerals.
pub proof fn lemma_zero_padded_value(n: nat, width: int)
    ensures
        numeral_value(zero_padded(n, width)) == n,
{
    lemma_numeral_value_leading_zeros(width - decimal(n).len(), decimal(n));
    lemma_numeral_value_decimal(n);
}

/// Whether `a` comes strictly before `b` in lexicographic order of characters, the order of
/// `String` comparison.
pub open spec fn text_precedes(a: Seq<char>, b: Seq<char>) -> bool {
    ||| exists|i: int|
        0 <= i < a.len() && i < b.len() && #[trigger] a.take(i) == b.take(i) && (a[i] as int)
            < (b[i] as int)
    ||| a.len() < b.len() && a == b.take(a.len() as int)
}

/// Padding `n` to `width >= 2` is padding `n / 10` to one less, then its last digit.
proof fn lemma_zero_padded_split(n: nat, width: int)
    requires
        width >= 2,
    ensures
        zero_padded(n, width) == zero_padded(n / 10, width - 1).push(digit_char((n % 10) as int)),
{
    if n >= 10 {
        assert(decimal(n) == decimal(n / 10).push(digit_char((n % 10) as int)));
        assert(zero_padded(n, width) =~= zero_padded(n / 10, width - 1).push(
            digit_char((n % 10) as int),
        ));
    } else {
        assert(decimal(0) == seq![digit_char(0)]);
        assert(zero_padded(n, width) =~= zero_padded(n / 10, width - 1).push(
            digit_char((n % 10) as int),
        ));
    }
}

/// Of two numbers below `10^width`, the smaller gives the zero-padded numeral that comes
/// first: they agree up to some position, where the smaller has the smaller digit.
pub proof fn lemma_zero_padded_order(a: nat, b: nat, width: nat) -> (i: int)
    requires
        a < b < pow10(width),
        width >= 1,
    ensures
        0 <= i < width,
        zero_padded(a, width as int).len() == width,
        zero_padded(b, width as int).len() == width,
        zero_padded(a, width as int).take(i) == zero_padded(b, width as int).take(i),
        (zero_padded(a, width as int)[i] as int) < (zero_padded(b, width as int)[i] as int),
    decreases width,
{
    lemma_zero_padded_len(a, width);
    lemma_zero_padded_len(b, width);
    let za = zero_padded(a, width as int);
    let zb = zero_padded(b, width as int);
    if width == 1 {
        assert(za =~= seq![digit_char(a as int)]);
        assert(zb =~= seq![digit_char(b as int)]);
        assert(za.take(0) =~= zb.take(0));
        0
    } else {
        lemma_zero_padded_split(a, width as int);
        lemma_zero_padded_split(b, width as int);
        let w1 = (width - 1) as nat;
        let pa = zero_padded(a / 10, w1 as int);
        let pb = zero_padded(b / 10, w1 as int);
        if a / 10 < b / 10 {
            let i = lemma_zero_padded_order(a / 10, b / 10, w1);
            assert(za.take(i) =~= pa.take(i));
            assert(zb.take(i) =~= pb.take(i));
            assert(za[i] == pa[i]);
            assert(zb[i] == pb[i]);
            i
        } else {
            lemma_zero_padded_len(a / 10, w1);
            lemma_zero_padded_len(b / 10, w1);
            assert(pa == pb);
            assert(za.take(w1 as int) =~= pa);
            assert(zb.take(w1 as int) =~= pb);
            w1 as int
        }
    }
}

/// `a` and `b` agree before position `k` and `a` has the smaller character there.
pub open spec fn differs_first_at(a: Seq<char>, b: Seq<char>, k: int) -> bool {
    &&& 0 <= k < a.len()
    &&& k < b.len()
    &&& a.take(k) == b.take(k)
    &&& (a[k] as int) < (b[k] as int)
}

/// Extending two texts keeps the position where they first differ.
pub proof fn lemma_differs_first_at_append(
    a: Seq<char>,
    b: Seq<char>,
    a_more: Seq<char>,
    b_more: Seq<char>,
    k: int,
)
    requires
        differs_first_at(a, b, k),
    ensures
        differs_first_at(a + a_more, b + b_more, k),
{
    assert((a + a_more).take(k) =~= a.take(k));
    assert((b + b_more).take(k) =~= b.take(k));
    assert((a + a_more)[k] == a[k]);
    assert((b + b_more)[k] == b[k]);
}

/// A prefix in common keeps the position where two texts first differ, shifted by its
/// length.
pub proof fn lemma_differs_first_at_prepend(prefix: Seq<char>, x: Seq<char>, y: Seq<char>, i: int)
    requires
        differs_first_at(x, y, i),
    ensures
        differs_first_at(prefix + x, prefix + y, prefix.len() + i),
{
    let k = prefix.len() + i;
    assert((prefix + x).take(k) =~= prefix + x.take(i));
    assert((prefix + y).take(k) =~= prefix + y.take(i));
    assert((prefix + x)[k] == x[i]);
    assert((prefix + y)[k] == y[i]);
}

/// Texts that first differ at a position, with the smaller character in the first, come in
/// that order.
pub proof fn lemma_differs_first_at_precedes(a: Seq<char>, b: Seq<char>, k: int)
    requires
        differs_first_at(a, b, k),
    ensures
        text_precedes(a, b),
{
    assert(a.take(k) == b.take(k));
}

/// Two concatenations that are equal and split at the same place, on the left or on the
/// right, have equal parts.
pub proof fn lemma_concat_cancel(a1: Seq<char>, b1: Seq<char>, a2: Seq<char>, b2: Seq<char>)
    requires
        a1 + b1 == a2 + b2,
        a1.len() == a2.len() || b1.len() == b2.len(),
    ensures
        a1 == a2,
        b1 == b2,
{
    assert((a1 + b1).len() == a1.len() + b1.len());
    assert((a2 + b2).len() == a2.len() + b2.len());
    assert forall|i: int| 0 <= i < a1.len() implies a1[i] == a2[i] by {
        assert((a1 + b1)[i] == a1[i]);
        assert((a2 + b2)[i] == a2[i]);
    }
    assert forall|i: int| 0 <= i < b1.len() implies b1[i] == b2[i] by {
        assert((a1 + b1)[a1.len() + i] == b1[i]);
        assert((a2 + b2)[a2.len() + i] == b2[i]);
    }
    assert(a1 =~= a2);
    assert(b1 =~= b2);
}

/// Of two texts of the same length, the one that comes first still comes first with
/// anything appended to each.
pub proof fn lemma_precedes_append(a: Seq<char>, b: Seq<char>, a_more: Seq<char>, b_more: Seq<char>)
    requires
        text_precedes(a, b),
        a.len() == b.len(),
    ensures
        text_precedes(a + a_more, b + b_more),
{
    let k = choose|i: int|
        0 <= i < a.len() && i < b.len() && #[trigger] a.take(i) == b.take(i) && (a[i] as int)
            < (b[i] as int);
    assert(differs_first_at(a, b, k));
    lemma_differs_first_at_append(a, b, a_more, b_more, k);
    lemma_differs_first_at_precedes(a + a_more, b + b_more, k);
}

} // verus!
