//! The numeric type a literal is parsed into.
//!
//! The tokenizer is generic over the value it stores in a number token. A
//! type chooses how literal text maps to a value by implementing [`Numeric`];
//! the mapping is a pure function of the text, so the tokenizer's contract
//! can speak of it exactly. This module also carries the library's own
//! implementation for `i64`, with a proved round trip between literal text
//! and value.

use vstd::prelude::*;

verus! {

/// A value type that numeric literal text parses into. `spec_parse` is the
/// mathematical meaning of a literal; `from_literal` computes it, returning
/// `None` for text the type cannot hold (and the tokenizer then reports a
/// lexical error at the literal's coordinate instead of panicking).
pub trait Numeric: Sized {
    spec fn spec_parse(text: Seq<char>) -> Option<Self>;

    fn from_literal(text: &[char]) -> (r: Option<Self>)
        ensures
            r == Self::spec_parse(text@),
    ;
}

/// Whether `c` is a decimal digit.
pub open spec fn is_digit_char(c: char) -> bool {
    48 <= c as u32 <= 57
}

/// The value of one decimal digit.
pub open spec fn digit_val(c: char) -> int {
    c as u32 - 48
}

/// Whether every character of `text` is a decimal digit.
pub open spec fn all_digits(text: Seq<char>) -> bool {
    forall|i: int| 0 <= i < text.len() ==> is_digit_char(#[trigger] text[i])
}

/// The value of a non-empty run of decimal digits, most significant first.
pub open spec fn digits_val(text: Seq<char>) -> int
    decreases text.len(),
{
    if text.len() == 0 {
        0
    } else {
        10 * digits_val(text.drop_last()) + digit_val(text.last())
    }
}

/// The meaning of integer literal text for `i64`: an optional leading minus
/// sign and one or more digits, provided the value fits. Anything else —
/// fractional literals included — has no `i64` value.
pub open spec fn int_lit_spec(text: Seq<char>) -> Option<i64> {
    if text.len() > 0 && all_digits(text) {
        if digits_val(text) <= i64::MAX {
            Some(digits_val(text) as i64)
        } else {
            None
        }
    } else if text.len() >= 2 && text[0] == '-' && all_digits(text.skip(1)) {
        if -digits_val(text.skip(1)) >= i64::MIN {
            Some((-digits_val(text.skip(1))) as i64)
        } else {
            None
        }
    } else {
        None
    }
}

/// The digit character for a value below ten.
pub open spec fn digit_char(d: int) -> char {
    if d == 0 {
        '0'
    } else if d == 1 {
        '1'
    } else if d == 2 {
        '2'
    } else if d == 3 {
        '3'
    } else if d == 4 {
        '4'
    } else if d == 5 {
        '5'
    } else if d == 6 {
        '6'
    } else if d == 7 {
        '7'
    } else if d == 8 {
        '8'
    } else {
        '9'
    }
}

/// The decimal text of a non-negative value, most significant digit first.
pub open spec fn nat_text(n: int) -> Seq<char>
    decreases n,
{
    if n < 10 {
        seq![digit_char(n)]
    } else {
        nat_text(n / 10).push(digit_char(n % 10))
    }
}

/// The decimal text of an integer: a minus sign before the magnitude when
/// negative.
pub open spec fn int_text(v: int) -> Seq<char> {
    if v < 0 {
        seq!['-'] + nat_text(-v)
    } else {
        nat_text(v)
    }
}

proof fn lemma_digit_char_val(d: int)
    requires
        0 <= d <= 9,
    ensures
        is_digit_char(digit_char(d)),
        digit_val(digit_char(d)) == d,
{
}

proof fn lemma_nat_text_val(n: int)
    requires
        n >= 0,
    ensures
        nat_text(n).len() > 0,
        all_digits(nat_text(n)),
        digits_val(nat_text(n)) == n,
    decreases n,
{
    if n < 10 {
        lemma_digit_char_val(n);
        let t = nat_text(n);
        assert(t =~= seq![digit_char(n)]);
        assert(t.drop_last() =~= Seq::<char>::empty());
        assert(digits_val(t) == 10 * digits_val(t.drop_last()) + digit_val(t.last()));
        assert(digits_val(Seq::<char>::empty()) == 0);
        assert(t.last() == digit_char(n));
        assert forall|i: int| 0 <= i < t.len() implies is_digit_char(#[trigger] t[i]) by {
            assert(t[i] == digit_char(n));
        }
    } else {
        lemma_nat_text_val(n / 10);
        lemma_digit_char_val(n % 10);
        let t = nat_text(n);
        assert(t.drop_last() =~= nat_text(n / 10));
        assert(digits_val(t) == 10 * (n / 10) + n % 10);
        assert(10 * (n / 10) + n % 10 == n) by {
            vstd::arithmetic::div_mod::lemma_fundamental_div_mod(n, 10);
        }
        assert forall|i: int| 0 <= i < t.len() implies is_digit_char(#[trigger] t[i]) by {
            if i < t.len() - 1 {
                assert(t[i] == nat_text(n / 10)[i]);
            } else {
                assert(t[i] == digit_char(n % 10));
            }
        }
    }
}

/// Law: formatting any `i64` yields literal text that parses back to the
/// same value, so tokenizing, formatting and tokenizing again is lossless
/// for the library's integer type.
pub proof fn lemma_literal_round_trip(n: i64)
    ensures
        int_lit_spec(int_text(n as int)) == Some(n),
{
    if n >= 0 {
        lemma_nat_text_val(n as int);
    } else {
        lemma_nat_text_val(-(n as int));
        let t = int_text(n as int);
        assert(t[0] == '-');
        assert(!is_digit_char('-'));
        assert(t.skip(1) =~= nat_text(-(n as int)));
    }
}

/// Law: literal text with an integer value round-trips — formatting that
/// value gives text with the very same value.
pub proof fn lemma_number_round_trip(text: Seq<char>)
    requires
        int_lit_spec(text) is Some,
    ensures
        int_lit_spec(int_text(int_lit_spec(text)->Some_0 as int)) == int_lit_spec(text),
{
    lemma_literal_round_trip(int_lit_spec(text)->Some_0);
}

proof fn lemma_digits_val_nonneg(text: Seq<char>)
    requires
        all_digits(text),
    ensures
        digits_val(text) >= 0,
    decreases text.len(),
{
    if text.len() > 0 {
        assert(all_digits(text.drop_last())) by {
            assert(forall|i: int| 0 <= i < text.len() - 1 ==> text.drop_last()[i] == text[i]);
        }
        lemma_digits_val_nonneg(text.drop_last());
    }
}

proof fn lemma_digits_val_prefix_le(text: Seq<char>, k: int)
    requires
        all_digits(text),
        0 <= k <= text.len(),
    ensures
        digits_val(text.take(k)) <= digits_val(text),
    decreases text.len() - k,
{
    if k < text.len() {
        lemma_digits_val_prefix_le(text, k + 1);
        let t1 = text.take(k + 1);
        assert(t1.drop_last() =~= text.take(k));
        assert(all_digits(t1)) by {
            assert(forall|i: int| 0 <= i < t1.len() ==> t1[i] == text[i]);
        }
        assert(all_digits(text.take(k))) by {
            assert(forall|i: int| 0 <= i < k ==> text.take(k)[i] == text[i]);
        }
        lemma_digits_val_nonneg(text.take(k));
        assert(digits_val(t1) == 10 * digits_val(text.take(k)) + digit_val(t1.last()));
        assert(is_digit_char(t1.last()));
        assert(digit_val(t1.last()) >= 0);
    } else {
        assert(text.take(k) =~= text);
    }
}

/// Parses integer literal text into an `i64`: an optional leading minus
/// sign and one or more decimal digits. Returns `None` for any other text
/// and for values outside the `i64` range.
pub fn parse_int_chars(text: &[char]) -> (r: Option<i64>)
    ensures
        r == int_lit_spec(text@),
{
    let n = text.len();
    if n == 0 {
        return None;
    }
    let neg = text[0] == '-';
    let start: usize = if neg { 1 } else { 0 };
    if start == n {
        return None;
    }
    let bound: u128 = (i64::MAX as u128) + 1;
    let mut i = start;
    let mut acc: u128 = 0;
    while i < n
        invariant
            start <= i <= n,
            n == text@.len(),
            start == 1 <==> neg,
            start == 0 || start == 1,
            neg ==> text@[0] == '-',
            !neg ==> !(text@[0] == '-'),
            bound == (i64::MAX as u128) + 1,
            forall|k: int| start <= k < i ==> is_digit_char(#[trigger] text@[k]),
            acc == digits_val(text@.subrange(start as int, i as int)),
            acc <= bound,
        decreases n - i,
    {
        let c = text[i];
        let u = c as u32;
        if u < 48 || u > 57 {
            proof {
                assert(!is_digit_char(text@[i as int]));
                if neg {
                    assert(!is_digit_char(text@.skip(1)[i - 1]));
                } else {
                    assert(!all_digits(text@));
                }
            }
            return None;
        }
        proof {
            let pre = text@.subrange(start as int, i as int);
            let ext = text@.subrange(start as int, i + 1);
            assert(ext.drop_last() =~= pre);
        }
        acc = acc * 10 + (u - 48) as u128;
        i = i + 1;
        if acc > bound {
            proof {
                let digits = text@.subrange(start as int, n as int);
                if all_digits(digits) {
                    assert(text@.subrange(start as int, i as int) =~= digits.take(i - start));
                    lemma_digits_val_prefix_le(digits, i - start);
                }
                if neg {
                    assert(text@.skip(1) =~= digits);
                } else {
                    assert(text@ =~= digits);
                }
            }
            return None;
        }
    }
    proof {
        let digits = text@.subrange(start as int, n as int);
        assert(digits =~= text@.subrange(start as int, i as int));
        if neg {
            assert(text@.skip(1) =~= digits);
        } else {
            assert(text@ =~= digits);
        }
    }
    if neg {
        if acc == bound {
            Some(i64::MIN)
        } else {
            Some(-(acc as i64))
        }
    } else {
        if acc > i64::MAX as u128 {
            return None;
        }
        Some(acc as i64)
    }
}

impl Numeric for i64 {
    open spec fn spec_parse(text: Seq<char>) -> Option<i64> {
        int_lit_spec(text)
    }

    fn from_literal(text: &[char]) -> (r: Option<i64>) {
        parse_int_chars(text)
    }
}

/// Formats an `i64` as decimal literal text; [`lemma_literal_round_trip`]
/// proves the text parses back to the same value.
pub fn int_to_literal(n: i64) -> (r: String)
    ensures
        r@ == int_text(n as int),
{
    let mut m: u64 = if n >= 0 {
        n as u64
    } else {
        (-(n as i128)) as u64
    };
    let ghost m0: int = m as int;
    let mut digits: Vec<char> = Vec::new();
    loop
        invariant_except_break
            m0 >= 0,
            0 <= m <= m0,
            if digits@.len() == 0 {
                m == m0
            } else {
                m > 0 && nat_text(m0) =~= nat_text(m as int) + digits@.reverse()
            },
        ensures
            digits@.len() > 0,
            nat_text(m0) =~= digits@.reverse(),
        decreases m, (if digits@.len() == 0 { 1int } else { 0int }),
    {
        let d = (m % 10) as u8;
        let c: char = digit_to_char(d);
        proof {
            let old_digits = digits@;
            let new_digits = old_digits.push(c);
            assert(new_digits.reverse() =~= seq![c] + old_digits.reverse());
            assert(c == digit_char(m as int % 10));
            if m >= 10 {
                assert(nat_text(m as int) =~= nat_text(m as int / 10) + seq![c]);
                if old_digits.len() == 0 {
                    assert(nat_text(m0) =~= nat_text(m as int / 10) + new_digits.reverse());
                } else {
                    assert(nat_text(m0) =~= (nat_text(m as int / 10) + seq![c])
                        + old_digits.reverse());
                    assert(nat_text(m0) =~= nat_text(m as int / 10) + new_digits.reverse());
                }
            } else {
                assert(m as int % 10 == m as int);
                assert(nat_text(m as int) =~= seq![c]);
                if old_digits.len() == 0 {
                    assert(nat_text(m0) =~= new_digits.reverse());
                } else {
                    assert(nat_text(m0) =~= seq![c] + old_digits.reverse());
                    assert(nat_text(m0) =~= new_digits.reverse());
                }
            }
        }
        digits.push(c);
        m = m / 10;
        if m == 0 {
            break;
        }
    }
    let mut out = String::new();
    if n < 0 {
        crate::common::push_char(&mut out, '-');
    }
    let ghost prefix: Seq<char> = out@;
    let mut k = digits.len();
    while k > 0
        invariant
            k <= digits@.len(),
            out@ =~= prefix + digits@.reverse().take(digits@.len() - k),
        decreases k,
    {
        k = k - 1;
        proof {
            let r = digits@.reverse();
            let done = digits@.len() - k;
            assert(r.take(done) =~= r.take(done - 1).push(digits@[k as int]));
        }
        crate::common::push_char(&mut out, digits[k]);
    }
    proof {
        assert(digits@.reverse().take(digits@.len() as int) =~= digits@.reverse());
        assert(nat_text(m0) =~= digits@.reverse());
        if n >= 0 {
            assert(out@ =~= nat_text(n as int));
        } else {
            assert(out@ =~= seq!['-'] + nat_text(-(n as int)));
        }
    }
    out
}

fn digit_to_char(d: u8) -> (c: char)
    requires
        d <= 9,
    ensures
        c == digit_char(d as int),
{
    if d == 0 {
        '0'
    } else if d == 1 {
        '1'
    } else if d == 2 {
        '2'
    } else if d == 3 {
        '3'
    } else if d == 4 {
        '4'
    } else if d == 5 {
        '5'
    } else if d == 6 {
        '6'
    } else if d == 7 {
        '7'
    } else if d == 8 {
        '8'
    } else {
        '9'
    }
}

} // verus!
