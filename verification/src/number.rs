//! Number literals (`-?digits(.digits)?`) and whether a double can hold
//! them: a literal is finite exactly when its integer part is below the
//! smallest decimal that rounds to infinity, 2^1024 - 2^970.
use vstd::prelude::*;
use crate::text::is_digit_spec;

verus! {

pub open spec fn pow10(n: nat) -> nat
    decreases n,
{
    if n == 0 {
        1
    } else {
        10 * pow10((n - 1) as nat)
    }
}

pub open spec fn digit_value(c: char) -> nat {
    (c as nat - '0' as nat) as nat
}

/// The value of a run of decimal digits.
pub open spec fn digits_value(d: Seq<char>) -> nat
    decreases d.len(),
{
    if d.len() == 0 {
        0
    } else {
        digit_value(d[0]) * pow10((d.len() - 1) as nat) + digits_value(d.drop_first())
    }
}

pub open spec fn all_digits(d: Seq<char>) -> bool {
    forall|k: int| 0 <= k < d.len() ==> is_digit_spec(#[trigger] d[k])
}

/// The digits before the decimal point, after an optional minus sign.
pub open spec fn integer_part(text: Seq<char>) -> Seq<char> {
    let body = if text.len() > 0 && text[0] == '-' {
        text.drop_first()
    } else {
        text
    };
    body.take(integer_len(body, 0))
}

/// How many characters from `i` on come before the first `.`.
pub open spec fn integer_len(body: Seq<char>, i: int) -> int
    decreases body.len() - i,
{
    if i >= body.len() || i < 0 || body[i] == '.' {
        if i < 0 { 0 } else { i }
    } else {
        integer_len(body, i + 1)
    }
}

/// The smallest decimal value that rounds to infinity as a double,
/// 2^1024 - 2^970, given by its decimal digits (`threshold_digits`).
pub open spec fn overflow_threshold() -> int {
    digits_value(threshold_digits()) as int
}

/// Whether a number literal's value fits a finite double.
pub open spec fn literal_is_finite(text: Seq<char>) -> bool {
    digits_value(integer_part(text)) < overflow_threshold()
}

proof fn lemma_pow10_pos(n: nat)
    ensures
        pow10(n) >= 1,
    decreases n,
{
    if n > 0 {
        lemma_pow10_pos((n - 1) as nat);
    }
}

proof fn lemma_pow10_mono(a: nat, b: nat)
    requires
        a <= b,
    ensures
        pow10(a) <= pow10(b),
    decreases b,
{
    if a < b {
        lemma_pow10_mono(a, (b - 1) as nat);
        lemma_pow10_pos((b - 1) as nat);
    }
}

proof fn lemma_digits_below(d: Seq<char>)
    requires
        all_digits(d),
    ensures
        digits_value(d) < pow10(d.len()),
    decreases d.len(),
{
    if d.len() > 0 {
        let p = pow10((d.len() - 1) as nat);
        assert(is_digit_spec(d[0]));
        assert(all_digits(d.drop_first())) by {
            assert forall|k: int| 0 <= k < d.drop_first().len() implies is_digit_spec(
                #[trigger] d.drop_first()[k],
            ) by {
                assert(d.drop_first()[k] == d[k + 1]);
            }
        }
        lemma_digits_below(d.drop_first());
        let v = digit_value(d[0]);
        assert(v <= 9);
        assert(v * p <= 9 * p) by (nonlinear_arith)
            requires
                v <= 9,
        ;
    }
}

proof fn lemma_digits_at_least(d: Seq<char>)
    requires
        all_digits(d),
        d.len() >= 1,
        d[0] != '0',
    ensures
        digits_value(d) >= pow10((d.len() - 1) as nat),
{
    let p = pow10((d.len() - 1) as nat);
    assert(is_digit_spec(d[0]));
    let v = digit_value(d[0]);
    assert(v >= 1);
    assert(v * p >= p) by (nonlinear_arith)
        requires
            v >= 1,
    ;
}

proof fn lemma_leading_zero(d: Seq<char>)
    requires
        d.len() >= 1,
        d[0] == '0',
    ensures
        digits_value(d) == digits_value(d.drop_first()),
{
    assert(digit_value(d[0]) == 0);
}

/// Equal-length digit runs compare like their first difference.
proof fn lemma_digits_lex(a: Seq<char>, b: Seq<char>, i: int)
    requires
        all_digits(a),
        all_digits(b),
        a.len() == b.len(),
        0 <= i < a.len(),
        a.take(i) == b.take(i),
        a[i] < b[i],
    ensures
        digits_value(a) < digits_value(b),
    decreases i,
{
    assert(all_digits(a.drop_first())) by {
        assert forall|k: int| 0 <= k < a.drop_first().len() implies is_digit_spec(
            #[trigger] a.drop_first()[k],
        ) by {
            assert(a.drop_first()[k] == a[k + 1]);
        }
    }
    assert(all_digits(b.drop_first())) by {
        assert forall|k: int| 0 <= k < b.drop_first().len() implies is_digit_spec(
            #[trigger] b.drop_first()[k],
        ) by {
            assert(b.drop_first()[k] == b[k + 1]);
        }
    }
    if i == 0 {
        let p = pow10((a.len() - 1) as nat);
        lemma_digits_below(a.drop_first());
        assert(is_digit_spec(a[0]) && is_digit_spec(b[0]));
        let x = digit_value(a[0]);
        let y = digit_value(b[0]);
        assert(x < y);
        assert(x * p + p <= y * p) by (nonlinear_arith)
            requires
                x < y,
        ;
    } else {
        assert(a[0] == a.take(i)[0]);
        assert(b[0] == b.take(i)[0]);
        assert(a.drop_first().take(i - 1) =~= b.drop_first().take(i - 1)) by {
            assert forall|k: int| 0 <= k < i - 1 implies #[trigger] a.drop_first().take(i - 1)[k]
                == b.drop_first().take(i - 1)[k] by {
                assert(a.take(i)[k + 1] == b.take(i)[k + 1]);
                assert(a.take(i)[k + 1] == a[k + 1]);
                assert(b.take(i)[k + 1] == b[k + 1]);
            }
        }
        lemma_digits_lex(a.drop_first(), b.drop_first(), i - 1);
    }
}

/// The 309 decimal digits of 2^1024 - 2^970.
#[verifier::opaque]
pub open spec fn threshold_digits() -> Seq<char> {
    seq!['1', '7', '9', '7', '6', '9', '3', '1', '3', '4', '8', '6', '2', '3', '1', '5', '8', '0', '7', '9', '3', '7', '2', '8', '9', '7', '1', '4', '0', '5', '3', '0', '3', '4', '1', '5', '0', '7', '9', '9', '3', '4', '1', '3', '2', '7', '1', '0', '0', '3', '7', '8', '2', '6', '9', '3', '6', '1', '7', '3', '7', '7', '8', '9', '8', '0', '4', '4', '4', '9', '6', '8', '2', '9', '2', '7', '6', '4', '7', '5', '0', '9', '4', '6', '6', '4', '9', '0', '1', '7', '9', '7', '7', '5', '8', '7', '2', '0', '7', '0', '9', '6', '3', '3', '0', '2', '8', '6', '4', '1', '6', '6', '9', '2', '8', '8', '7', '9', '1', '0', '9', '4', '6', '5', '5', '5', '5', '4', '7', '8', '5', '1', '9', '4', '0', '4', '0', '2', '6', '3', '0', '6', '5', '7', '4', '8', '8', '6', '7', '1', '5', '0', '5', '8', '2', '0', '6', '8', '1', '9', '0', '8', '9', '0', '2', '0', '0', '0', '7', '0', '8', '3', '8', '3', '6', '7', '6', '2', '7', '3', '8', '5', '4', '8', '4', '5', '8', '1', '7', '7', '1', '1', '5', '3', '1', '7', '6', '4', '4', '7', '5', '7', '3', '0', '2', '7', '0', '0', '6', '9', '8', '5', '5', '5', '7', '1', '3', '6', '6', '9', '5', '9', '6', '2', '2', '8', '4', '2', '9', '1', '4', '8', '1', '9', '8', '6', '0', '8', '3', '4', '9', '3', '6', '4', '7', '5', '2', '9', '2', '7', '1', '9', '0', '7', '4', '1', '6', '8', '4', '4', '4', '3', '6', '5', '5', '1', '0', '7', '0', '4', '3', '4', '2', '7', '1', '1', '5', '5', '9', '6', '9', '9', '5', '0', '8', '0', '9', '3', '0', '4', '2', '8', '8', '0', '1', '7', '7', '9', '0', '4', '1', '7', '4', '4', '9', '7', '7', '9', '2']
}


/// Whether `text` has the shape of a number literal: an optional minus
/// sign, digits, and optionally a point followed by digits.
pub open spec fn number_shape(text: Seq<char>) -> bool {
    let body = if text.len() > 0 && text[0] == '-' {
        text.drop_first()
    } else {
        text
    };
    let n = integer_len(body, 0);
    &&& n >= 1
    &&& all_digits(body.take(n))
    &&& (n == body.len() || (body.len() >= n + 2 && all_digits(body.subrange(n + 1, body.len() as int))))
}

proof fn lemma_integer_len(body: Seq<char>, i: int)
    requires
        0 <= i <= body.len(),
    ensures
        i <= integer_len(body, i) <= body.len(),
        integer_len(body, i) < body.len() ==> body[integer_len(body, i)] == '.',
        forall|k: int| i <= k < integer_len(body, i) ==> body[k] != '.',
    decreases body.len() - i,
{
    if i < body.len() && body[i] != '.' {
        lemma_integer_len(body, i + 1);
    }
}

proof fn lemma_all_digits_sub(d: Seq<char>, a: int, b: int)
    requires
        all_digits(d),
        0 <= a <= b <= d.len(),
    ensures
        all_digits(d.subrange(a, b)),
{
    assert forall|k: int| 0 <= k < b - a implies is_digit_spec(#[trigger] d.subrange(a, b)[k]) by {
        assert(d.subrange(a, b)[k] == d[a + k]);
    }
}

/// The position of a literal's integer part, or `None` when `text` is not
/// a number literal.
fn integer_digits(text: &[char]) -> (r: Option<(usize, usize)>)
    ensures
        r is Some <==> number_shape(text@),
        r matches Some((b, e)) ==> b <= e <= text@.len() && integer_part(text@) == text@.subrange(
            b as int,
            e as int,
        ) && all_digits(text@.subrange(b as int, e as int)),
{
    let len = text.len();
    let b: usize = if len > 0 && text[0] == '-' {
        1
    } else {
        0
    };
    let ghost body = if text@.len() > 0 && text@[0] == '-' {
        text@.drop_first()
    } else {
        text@
    };
    assert(body =~= text@.subrange(b as int, len as int));
    let mut e = b;
    while e < len && text[e] != '.'
        invariant
            b <= e <= len == text@.len(),
            body == text@.subrange(b as int, len as int),
            integer_len(body, (e - b) as int) == integer_len(body, 0),
        decreases len - e,
    {
        e = e + 1;
    }
    proof {
        lemma_integer_len(body, 0);
    }
    let ghost n = integer_len(body, 0);
    assert(n == e - b);
    let ghost int_part = body.take(n);
    assert(int_part =~= text@.subrange(b as int, e as int));
    let ghost frac_ok = n == body.len() || (body.len() >= n + 2 && all_digits(
        body.subrange(n + 1, body.len() as int),
    ));
    assert(number_shape(text@) == (n >= 1 && all_digits(int_part) && frac_ok));
    if e == b {
        return None;
    }
    let mut k = b;
    while k < e
        invariant
            b <= k <= e <= len == text@.len(),
            int_part == text@.subrange(b as int, e as int),
            number_shape(text@) == (n >= 1 && all_digits(int_part) && frac_ok),
            forall|t: int| b <= t < k ==> is_digit_spec(#[trigger] text@[t]),
        decreases e - k,
    {
        if !crate::text::is_digit(text[k]) {
            assert(int_part[k - b] == text@[k as int]);
            assert(!all_digits(int_part));
            return None;
        }
        k = k + 1;
    }
    assert(all_digits(int_part)) by {
        assert forall|t: int| 0 <= t < int_part.len() implies is_digit_spec(#[trigger] int_part[t]) by {
            assert(int_part[t] == text@[b + t]);
        }
    }
    if e < len {
        if e + 1 >= len {
            return None;
        }
        let mut k = e + 1;
        while k < len
            invariant
                b <= e,
                e + 1 <= k <= len == text@.len(),
                body == text@.subrange(b as int, len as int),
                n == e - b,
                number_shape(text@) == (n >= 1 && all_digits(int_part) && frac_ok),
                frac_ok == (n == body.len() || (body.len() >= n + 2 && all_digits(
                    body.subrange(n + 1, body.len() as int),
                ))),
                forall|t: int| e + 1 <= t < k ==> is_digit_spec(#[trigger] text@[t]),
            decreases len - k,
        {
            if !crate::text::is_digit(text[k]) {
                assert(body.subrange(n + 1, body.len() as int)[k - e - 1] == text@[k as int]);
                assert(!all_digits(body.subrange(n + 1, body.len() as int)));
                return None;
            }
            k = k + 1;
        }
        assert(all_digits(body.subrange(n + 1, body.len() as int))) by {
            assert forall|t: int| 0 <= t < body.len() - (n + 1) implies is_digit_spec(
                #[trigger] body.subrange(n + 1, body.len() as int)[t],
            ) by {
                assert(body.subrange(n + 1, body.len() as int)[t] == text@[e + 1 + t]);
            }
        }
    }
    Some((b, e))
}

proof fn lemma_threshold_facts()
    ensures
        threshold_digits().len() == 309,
        all_digits(threshold_digits()),
        threshold_digits()[0] == '1',
{
    reveal(threshold_digits);
    assert forall|t: int| 0 <= t < threshold_digits().len() implies is_digit_spec(
        #[trigger] threshold_digits()[t],
    ) by {
        assert(threshold_digits()[t] >= '0' && threshold_digits()[t] <= '9');
    }
}

fn threshold_array() -> (r: [char; 309])
    ensures
        r@ == threshold_digits(),
{
    let limit: [char; 309] = ['1', '7', '9', '7', '6', '9', '3', '1', '3', '4', '8', '6', '2', '3', '1', '5', '8', '0', '7', '9', '3', '7', '2', '8', '9', '7', '1', '4', '0', '5', '3', '0', '3', '4', '1', '5', '0', '7', '9', '9', '3', '4', '1', '3', '2', '7', '1', '0', '0', '3', '7', '8', '2', '6', '9', '3', '6', '1', '7', '3', '7', '7', '8', '9', '8', '0', '4', '4', '4', '9', '6', '8', '2', '9', '2', '7', '6', '4', '7', '5', '0', '9', '4', '6', '6', '4', '9', '0', '1', '7', '9', '7', '7', '5', '8', '7', '2', '0', '7', '0', '9', '6', '3', '3', '0', '2', '8', '6', '4', '1', '6', '6', '9', '2', '8', '8', '7', '9', '1', '0', '9', '4', '6', '5', '5', '5', '5', '4', '7', '8', '5', '1', '9', '4', '0', '4', '0', '2', '6', '3', '0', '6', '5', '7', '4', '8', '8', '6', '7', '1', '5', '0', '5', '8', '2', '0', '6', '8', '1', '9', '0', '8', '9', '0', '2', '0', '0', '0', '7', '0', '8', '3', '8', '3', '6', '7', '6', '2', '7', '3', '8', '5', '4', '8', '4', '5', '8', '1', '7', '7', '1', '1', '5', '3', '1', '7', '6', '4', '4', '7', '5', '7', '3', '0', '2', '7', '0', '0', '6', '9', '8', '5', '5', '5', '7', '1', '3', '6', '6', '9', '5', '9', '6', '2', '2', '8', '4', '2', '9', '1', '4', '8', '1', '9', '8', '6', '0', '8', '3', '4', '9', '3', '6', '4', '7', '5', '2', '9', '2', '7', '1', '9', '0', '7', '4', '1', '6', '8', '4', '4', '4', '3', '6', '5', '5', '1', '0', '7', '0', '4', '3', '4', '2', '7', '1', '1', '5', '5', '9', '6', '9', '9', '5', '0', '8', '0', '9', '3', '0', '4', '2', '8', '8', '0', '1', '7', '7', '9', '0', '4', '1', '7', '4', '4', '9', '7', '7', '9', '2'];
    proof {
        reveal(threshold_digits);
    }
    assert(limit@ =~= threshold_digits());
    limit
}

/// Whether the digits `text[b..e]` are below the overflow threshold.
fn below_threshold(text: &[char], b: usize, e: usize) -> (r: bool)
    requires
        b <= e <= text@.len(),
        all_digits(text@.subrange(b as int, e as int)),
    ensures
        r == (digits_value(text@.subrange(b as int, e as int)) < overflow_threshold()),
{
    let ghost int_part = text@.subrange(b as int, e as int);
    let mut z = b;
    assert(text@.subrange(b as int, e as int) == int_part);
    while z < e && text[z] == '0'
        invariant
            b <= z <= e <= text@.len(),
            int_part == text@.subrange(b as int, e as int),
            digits_value(text@.subrange(z as int, e as int)) == digits_value(int_part),
        decreases e - z,
    {
        proof {
            lemma_leading_zero(text@.subrange(z as int, e as int));
            assert(text@.subrange(z as int, e as int).drop_first() =~= text@.subrange(z + 1, e as int));
        }
        z = z + 1;
    }
    let ghost stripped = text@.subrange(z as int, e as int);
    proof {
        lemma_all_digits_sub(int_part, z - b, e - b);
        assert(int_part.subrange(z - b, e - b) =~= stripped);
        lemma_digits_below(stripped);
        lemma_threshold_facts();
        lemma_digits_below(threshold_digits());
        lemma_digits_at_least(threshold_digits());
    }
    let m = e - z;
    if m < 309 {
        proof {
            lemma_pow10_mono(m as nat, 308);
        }
        return true;
    }
    if m > 309 {
        proof {
            lemma_digits_at_least(stripped);
            lemma_pow10_mono(309, (m - 1) as nat);
        }
        return false;
    }
    let limit = threshold_array();
    let mut i: usize = 0;
    while i < 309
        invariant
            i <= 309,
            e == z + 309,
            e <= text@.len(),
            stripped == text@.subrange(z as int, e as int),
            b <= z,
            digits_value(stripped) == digits_value(text@.subrange(b as int, e as int)),
            limit@ == threshold_digits(),
            threshold_digits().len() == 309,
            all_digits(stripped),
            all_digits(threshold_digits()),
            stripped.take(i as int) == threshold_digits().take(i as int),
        decreases 309 - i,
    {
        let c = text[z + i];
        assert(stripped[i as int] == c);
        if c < limit[i] {
            proof {
                lemma_digits_lex(stripped, threshold_digits(), i as int);
            }
            return true;
        }
        if c > limit[i] {
            proof {
                lemma_digits_lex(threshold_digits(), stripped, i as int);
            }
            return false;
        }
        assert(stripped.take(i + 1) =~= stripped.take(i as int).push(c));
        assert(threshold_digits().take(i + 1) =~= threshold_digits().take(i as int).push(
            limit@[i as int],
        ));
        i = i + 1;
    }
    assert(stripped =~= threshold_digits()) by {
        assert(stripped.take(309) =~= stripped);
        assert(threshold_digits().take(309) =~= threshold_digits());
    }
    false
}

/// Whether a number literal is finite, or `None` when `text` is not a
/// number literal.
pub fn classify_number(text: &[char]) -> (r: Option<bool>)
    ensures
        r == if number_shape(text@) {
            Some(literal_is_finite(text@))
        } else {
            None
        },
{
    match integer_digits(text) {
        None => None,
        Some((b, e)) => Some(below_threshold(text, b, e)),
    }
}

} // verus!
