//! Recognition of base-10 floating literals, for the legacy ASCII float
//! field: an optional sign, then digits with at most one dot (at least one
//! digit in all), then an optional exponent part `e`/`E`, an optional sign
//! and at least one digit. Only the shape of the text is judged here; its
//! numeric value is floating-point work and stays outside this library.

use vstd::prelude::*;

verus! {

/// An ASCII `+` or `-`.
pub open spec fn is_sign(b: u8) -> bool {
    b == 43 || b == 45
}

/// An ASCII decimal digit.
pub open spec fn is_digit(b: u8) -> bool {
    48 <= b <= 57
}

/// An ASCII `e` or `E`.
pub open spec fn is_exp_char(b: u8) -> bool {
    b == 101 || b == 69
}

/// Every byte is a decimal digit.
pub open spec fn all_digits(s: Seq<u8>) -> bool {
    forall|i: int| 0 <= i < s.len() ==> is_digit(#[trigger] s[i])
}

/// Digits with at most one dot and at least one digit: `123`, `123.`,
/// `123.45` or `.45`.
pub open spec fn is_number_body(s: Seq<u8>) -> bool {
    (s.len() > 0 && all_digits(s)) || (exists|k: int|
        0 <= k < s.len() && #[trigger] s[k] == 46 && s.len() > 1 && all_digits(s.subrange(0, k))
            && all_digits(s.subrange(k + 1, s.len() as int)))
}

/// An optional sign, then at least one digit: the text after `e`/`E`.
pub open spec fn is_exp_suffix(s: Seq<u8>) -> bool {
    if s.len() > 0 && is_sign(s[0]) {
        s.len() > 1 && all_digits(s.subrange(1, s.len() as int))
    } else {
        s.len() > 0 && all_digits(s)
    }
}

/// A number body, optionally followed by `e`/`E` and an exponent suffix.
pub open spec fn is_mantissa_exp(s: Seq<u8>) -> bool {
    is_number_body(s) || (exists|k: int|
        0 <= k < s.len() && is_exp_char(#[trigger] s[k]) && is_number_body(s.subrange(0, k))
            && is_exp_suffix(s.subrange(k + 1, s.len() as int)))
}

/// A well-formed base-10 floating literal.
pub open spec fn is_float_literal(s: Seq<u8>) -> bool {
    if s.len() > 0 && is_sign(s[0]) {
        is_mantissa_exp(s.subrange(1, s.len() as int))
    } else {
        is_mantissa_exp(s)
    }
}

/// A number body holds only digits and dots, so never an `e`/`E` or a sign.
proof fn lemma_number_body_bytes(s: Seq<u8>, i: int)
    requires
        is_number_body(s),
        0 <= i < s.len(),
    ensures
        is_digit(s[i]) || s[i] == 46,
{
    if !(s.len() > 0 && all_digits(s)) {
        let k = choose|k: int|
            0 <= k < s.len() && #[trigger] s[k] == 46 && s.len() > 1 && all_digits(
                s.subrange(0, k),
            ) && all_digits(s.subrange(k + 1, s.len() as int));
        if i < k {
            assert(is_digit(s.subrange(0, k)[i]));
        } else if i > k {
            assert(is_digit(s.subrange(k + 1, s.len() as int)[i - k - 1]));
        }
    }
}

/// Whether every byte of `text[from..to]` is a decimal digit.
fn all_digits_in(text: &[u8], from: usize, to: usize) -> (r: bool)
    requires
        from <= to <= text@.len(),
    ensures
        r == all_digits(text@.subrange(from as int, to as int)),
{
    let ghost part = text@.subrange(from as int, to as int);
    let mut i: usize = from;
    let mut ok: bool = true;
    while i < to
        invariant
            from <= i <= to <= text@.len(),
            part == text@.subrange(from as int, to as int),
            ok == forall|j: int| from <= j < i ==> is_digit(#[trigger] text@[j]),
        decreases to - i,
    {
        let b = text[i];
        if !(48 <= b && b <= 57) {
            ok = false;
        }
        i = i + 1;
    }
    proof {
        if ok {
            assert forall|j: int| 0 <= j < part.len() implies is_digit(#[trigger] part[j]) by {
                assert(part[j] == text@[from + j]);
            }
        } else {
            let j = choose|j: int| from <= j < to && !is_digit(#[trigger] text@[j]);
            assert(part[j - from] == text@[j]);
            assert(!all_digits(part));
        }
    }
    ok
}

/// Whether `text[from..to]` is a number body: digits with at most one dot and
/// at least one digit.
fn is_number_body_in(text: &[u8], from: usize, to: usize) -> (r: bool)
    requires
        from <= to <= text@.len(),
    ensures
        r == is_number_body(text@.subrange(from as int, to as int)),
{
    let ghost part = text@.subrange(from as int, to as int);
    // find the first dot, if any
    let mut i: usize = from;
    while i < to && text[i] != 46
        invariant
            from <= i <= to <= text@.len(),
            forall|j: int| from <= j < i ==> #[trigger] text@[j] != 46,
        decreases to - i,
    {
        i = i + 1;
    }
    if i == to {
        // no dot: only the all-digits form remains
        let r = to > from && all_digits_in(text, from, to);
        proof {
            if !r {
                assert forall|k: int| 0 <= k < part.len() implies !(#[trigger] part[k] == 46) by {
                    assert(part[k] == text@[from + k]);
                }
            }
        }
        r
    } else {
        let r = to - from > 1 && all_digits_in(text, from, i) && all_digits_in(text, i + 1, to);
        proof {
            let d = i - from;
            assert(part[d] == 46);
            assert(part.subrange(0, d) =~= text@.subrange(from as int, i as int));
            assert(part.subrange(d + 1, part.len() as int) =~= text@.subrange(
                i + 1,
                to as int,
            ));
            // the first dot is the only possible split: any later dot leaves a
            // dot inside its digit prefix, and all bytes before `i` are digits
            // only if the prefix check succeeded
            if r {
                assert(is_number_body(part));
            } else {
                assert(!(part.len() > 0 && all_digits(part))) by {
                    assert(!is_digit(part[d]));
                }
                assert forall|k: int|
                    !(0 <= k < part.len() && #[trigger] part[k] == 46 && part.len() > 1
                        && all_digits(part.subrange(0, k)) && all_digits(
                        part.subrange(k + 1, part.len() as int),
                    )) by {
                    if 0 <= k < part.len() && part[k] == 46 && part.len() > 1 {
                        if k > d {
                            assert(part.subrange(0, k)[d] == 46);
                            assert(!is_digit(part.subrange(0, k)[d]));
                        } else if k < d {
                            assert(part[k] == text@[from + k]);
                            assert(text@[from + k] != 46);
                        } else {
                            if part.len() > 1 && all_digits(part.subrange(0, d)) && all_digits(
                                part.subrange(d + 1, part.len() as int),
                            ) {
                                assert(r);
                            }
                        }
                    }
                }
            }
        }
        r
    }
}

/// Whether `text[from..to]` is an exponent suffix: an optional sign, then at
/// least one digit.
fn is_exp_suffix_in(text: &[u8], from: usize, to: usize) -> (r: bool)
    requires
        from <= to <= text@.len(),
    ensures
        r == is_exp_suffix(text@.subrange(from as int, to as int)),
{
    let ghost part = text@.subrange(from as int, to as int);
    if from < to && (text[from] == 43 || text[from] == 45) {
        let r = to - from > 1 && all_digits_in(text, from + 1, to);
        proof {
            assert(part[0] == text@[from as int]);
            assert(part.subrange(1, part.len() as int) =~= text@.subrange(from + 1, to as int));
        }
        r
    } else {
        let r = to > from && all_digits_in(text, from, to);
        proof {
            if part.len() > 0 {
                assert(part[0] == text@[from as int]);
            }
        }
        r
    }
}

/// Whether `text[from..to]` is a number body with an optional exponent part.
fn is_mantissa_exp_in(text: &[u8], from: usize, to: usize) -> (r: bool)
    requires
        from <= to <= text@.len(),
    ensures
        r == is_mantissa_exp(text@.subrange(from as int, to as int)),
{
    let ghost part = text@.subrange(from as int, to as int);
    // find the first e or E, if any
    let mut i: usize = from;
    while i < to && text[i] != 101 && text[i] != 69
        invariant
            from <= i <= to <= text@.len(),
            forall|j: int| from <= j < i ==> !is_exp_char(#[trigger] text@[j]),
        decreases to - i,
    {
        i = i + 1;
    }
    if i == to {
        // no exponent marker: only the plain number-body form remains
        let r = is_number_body_in(text, from, to);
        proof {
            assert forall|k: int| 0 <= k < part.len() implies !is_exp_char(#[trigger] part[k]) by {
                assert(part[k] == text@[from + k]);
            }
        }
        r
    } else {
        let r = is_number_body_in(text, from, i) && is_exp_suffix_in(text, i + 1, to);
        proof {
            let d = i - from;
            assert(part[d] == text@[i as int]);
            assert(part.subrange(0, d) =~= text@.subrange(from as int, i as int));
            assert(part.subrange(d + 1, part.len() as int) =~= text@.subrange(
                i + 1,
                to as int,
            ));
            if r {
                assert(is_mantissa_exp(part));
            } else {
                // the first marker is the only possible split: a number body
                // holds no e or E, so no later split can have a well-formed
                // mantissa, and no earlier byte is a marker at all
                assert(!is_number_body(part)) by {
                    if is_number_body(part) {
                        lemma_number_body_bytes(part, d);
                    }
                }
                assert forall|k: int|
                    !(0 <= k < part.len() && is_exp_char(#[trigger] part[k]) && is_number_body(
                        part.subrange(0, k),
                    ) && is_exp_suffix(part.subrange(k + 1, part.len() as int))) by {
                    if 0 <= k < part.len() && is_exp_char(part[k]) {
                        if k > d {
                            if is_number_body(part.subrange(0, k)) {
                                lemma_number_body_bytes(part.subrange(0, k), d);
                            }
                        } else if k < d {
                            assert(part[k] == text@[from + k]);
                            assert(!is_exp_char(text@[from + k]));
                        } else {
                            if is_number_body(part.subrange(0, d)) && is_exp_suffix(
                                part.subrange(d + 1, part.len() as int),
                            ) {
                                assert(r);
                            }
                        }
                    }
                }
            }
        }
        r
    }
}

/// Whether the whole of `text` is a well-formed base-10 floating literal.
pub fn check_float_literal(text: &[u8]) -> (r: bool)
    ensures
        r == is_float_literal(text@),
{
    let n = text.len();
    if n > 0 && (text[0] == 43 || text[0] == 45) {
        let r = is_mantissa_exp_in(text, 1, n);
        proof {
            assert(text@.subrange(1, n as int) =~= text@.subrange(1, text@.len() as int));
        }
        r
    } else {
        let r = is_mantissa_exp_in(text, 0, n);
        proof {
            assert(text@.subrange(0, n as int) =~= text@);
        }
        r
    }
}

} // verus!
