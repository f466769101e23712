//! The resize-panel logic: turning the width and height input fields into a
//! resize command, with a verified decimal parser.

use vstd::prelude::*;
use vstd::string::StrSliceExecFns;

verus! {

/// Messages of the resize panel.
#[derive(Clone, Copy, Debug, PartialEq, Eq, Structural)]
pub enum Message {
    /// Apply a resize to the given width and height.
    Resize(usize, usize),
    /// The width field changed.
    InputWidth(usize),
    /// The height field changed.
    InputHeight(usize),
    /// A field held no usable number.
    WrongValue,
}

/// A decimal digit.
pub open spec fn is_digit(ch: char) -> bool {
    '0' <= ch <= '9'
}

/// The numeric value of a decimal digit.
pub open spec fn digit_val(ch: char) -> int {
    ch as int - '0' as int
}

/// Every character is a decimal digit.
pub open spec fn all_digits(s: Seq<char>) -> bool {
    forall|i: int| 0 <= i < s.len() ==> is_digit(#[trigger] s[i])
}

/// The number a digit string denotes, most significant digit first.
pub open spec fn digits_val(s: Seq<char>) -> int
    decreases s.len(),
{
    if s.len() == 0 {
        0
    } else {
        digits_val(s.drop_last()) * 10 + digit_val(s.last())
    }
}

/// A digit string denotes a nonnegative number.
pub proof fn lemma_digits_val_nonneg(s: Seq<char>)
    requires
        all_digits(s),
    ensures
        digits_val(s) >= 0,
    decreases s.len(),
{
    if s.len() > 0 {
        assert(all_digits(s.drop_last()));
        lemma_digits_val_nonneg(s.drop_last());
    }
}

/// Extending a digit string never shrinks its value.
pub proof fn lemma_digits_prefix_monotone(s: Seq<char>, j: int)
    requires
        all_digits(s),
        0 <= j <= s.len(),
    ensures
        digits_val(s) >= digits_val(s.take(j)),
    decreases s.len() - j,
{
    if j < s.len() {
        lemma_digits_prefix_monotone(s, j + 1);
        assert(s.take(j + 1).drop_last() =~= s.take(j));
        assert(all_digits(s.take(j)));
        lemma_digits_val_nonneg(s.take(j));
    } else {
        assert(s.take(j) =~= s);
    }
}

/// The digits of a decimal string: everything after one optional leading
/// plus sign.
pub open spec fn num_body(s: Seq<char>) -> Seq<char> {
    if s.len() > 0 && s[0] == '+' {
        s.drop_first()
    } else {
        s
    }
}

/// Parses a nonempty all-digit decimal string; `None` on an empty string, a
/// non-digit character, or a value past `usize::MAX`.
fn parse_digits(s: &str) -> (r: Option<usize>)
    ensures
        match r {
            Some(n) => {
                &&& s@.len() > 0
                &&& all_digits(s@)
                &&& n as int == digits_val(s@)
            },
            None => s@.len() == 0 || !all_digits(s@) || digits_val(s@) > usize::MAX,
        },
{
    let len = s.unicode_len();
    if len == 0 {
        return None;
    }
    let mut acc: usize = 0;
    let mut i: usize = 0;
    while i < len
        invariant
            i <= len,
            len as nat == s@.len(),
            len >= 1,
            all_digits(s@.take(i as int)),
            acc as int == digits_val(s@.take(i as int)),
        decreases len - i,
    {
        let ch = s.get_char(i);
        let d = ch as u32;
        if d < 48 || d > 57 {
            proof {
                assert(!is_digit(s@[i as int]));
            }
            return None;
        }
        let digit = (d - 48) as usize;
        proof {
            assert(s@.take(i + 1 as int).drop_last() =~= s@.take(i as int));
            assert(s@.take(i + 1 as int).last() == s@[i as int]);
            assert(is_digit(s@[i as int]));
            assert(digit as int == digit_val(s@[i as int]));
        }
        let shifted = match acc.checked_mul(10) {
            Some(v) => v,
            None => {
                proof {
                    assert(all_digits(s@) ==> digits_val(s@) > usize::MAX) by {
                        if all_digits(s@) {
                            lemma_digits_prefix_monotone(s@, i + 1);
                            assert(digits_val(s@.take(i + 1 as int)) == acc * 10 + digit);
                        }
                    }
                }
                return None;
            },
        };
        let next = match shifted.checked_add(digit) {
            Some(v) => v,
            None => {
                proof {
                    assert(all_digits(s@) ==> digits_val(s@) > usize::MAX) by {
                        if all_digits(s@) {
                            lemma_digits_prefix_monotone(s@, i + 1);
                            assert(digits_val(s@.take(i + 1 as int)) == acc * 10 + digit);
                        }
                    }
                }
                return None;
            },
        };
        acc = next;
        i += 1;
    }
    proof {
        assert(s@.take(len as int) =~= s@);
    }
    Some(acc)
}

/// Parses a decimal string with one optional leading plus sign; `None` when
/// no digits follow, a character is not a digit, or the value is past
/// `usize::MAX`.
pub fn parse_usize(s: &str) -> (r: Option<usize>)
    ensures
        match r {
            Some(n) => {
                &&& num_body(s@).len() > 0
                &&& all_digits(num_body(s@))
                &&& n as int == digits_val(num_body(s@))
            },
            None => num_body(s@).len() == 0 || !all_digits(num_body(s@)) || digits_val(
                num_body(s@),
            ) > usize::MAX,
        },
{
    let len = s.unicode_len();
    if len == 0 {
        return None;
    }
    if s.get_char(0) == '+' {
        let rest = s.substring_char(1, len);
        proof {
            assert(rest@ =~= s@.drop_first());
        }
        parse_digits(rest)
    } else {
        parse_digits(s)
    }
}

/// Builds the resize command from the two input fields; `None` when either
/// field fails to parse.
pub fn resize_message(width: &str, height: &str) -> (r: Option<Message>)
    ensures
        match r {
            Some(m) => {
                &&& num_body(width@).len() > 0 && all_digits(num_body(width@)) && digits_val(
                    num_body(width@),
                ) <= usize::MAX
                &&& num_body(height@).len() > 0 && all_digits(num_body(height@)) && digits_val(
                    num_body(height@),
                ) <= usize::MAX
                &&& m == Message::Resize(
                    digits_val(num_body(width@)) as usize,
                    digits_val(num_body(height@)) as usize,
                )
            },
            None => {
                ||| num_body(width@).len() == 0
                ||| !all_digits(num_body(width@))
                ||| digits_val(num_body(width@)) > usize::MAX
                ||| num_body(height@).len() == 0
                ||| !all_digits(num_body(height@))
                ||| digits_val(num_body(height@)) > usize::MAX
            },
        },
{
    let w = parse_usize(width);
    let h = parse_usize(height);
    match (w, h) {
        (Some(w), Some(h)) => {
            proof {
                lemma_digits_val_nonneg(num_body(width@));
                lemma_digits_val_nonneg(num_body(height@));
            }
            Some(Message::Resize(w, h))
        },
        _ => None,
    }
}

} // verus!
