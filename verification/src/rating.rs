//! The closed 1..=5 quality value attached to a record.

use crate::text::{
    all_digits, digit_val, digits_val, is_space, is_space_char, lemma_digits_val_nonneg,
    lemma_digits_val_snoc, lemma_trim_back_take, lemma_trim_front_skip, parse_uint_text, trim_spec,
};
use vstd::prelude::*;

verus! {

/// A rating is one of exactly five values; no other value can be
/// constructed, so a record that holds a `Rating` is always valid.
#[derive(Clone, Copy, Debug, PartialEq, Eq, Structural)]
pub enum Rating {
    One,
    Two,
    Three,
    Four,
    Five,
}

/// The integer a rating stands for.
pub open spec fn rating_to_int(r: Rating) -> int {
    match r {
        Rating::One => 1,
        Rating::Two => 2,
        Rating::Three => 3,
        Rating::Four => 4,
        Rating::Five => 5,
    }
}

/// The rating standing for an integer, if the integer is in 1..=5.
pub open spec fn rating_from_int(v: int) -> Option<Rating> {
    if v == 1 {
        Some(Rating::One)
    } else if v == 2 {
        Some(Rating::Two)
    } else if v == 3 {
        Some(Rating::Three)
    } else if v == 4 {
        Some(Rating::Four)
    } else if v == 5 {
        Some(Rating::Five)
    } else {
        None
    }
}

/// The single decimal digit that renders a rating.
pub open spec fn rating_digit(r: Rating) -> Seq<char> {
    match r {
        Rating::One => seq!['1'],
        Rating::Two => seq!['2'],
        Rating::Three => seq!['3'],
        Rating::Four => seq!['4'],
        Rating::Five => seq!['5'],
    }
}

impl Rating {
    /// Fallible construction: succeeds exactly for 1..=5.
    pub fn from_u8(value: u8) -> (r: Option<Rating>)
        ensures
            r == rating_from_int(value as int),
    {
        match value {
            1 => Some(Rating::One),
            2 => Some(Rating::Two),
            3 => Some(Rating::Three),
            4 => Some(Rating::Four),
            5 => Some(Rating::Five),
            _ => None,
        }
    }

    /// Renders the rating as its decimal digit.
    pub fn to_text(&self) -> (r: String)
        ensures
            r@ == rating_digit(*self),
    {
        match self {
            Rating::One => {
                proof {
                    reveal_strlit("1");
                }
                let s = String::from_str("1");
                assert(s@ =~= rating_digit(*self));
                s
            },
            Rating::Two => {
                proof {
                    reveal_strlit("2");
                }
                let s = String::from_str("2");
                assert(s@ =~= rating_digit(*self));
                s
            },
            Rating::Three => {
                proof {
                    reveal_strlit("3");
                }
                let s = String::from_str("3");
                assert(s@ =~= rating_digit(*self));
                s
            },
            Rating::Four => {
                proof {
                    reveal_strlit("4");
                }
                let s = String::from_str("4");
                assert(s@ =~= rating_digit(*self));
                s
            },
            Rating::Five => {
                proof {
                    reveal_strlit("5");
                }
                let s = String::from_str("5");
                assert(s@ =~= rating_digit(*self));
                s
            },
        }
    }
}

/// The rating an input text denotes: blanks around the text are
/// ignored, an optional plus sign and decimal digits are read, and the
/// value must land in 1..=5.
pub open spec fn rating_of_input(s: Seq<char>) -> Option<Rating> {
    match parse_uint_text(trim_spec(s)) {
        Some(v) => rating_from_int(v),
        None => None,
    }
}

/// Reads a rating from a raw input text, as `rating_of_input` says.
#[verifier::loop_isolation(false)]
pub fn rating_from_input(s: &str) -> (r: Option<Rating>)
    ensures
        r == rating_of_input(s@),
{
    let n = s.unicode_len();
    let mut a: usize = 0;
    while a < n && is_space_char(s.get_char(a))
        invariant
            a <= n,
            n == s@.len(),
            forall|j: int| 0 <= j < a ==> is_space(#[trigger] s@[j]),
        decreases n - a,
    {
        a = a + 1;
    }
    let mut b: usize = n;
    while b > a && is_space_char(s.get_char(b - 1))
        invariant
            a <= b <= n,
            n == s@.len(),
            forall|j: int| b <= j < n ==> is_space(#[trigger] s@[j]),
        decreases b,
    {
        b = b - 1;
    }
    proof {
        lemma_trim_front_skip(s@, a as int);
        lemma_trim_back_take(s@.skip(a as int), b - a);
        assert(s@.skip(a as int).take(b - a) =~= s@.subrange(a as int, b as int));
    }
    let ghost t = trim_spec(s@);
    assert(t =~= s@.subrange(a as int, b as int));
    let mut i = a;
    if i < b && s.get_char(i) == '+' {
        i = i + 1;
    }
    let ghost digits_part = if t.len() > 0 && t[0] == '+' {
        t.drop_first()
    } else {
        t
    };
    assert(digits_part =~= s@.subrange(i as int, b as int));
    if i == b {
        return None;
    }
    let mut acc: u64 = 0;
    let mut j = i;
    while j < b
        invariant
            i <= j <= b <= n,
            n == s@.len(),
            acc <= 6,
            all_digits(s@.subrange(i as int, j as int)),
            digits_val(s@.subrange(i as int, j as int)) <= 5 ==> acc == digits_val(
                s@.subrange(i as int, j as int),
            ),
            digits_val(s@.subrange(i as int, j as int)) > 5 ==> acc == 6,
        decreases b - j,
    {
        let c = s.get_char(j);
        let u = c as u32;
        if !(48 <= u && u <= 57) {
            assert(!all_digits(s@.subrange(i as int, b as int))) by {
                assert(s@.subrange(i as int, b as int)[j - i] == c);
            }
            return None;
        }
        let d = (u - 48) as u64;
        proof {
            let pref = s@.subrange(i as int, j as int);
            lemma_digits_val_nonneg(pref);
            lemma_digits_val_snoc(pref, c);
            assert(pref.push(c) =~= s@.subrange(i as int, j + 1 as int));
        }
        let next = acc * 10 + d;
        acc = if next > 5 {
            6
        } else {
            next
        };
        j = j + 1;
    }
    assert(digits_part == s@.subrange(i as int, b as int));
    assert(digits_part.len() > 0 && all_digits(digits_part));
    if acc > 5 {
        proof {
            lemma_digits_val_nonneg(digits_part);
        }
        None
    } else {
        Rating::from_u8(acc as u8)
    }
}

/// Constructing a rating from an integer succeeds exactly on 1..=5,
/// and the rating then renders that integer's decimal digit.
pub proof fn lemma_rating_from_int_range(v: int)
    ensures
        rating_from_int(v) is Some <==> 1 <= v <= 5,
        rating_from_int(v) is Some ==> rating_to_int(rating_from_int(v)->Some_0) == v,
        rating_from_int(v) is Some ==> rating_digit(rating_from_int(v)->Some_0).len() == 1
            && rating_digit(rating_from_int(v)->Some_0)[0] as u32 == 48 + v,
{
}

} // verus!
