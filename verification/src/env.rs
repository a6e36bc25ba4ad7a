//! What the variables of the environment say.

use vstd::prelude::*;

use crate::text;

verus! {

/// What a variable says, if it says anything: an empty one does not.
pub open spec fn present(value: Option<Seq<char>>) -> Option<Seq<char>> {
    match value {
        Some(v) => if v.len() > 0 {
            Some(v)
        } else {
            None
        },
        None => None,
    }
}

/// What a variable says, if it says anything: one with white space alone does
/// not.
pub open spec fn filled(value: Option<Seq<char>>) -> Option<Seq<char>> {
    match value {
        Some(v) => if text::trimmed(v).len() > 0 {
            Some(v)
        } else {
            None
        },
        None => None,
    }
}

/// The number that a variable says, if it is one no greater than `max`.
pub open spec fn filled_number(value: Option<Seq<char>>, max: nat) -> Option<nat> {
    match filled(value) {
        Some(v) => text::unsigned_value(v, max),
        None => None,
    }
}

/// A value, or what stands for it where it is missing.
pub open spec fn or_usual(value: Option<Seq<char>>, usual: Seq<char>) -> Seq<char> {
    match value {
        Some(v) => v,
        None => usual,
    }
}

/// What a variable says, unless it is empty.
pub fn read_present(value: &Option<String>) -> (r: Option<String>)
    ensures
        text::option_view(r) == present(text::option_view(*value)),
{
    match value {
        Some(v) => {
            if text::chars_of(v.as_str()).len() > 0 {
                Some(text::copy(v.as_str()))
            } else {
                None
            }
        },
        None => None,
    }
}

/// What a variable says, unless it is blank.
pub fn read_filled(value: &Option<String>) -> (r: Option<String>)
    ensures
        text::option_view(r) == filled(text::option_view(*value)),
{
    match value {
        Some(v) => {
            let chars = text::chars_of(v.as_str());
            if text::trim(chars.as_slice()).len() > 0 {
                Some(text::copy(v.as_str()))
            } else {
                None
            }
        },
        None => None,
    }
}

/// The number that a variable says.
pub fn read_filled_number(value: &Option<String>, max: u64) -> (r: Option<u64>)
    ensures
        match r {
            Some(n) => filled_number(text::option_view(*value), max as nat) == Some(n as nat) && n
                <= max,
            None => filled_number(text::option_view(*value), max as nat) is None,
        },
{
    match read_filled(value) {
        Some(v) => text::read_unsigned(text::chars_of(v.as_str()).as_slice(), max),
        None => None,
    }
}

/// A value, or what stands for it where it is missing.
pub fn or_else(value: Option<String>, usual: &str) -> (r: String)
    ensures
        r@ == or_usual(text::option_view(value), usual@),
{
    match value {
        Some(v) => v,
        None => text::copy(usual),
    }
}

// ---------------------------------------------------------------------------
// Laws
// ---------------------------------------------------------------------------

/// A variable that is missing or empty says nothing. One with white space
/// alone counts as blank; any other is taken as it is, with the white space
/// around it.
pub proof fn law_blank_variable_says_nothing(s: Seq<char>, at: int)
    ensures
        present(None) is None,
        filled(None) is None,
        present(Some(Seq::empty())) is None,
        s.len() > 0 ==> present(Some(s)) == Some(s),
        text::all_spaces(s) ==> filled(Some(s)) is None,
        0 <= at < s.len() && !text::is_space(s[at]) ==> filled(Some(s)) == Some(s),
{
    if text::all_spaces(s) {
        let none = Seq::<char>::empty();
        text::law_only_space_is_trimmed(s, none, none);
        assert(s + none + none =~= s);
    }
    if 0 <= at < s.len() && !text::is_space(s[at]) {
        text::lemma_filled_stays(s, at);
    }
}

/// A variable with a number in decimal says it, up to the greatest that is
/// asked for; with anything else it says none.
pub proof fn law_number_variable_reads_back(n: nat, max: nat, s: Seq<char>, at: int)
    requires
        0 <= at < s.len(),
        !text::is_digit(s[at]),
        at > 0 || s[0] != '+' || s.len() == 1,
    ensures
        filled_number(Some(text::decimal(n)), max) == (if n <= max {
            Some(n)
        } else {
            None
        }),
        filled_number(Some(s), max) is None,
        filled_number(None, max) is None,
{
    let digits = text::decimal(n);
    text::lemma_decimal(n);
    assert(text::is_digit(digits[0]));
    law_blank_variable_says_nothing(digits, 0);
    text::law_number_reads_back(n, max, 0);
    assert(text::zeros(0) + digits =~= digits);
    text::law_other_texts_are_no_numbers(s, at, max);
}

/// What a variable says stands before the usual value, which stands only where
/// nothing is said.
pub proof fn law_usual_value_stands_for_nothing(value: Seq<char>, usual: Seq<char>)
    ensures
        or_usual(Some(value), usual) == value,
        or_usual(None, usual) == usual,
{
}

} // verus!
