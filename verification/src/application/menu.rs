//! Reading the choice that the user typed.

use std::collections::HashMap;
use vstd::prelude::*;
use crate::utils::naming::{parse_index, parse_number};

verus! {

/// The number from 0 to 255 that `s` spells: digits, with a plus sign before
/// them or none. Anything else spells none.
pub open spec fn parse_choice(s: Seq<char>) -> Option<u8> {
    if s.len() > 0 && s[0] == '-' {
        None
    } else {
        match parse_number(s) {
            Some(value) => if value <= 255 {
                Some(value as u8)
            } else {
                None
            },
            None => None,
        }
    }
}

/// Why a choice could not be read.
#[derive(Debug, Clone, Copy, PartialEq, Eq)]
pub enum ChoiceError {
    /// What was typed spells no number from 0 to 255.
    NotADigit,
    /// No option has the number that was typed.
    NoSuchOption,
}

impl ChoiceError {
    /// What to tell the user.
    pub fn message(&self) -> (text: String)
        ensures
            text@ == (match self {
                ChoiceError::NotADigit => "Option must be a digit"@,
                ChoiceError::NoSuchOption => "There is no such option"@,
            }),
    {
        match self {
            ChoiceError::NotADigit => String::from_str("Option must be a digit"),
            ChoiceError::NoSuchOption => String::from_str("There is no such option"),
        }
    }
}

/// The option of `map` that has the number that `opt` spells.
pub fn parse_option_from_str<T: Copy>(map: &HashMap<u8, T>, opt: &str) -> (choice: Result<
    T,
    ChoiceError,
>)
    ensures
        match choice {
            Ok(option) => parse_choice(opt@) matches Some(number) && map@.contains_key(number)
                && option == map@[number],
            Err(ChoiceError::NotADigit) => parse_choice(opt@) is None,
            Err(ChoiceError::NoSuchOption) => parse_choice(opt@) matches Some(number)
                && !map@.contains_key(number),
        },
{
    broadcast use vstd::std_specs::hash::group_hash_axioms;

    if opt.unicode_len() > 0 && opt.get_char(0) == '-' {
        return Err(ChoiceError::NotADigit);
    }
    let option: u8 = match parse_index(opt) {
        Some(value) => {
            if value > 255 {
                return Err(ChoiceError::NotADigit);
            }
            value as u8
        },
        None => {
            return Err(ChoiceError::NotADigit);
        },
    };

    match map.get(&option) {
        Some(value) => Ok(*value),
        None => Err(ChoiceError::NoSuchOption),
    }
}

} // verus!
