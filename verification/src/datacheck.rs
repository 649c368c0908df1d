//! Checking a query for a cell of a loaded game.

use vstd::prelude::*;
use vstd::string::*;
use crate::board::GameData;
use crate::utils::{
    all_upper, digit_chars, digits_value, is_space, is_whitespace, lemma_kept, letters_and_digits,
    parse_number, string_of, to_chars, unsigned_part, upper_letters, with_text,
};

verus! {

/// The number of the row that the letters `s` name, counted from one:
/// `A` is 1, `Z` is 26, `AA` is 27.
pub open spec fn row_number(s: Seq<char>) -> nat
    decreases s.len(),
{
    if s.len() == 0 {
        0
    } else {
        row_number(s.drop_last()) * 26 + (s.last() as u32 - 'A' as u32 + 1) as nat
    }
}

/// The number of a row grows with each letter that is added.
proof fn lemma_row_grows(s: Seq<char>, n: int)
    requires
        0 <= n <= s.len(),
        all_upper(s),
    ensures
        row_number(s.take(n)) <= row_number(s),
    decreases s.len() - n,
{
    if n < s.len() {
        assert(s.take(n + 1).drop_last() == s.take(n));
        assert(s.take(n + 1).last() == s[n]);
        lemma_row_grows(s, n + 1);
    } else {
        assert(s.take(n) == s);
    }
}

/// Whether `letters` are letters from `A` to `Z` that name a row whose
/// number fits the machine word.
pub fn row_fits(letters: &Vec<char>) -> (r: bool)
    ensures
        r == (all_upper(letters@) && row_number(letters@) <= usize::MAX),
{
    let n: usize = letters.len();
    let mut value: usize = 0;
    let mut i: usize = 0;
    while i < n
        invariant
            i <= n == letters@.len(),
            all_upper(letters@.take(i as int)),
            value == row_number(letters@.take(i as int)),
        decreases n - i,
    {
        let c = letters[i];
        proof {
            assert(letters@.take(i + 1).drop_last() == letters@.take(i as int));
            assert(letters@.take(i + 1).last() == c);
        }
        if !(c >= 'A' && c <= 'Z') {
            assert(!crate::utils::is_upper(letters@[i as int]));
            return false;
        }
        let d: usize = (c as u32 - 'A' as u32) as usize + 1;
        if value > (usize::MAX - d) / 26 {
            proof {
                assert(row_number(letters@.take(i + 1)) == value * 26 + d);
                if all_upper(letters@) {
                    lemma_row_grows(letters@, i + 1);
                }
            }
            return false;
        }
        value = value * 26 + d;
        proof {
            let seen = letters@.take(i as int);
            let next = letters@.take(i + 1);
            assert forall|k: int| 0 <= k < next.len() implies crate::utils::is_upper(#[trigger] next[k]) by {
                if k < seen.len() {
                    assert(seen[k] == next[k]);
                }
            }
        }
        i += 1;
    }
    assert(letters@.take(n as int) == letters@);
    true
}

/// Whether `s` holds a character that is no letter from `A` to `Z`, no
/// digit and no white space.
pub open spec fn has_other(s: Seq<char>) -> bool {
    exists|i: int| 0 <= i < s.len() && !(#[trigger] is_plain(s[i]))
}

/// Whether `c` is a letter from `A` to `Z`, a digit or white space.
pub open spec fn is_plain(c: char) -> bool {
    'A' <= c <= 'Z' || '0' <= c <= '9' || is_space(c)
}

/// Text of the error for a query on a game that is not loaded.
pub open spec fn not_loaded_text() -> Seq<char> {
    "Error: You have not loaded a file yet!"@
}

/// Why the query `query` cannot be answered for a game that is loaded or
/// not; `None` where it can. A query names a cell by the letters of its
/// row and the number of its column, as in `B7`. The first that holds is
/// given: the game is not loaded; the query holds something else than
/// letters from `A` to `Z`, digits and white space, or its row is beyond
/// the machine word; it has no letter or no digit; its column is zero or
/// beyond the machine word.
pub open spec fn query_fault(query: Seq<char>, loaded: bool) -> Option<Seq<char>> {
    if !loaded {
        Some(not_loaded_text())
    } else if has_other(query) {
        Some("Invalid format in query."@)
    } else if upper_letters(query).len() == 0 || digit_chars(query).len() == 0 {
        Some("Invalid query (missing row or column): "@ + query)
    } else if row_number(upper_letters(query)) > usize::MAX {
        Some("Invalid format in query."@)
    } else if digits_value(digit_chars(query)) == 0 || digits_value(digit_chars(query)) > usize::MAX {
        Some("Invalid column number"@)
    } else {
        None
    }
}

/// Checks the query `mybuf` for a cell of the player `playerid`. A query
/// that can be answered gives 1, whatever the cell holds.
pub fn query_array(mybuf: &str, myboard: &mut GameData, playerid: i16) -> (r: Result<i16, String>)
    ensures
        final(myboard)@ == old(myboard)@,
        match r {
            Ok(found) => found == 1 && query_fault(mybuf@, old(myboard)@.loaded) is None,
            Err(msg) => query_fault(mybuf@, old(myboard)@.loaded) == Some(msg@),
        },
{
    if !myboard.get_loaded() {
        return Err(String::from_str("Error: You have not loaded a file yet!"));
    }
    let chars = to_chars(mybuf);
    let n: usize = chars.len();
    let mut i: usize = 0;
    while i < n
        invariant
            i <= n == chars@.len(),
            chars@ == mybuf@,
            *myboard == *old(myboard),
            myboard@.loaded,
            forall|j: int| 0 <= j < i ==> is_plain(#[trigger] chars@[j]),
        decreases n - i,
    {
        let c = chars[i];
        if !(c >= 'A' && c <= 'Z') && !(c >= '0' && c <= '9') && !is_whitespace(c) {
            assert(!is_plain(chars@[i as int]));
            return Err(String::from_str("Invalid format in query."));
        }
        i += 1;
    }
    let (row_str, col_str) = letters_and_digits(&chars);
    if row_str.len() == 0 || col_str.len() == 0 {
        return Err(string_of(&with_text(to_chars("Invalid query (missing row or column): "), mybuf)));
    }
    proof {
        lemma_kept(chars@);
    }
    if !row_fits(&row_str) {
        return Err(String::from_str("Invalid format in query."));
    }
    assert(col_str@[0] != '+') by {
        assert(crate::utils::is_digit(col_str@[0]));
    }
    assert(unsigned_part(col_str@) == col_str@);
    match parse_number(&col_str) {
        Some(column) => {
            if column == 0 {
                return Err(String::from_str("Invalid column number"));
            }
        },
        None => {
            return Err(String::from_str("Invalid column number"));
        },
    }
    Ok(1)
}

} // verus!
