//! Text and numbers: the pieces of a save file's lines, decimal numbers,
//! column letters, and the random pick.

use vstd::prelude::*;
use vstd::string::*;
use crate::enums::{QueryError, RowColErr, MAX_SIZE};

verus! {

/// The characters of a string, in order.
pub fn to_chars(s: &str) -> (chars: Vec<char>)
    ensures
        chars@ == s@,
{
    let mut chars: Vec<char> = Vec::new();
    for c in it: s.chars()
        invariant
            chars@ == it.seq().take(it.index() as int),
            it.seq() == s@,
    {
        chars.push(c);
    }
    chars
}

/// The string made of `chars`, by `collect` of the standard library: it
/// holds these characters in this order.
#[verifier::external_body]
pub(crate) fn string_of(chars: &Vec<char>) -> (s: String)
    ensures
        s@ == chars@,
{
    chars.iter().collect()
}

/// Whether `c` is white space: a character with the Unicode property
/// `White_Space`.
pub open spec fn is_space(c: char) -> bool {
    let n = c as u32;
    ||| 0x09 <= n <= 0x0d
    ||| n == 0x20
    ||| n == 0x85
    ||| n == 0xa0
    ||| n == 0x1680
    ||| 0x2000 <= n <= 0x200a
    ||| n == 0x2028
    ||| n == 0x2029
    ||| n == 0x202f
    ||| n == 0x205f
    ||| n == 0x3000
}

/// Whether `c` is white space.
pub fn is_whitespace(c: char) -> (r: bool)
    ensures
        r == is_space(c),
{
    let n: u32 = c as u32;
    (0x09 <= n && n <= 0x0d) || n == 0x20 || n == 0x85 || n == 0xa0 || n == 0x1680 || (0x2000 <= n && n
        <= 0x200a) || n == 0x2028 || n == 0x2029 || n == 0x202f || n == 0x205f || n == 0x3000
}

/// `s` without the white space at its start.
pub open spec fn skip_spaces(s: Seq<char>) -> Seq<char>
    decreases s.len(),
{
    if s.len() > 0 && is_space(s[0]) {
        skip_spaces(s.drop_first())
    } else {
        s
    }
}

/// `s` without the white space at its end.
pub open spec fn drop_spaces(s: Seq<char>) -> Seq<char>
    decreases s.len(),
{
    if s.len() > 0 && is_space(s.last()) {
        drop_spaces(s.drop_last())
    } else {
        s
    }
}

/// `s` without the white space at its start and at its end.
pub open spec fn trimmed(s: Seq<char>) -> Seq<char> {
    drop_spaces(skip_spaces(s))
}

/// The characters of `chars` without the white space at either end.
pub fn trim(chars: &Vec<char>) -> (r: Vec<char>)
    ensures
        r@ == trimmed(chars@),
{
    let n: usize = chars.len();
    let mut from: usize = 0;
    assert(chars@.subrange(0, n as int) == chars@);
    while from < n && is_whitespace(chars[from])
        invariant
            from <= n == chars@.len(),
            skip_spaces(chars@) == skip_spaces(chars@.subrange(from as int, n as int)),
        decreases n - from,
    {
        assert(chars@.subrange(from as int, n as int).drop_first() == chars@.subrange(from + 1, n as int));
        from += 1;
    }
    let ghost rest = chars@.subrange(from as int, n as int);
    assert(skip_spaces(chars@) == rest);
    let mut to: usize = n;
    while to > from && is_whitespace(chars[to - 1])
        invariant
            from <= to <= n == chars@.len(),
            rest == chars@.subrange(from as int, n as int),
            drop_spaces(rest) == drop_spaces(chars@.subrange(from as int, to as int)),
        decreases to - from,
    {
        assert(chars@.subrange(from as int, to as int).drop_last() == chars@.subrange(from as int, to - 1));
        to -= 1;
    }
    assert(drop_spaces(rest) == chars@.subrange(from as int, to as int));
    let mut r: Vec<char> = Vec::new();
    let mut i: usize = from;
    while i < to
        invariant
            from <= i <= to <= n == chars@.len(),
            r@ == chars@.subrange(from as int, i as int),
        decreases to - i,
    {
        r.push(chars[i]);
        i += 1;
    }
    r
}

/// The fields of `s` between the separators `sep`. A text without a
/// separator is one field; each separator ends a field and begins the next,
/// which may be empty.
pub open spec fn fields(s: Seq<char>, sep: char) -> Seq<Seq<char>>
    decreases s.len(),
{
    if s.len() == 0 {
        seq![Seq::<char>::empty()]
    } else if s.last() == sep {
        fields(s.drop_last(), sep).push(Seq::<char>::empty())
    } else {
        let before = fields(s.drop_last(), sep);
        before.drop_last().push(before.last().push(s.last()))
    }
}

/// The pieces of `s` between its commas.
pub open spec fn pieces(s: Seq<char>) -> Seq<Seq<char>> {
    fields(s, ',')
}

/// The views of the items of `v`.
pub open spec fn views(v: Seq<Vec<char>>) -> Seq<Seq<char>> {
    Seq::new(v.len(), |i: int| v[i]@)
}

/// The fields of `chars` between the separators `sep`.
pub fn split(chars: &Vec<char>, sep: char) -> (r: Vec<Vec<char>>)
    ensures
        views(r@) == fields(chars@, sep),
{
    let n: usize = chars.len();
    let mut done: Vec<Vec<char>> = Vec::new();
    let mut current: Vec<char> = Vec::new();
    let mut i: usize = 0;
    while i < n
        invariant
            i <= n == chars@.len(),
            views(done@).push(current@) == fields(chars@.take(i as int), sep),
        decreases n - i,
    {
        let c = chars[i];
        proof {
            let upto = chars@.take(i + 1);
            assert(upto.drop_last() == chars@.take(i as int));
            assert(upto.last() == c);
            assert(views(done@).push(current@).drop_last() == views(done@));
        }
        if c == sep {
            let ghost before = views(done@);
            let ghost piece = current@;
            done.push(current);
            current = Vec::new();
            assert(views(done@) == before.push(piece));
        } else {
            current.push(c);
        }
        i += 1;
    }
    assert(chars@.take(n as int) == chars@);
    let ghost before = views(done@);
    let ghost piece = current@;
    done.push(current);
    assert(views(done@) == before.push(piece));
    done
}

/// The pieces of `chars` between its commas.
pub fn split_commas(chars: &Vec<char>) -> (r: Vec<Vec<char>>)
    ensures
        views(r@) == pieces(chars@),
{
    split(chars, ',')
}

/// Whether `c` is one of the digits `0` to `9`.
pub open spec fn is_digit(c: char) -> bool {
    '0' <= c <= '9'
}

/// The number that the digit `c` stands for.
pub open spec fn digit_value(c: char) -> nat {
    (c as u32 - '0' as u32) as nat
}

/// The number that the digits `s` stand for in base ten; zero for no digit.
pub open spec fn digits_value(s: Seq<char>) -> nat
    decreases s.len(),
{
    if s.len() == 0 {
        0
    } else {
        digits_value(s.drop_last()) * 10 + digit_value(s.last())
    }
}

/// Whether `s` holds digits only.
pub open spec fn all_digits(s: Seq<char>) -> bool {
    forall|i: int| 0 <= i < s.len() ==> is_digit(#[trigger] s[i])
}

/// `s` without a plus sign at its start.
pub open spec fn unsigned_part(s: Seq<char>) -> Seq<char> {
    if s.len() > 0 && s[0] == '+' {
        s.drop_first()
    } else {
        s
    }
}

/// The number that `s` is the decimal notation of, however large: an
/// optional plus sign and then one digit or more, and nothing else.
pub open spec fn parsed_number(s: Seq<char>) -> Option<nat> {
    let digits = unsigned_part(s);
    if digits.len() > 0 && all_digits(digits) {
        Some(digits_value(digits))
    } else {
        None
    }
}

/// The number that `s` is the decimal notation of, where it fits the machine word.
pub open spec fn unsigned_value(s: Seq<char>) -> Option<usize> {
    match parsed_number(s) {
        Some(n) if n <= usize::MAX => Some(n as usize),
        _ => None,
    }
}

/// The digit that `c` stands for, if it is a digit.
pub fn digit_of(c: char) -> (r: Option<usize>)
    ensures
        r is Some <==> is_digit(c),
        r matches Some(d) ==> d == digit_value(c) && d <= 9,
{
    if c >= '0' && c <= '9' {
        Some((c as u32 - '0' as u32) as usize)
    } else {
        None
    }
}

/// The value of digits grows with each digit that is added.
proof fn lemma_digits_grow(s: Seq<char>, n: int)
    requires
        0 <= n <= s.len(),
    ensures
        digits_value(s.take(n)) <= digits_value(s),
    decreases s.len() - n,
{
    if n < s.len() {
        assert(s.take(n + 1).drop_last() == s.take(n));
        lemma_digits_grow(s, n + 1);
    } else {
        assert(s.take(n) == s);
    }
}

/// The text `text` with the decimal notation of `n` behind it.
pub fn with_number(text: &str, n: usize) -> (r: Vec<char>)
    ensures
        r@ == text@ + decimal_digits(n as nat),
{
    let mut r = to_chars(text);
    let mut digits = decimal(n);
    r.append(&mut digits);
    r
}

/// The characters of `a` with those of `b` behind them.
pub fn with_text(a: Vec<char>, b: &str) -> (r: Vec<char>)
    ensures
        r@ == a@ + b@,
{
    let mut r = a;
    let mut tail = to_chars(b);
    r.append(&mut tail);
    r
}

/// The characters of `a` with the decimal notation of `n` behind them.
pub fn then_number(a: Vec<char>, n: usize) -> (r: Vec<char>)
    ensures
        r@ == a@ + decimal_digits(n as nat),
{
    let mut r = a;
    let mut digits = decimal(n);
    r.append(&mut digits);
    r
}

/// The number that `chars` is the decimal notation of, if it is one and
/// fits the machine word.
pub fn parse_number(chars: &Vec<char>) -> (r: Option<usize>)
    ensures
        r == unsigned_value(chars@),
{
    let n: usize = chars.len();
    let from: usize = if n > 0 && chars[0] == '+' {
        1
    } else {
        0
    };
    let ghost digits = unsigned_part(chars@);
    assert(digits == chars@.subrange(from as int, n as int));
    if from == n {
        return None;
    }
    let mut value: usize = 0;
    let mut i: usize = from;
    while i < n
        invariant
            from <= i <= n == chars@.len(),
            digits == chars@.subrange(from as int, n as int),
            digits == unsigned_part(chars@),
            all_digits(digits.take(i - from)),
            value == digits_value(digits.take(i - from)),
        decreases n - i,
    {
        let ghost seen = digits.take(i - from);
        let ghost next = digits.take(i - from + 1);
        proof {
            assert(next.drop_last() == seen);
            assert(next.last() == chars@[i as int]);
        }
        match digit_of(chars[i]) {
            None => {
                assert(digits[i - from] == chars@[i as int]);
                assert(!is_digit(digits[i - from]));
                return None;
            },
            Some(d) => {
                if value > (usize::MAX - d) / 10 {
                    proof {
                        // From here on the value is out of range, whatever follows.
                        assert(digits_value(next) == value * 10 + d);
                        assert(digits_value(next) > usize::MAX);
                        lemma_digits_grow(digits, i - from + 1);
                    }
                    return None;
                }
                value = value * 10 + d;
                proof {
                    assert forall|k: int| 0 <= k < next.len() implies is_digit(#[trigger] next[k]) by {
                        if k < seen.len() {
                            assert(seen[k] == next[k]);
                        }
                    }
                }
            },
        }
        i += 1;
    }
    assert(digits.take(n - from) == digits);
    Some(value)
}

/// What [`parse_to_usize`] makes of the text `s`.
pub open spec fn size_of_text(s: Seq<char>) -> Result<usize, RowColErr> {
    match unsigned_value(s) {
        None => Err(RowColErr::Failed),
        Some(n) => if n == 0 {
            Err(RowColErr::TooSmall)
        } else if n > MAX_SIZE {
            Err(RowColErr::TooBig)
        } else {
            Ok(n)
        },
    }
}

/// Reads a size: a decimal number from 1 to [`MAX_SIZE`]. Zero is too
/// small, a larger number too big, and anything else fails: a text that is
/// no decimal number, or a number beyond the machine word.
pub fn parse_to_usize(mystr: &str) -> (r: Result<usize, RowColErr>)
    ensures
        r == size_of_text(mystr@),
{
    let chars = to_chars(mystr);
    parse_size(&chars)
}

/// As [`parse_to_usize`], on characters.
pub fn parse_size(chars: &Vec<char>) -> (r: Result<usize, RowColErr>)
    ensures
        r == size_of_text(chars@),
{
    match parse_number(chars) {
        Some(n) => {
            if n == 0 {
                return Err(RowColErr::TooSmall);
            }
            if n > MAX_SIZE {
                return Err(RowColErr::TooBig);
            } else {
                Ok(n)
            }
        },
        None => Err(RowColErr::Failed),
    }
}

/// The character for the digit `d`.
pub open spec fn digit_char(d: nat) -> char {
    ((48 + d) as u8) as char
}

/// The decimal notation of `n`, without leading zeros.
pub open spec fn decimal_digits(n: nat) -> Seq<char>
    decreases n,
{
    if n < 10 {
        seq![digit_char(n)]
    } else {
        decimal_digits(n / 10).push(digit_char(n % 10))
    }
}

/// The decimal notation of `n`.
pub fn decimal(n: usize) -> (r: Vec<char>)
    ensures
        r@ == decimal_digits(n as nat),
{
    // The digits from the last to the first.
    let mut rev: Vec<char> = Vec::new();
    let mut m: usize = n;
    loop
        invariant_except_break
            decimal_digits(n as nat) == decimal_digits(m as nat) + rev@.reverse(),
        ensures
            decimal_digits(n as nat) == rev@.reverse(),
        decreases m,
    {
        let d: u8 = (m % 10) as u8;
        let ghost before = rev@;
        rev.push((48u8 + d) as char);
        assert(rev@.reverse() == seq![digit_char(d as nat)] + before.reverse());
        if m < 10 {
            break;
        }
        assert(decimal_digits(m as nat) == decimal_digits((m / 10) as nat).push(digit_char(d as nat)));
        m = m / 10;
    }
    let mut r: Vec<char> = Vec::new();
    let mut i: usize = rev.len();
    while i > 0
        invariant
            i <= rev@.len(),
            r@ == rev@.reverse().take(rev@.len() - i),
        decreases i,
    {
        i -= 1;
        r.push(rev[i]);
    }
    assert(rev@.reverse().take(rev@.len() as int) == rev@.reverse());
    r
}

/// Whether `c` is one of the letters `A` to `Z`.
pub open spec fn is_upper(c: char) -> bool {
    'A' <= c <= 'Z'
}

/// Whether `s` holds the letters `A` to `Z` only.
pub open spec fn all_upper(s: Seq<char>) -> bool {
    forall|i: int| 0 <= i < s.len() ==> is_upper(#[trigger] s[i])
}

/// The number that the letters `s` stand for in base 26, with `A` as the
/// digit zero and `Z` as the digit 25; zero for no letter.
pub open spec fn letters_value(s: Seq<char>) -> nat
    decreases s.len(),
{
    if s.len() == 0 {
        0
    } else {
        letters_value(s.drop_last()) * 26 + (s.last() as u32 - 'A' as u32) as nat
    }
}

/// The value of letters grows with each letter that is added.
proof fn lemma_letters_grow(s: Seq<char>, n: int)
    requires
        0 <= n <= s.len(),
        all_upper(s),
    ensures
        letters_value(s.take(n)) <= letters_value(s),
    decreases s.len() - n,
{
    if n < s.len() {
        assert(s.take(n + 1).drop_last() == s.take(n));
        assert(is_upper(s[n]));
        assert(s.take(n + 1).last() == s[n]);
        lemma_letters_grow(s, n + 1);
    } else {
        assert(s.take(n) == s);
    }
}

/// The number that the letters `chars` stand for in base 26, if they are
/// letters from `A` to `Z` and the number fits the machine word.
pub fn column_index(chars: &Vec<char>) -> (r: Option<usize>)
    ensures
        r is Some <==> all_upper(chars@) && letters_value(chars@) <= usize::MAX,
        r matches Some(n) ==> n == letters_value(chars@),
{
    let n: usize = chars.len();
    let mut value: usize = 0;
    let mut i: usize = 0;
    while i < n
        invariant
            i <= n == chars@.len(),
            all_upper(chars@.take(i as int)),
            value == letters_value(chars@.take(i as int)),
        decreases n - i,
    {
        let c = chars[i];
        let ghost seen = chars@.take(i as int);
        let ghost next = chars@.take(i + 1);
        proof {
            assert(next.drop_last() == seen);
            assert(next.last() == c);
        }
        if !(c >= 'A' && c <= 'Z') {
            assert(!is_upper(chars@[i as int]));
            return None;
        }
        let d: usize = (c as u32 - 'A' as u32) as usize;
        if value > (usize::MAX - d) / 26 {
            proof {
                assert(letters_value(next) == value * 26 + d);
                if all_upper(chars@) {
                    lemma_letters_grow(chars@, i + 1);
                }
            }
            return None;
        }
        value = value * 26 + d;
        proof {
            assert forall|k: int| 0 <= k < next.len() implies is_upper(#[trigger] next[k]) by {
                if k < seen.len() {
                    assert(seen[k] == next[k]);
                }
            }
        }
        i += 1;
    }
    assert(chars@.take(n as int) == chars@);
    Some(value)
}

/// The number that the column letters `buf` stand for: see [`letters_value`].
pub fn base_26(buf: String) -> (r: usize)
    requires
        all_upper(buf@),
        letters_value(buf@) <= usize::MAX,
    ensures
        r == letters_value(buf@),
{
    let chars = to_chars(buf.as_str());
    match column_index(&chars) {
        Some(n) => n,
        None => 0,
    }
}

/// The letters that name the column `num`: `A` to `Z` for the first 26
/// columns, then `AA`, `AB` and so on.
pub open spec fn column_letters(num: nat) -> Seq<char>
    decreases num,
{
    let last = ((65 + num % 26) as u8) as char;
    if num < 26 {
        seq![last]
    } else {
        column_letters((num / 26 - 1) as nat).push(last)
    }
}

/// The letters that name the column `num`.
pub fn base26_to_letter(num: usize) -> (r: String)
    ensures
        r@ == column_letters(num as nat),
{
    // The letters from the last to the first.
    let mut rev: Vec<char> = Vec::new();
    let mut m: usize = num;
    loop
        invariant_except_break
            column_letters(num as nat) == column_letters(m as nat) + rev@.reverse(),
        ensures
            column_letters(num as nat) == rev@.reverse(),
        decreases m,
    {
        let d: u8 = (m % 26) as u8;
        let ghost before = rev@;
        rev.push((65u8 + d) as char);
        assert(rev@.reverse() == seq![((65 + d) as u8) as char] + before.reverse());
        if m < 26 {
            break;
        }
        assert(column_letters(m as nat) == column_letters((m / 26 - 1) as nat).push(((65 + d) as u8) as char));
        m = m / 26 - 1;
    }
    let mut letters: Vec<char> = Vec::new();
    let mut i: usize = rev.len();
    while i > 0
        invariant
            i <= rev@.len(),
            letters@ == rev@.reverse().take(rev@.len() - i),
        decreases i,
    {
        i -= 1;
        letters.push(rev[i]);
    }
    assert(rev@.reverse().take(rev@.len() as int) == rev@.reverse());
    string_of(&letters)
}

/// The letters `A` to `Z` of `s`, in order.
pub open spec fn upper_letters(s: Seq<char>) -> Seq<char>
    decreases s.len(),
{
    if s.len() == 0 {
        s
    } else if is_upper(s.last()) {
        upper_letters(s.drop_last()).push(s.last())
    } else {
        upper_letters(s.drop_last())
    }
}

/// The digits of `s`, in order.
pub open spec fn digit_chars(s: Seq<char>) -> Seq<char>
    decreases s.len(),
{
    if s.len() == 0 {
        s
    } else if is_digit(s.last()) {
        digit_chars(s.drop_last()).push(s.last())
    } else {
        digit_chars(s.drop_last())
    }
}

/// The cell that a coordinate names once it is in upper case: the letters
/// `A` to `Z` in it give the column, the digits in it the row, and every
/// other character is passed over.
pub open spec fn query_of(upper: Seq<char>) -> Result<(usize, usize), QueryError> {
    let letters = upper_letters(upper);
    let digits = digit_chars(upper);
    if digits.len() == 0 || letters.len() == 0 {
        Err(QueryError::InvalidFormat)
    } else if letters_value(letters) > usize::MAX {
        Err(QueryError::InvalidColumn)
    } else if digits_value(digits) > usize::MAX {
        Err(QueryError::InvalidRow)
    } else {
        Ok((letters_value(letters) as usize, digits_value(digits) as usize))
    }
}

/// What is kept of a text is letters, or digits.
pub proof fn lemma_kept(s: Seq<char>)
    ensures
        all_upper(upper_letters(s)),
        all_digits(digit_chars(s)),
    decreases s.len(),
{
    if s.len() > 0 {
        lemma_kept(s.drop_last());
    }
}

/// The letters `A` to `Z` of `chars`, and its digits.
pub fn letters_and_digits(chars: &Vec<char>) -> (r: (Vec<char>, Vec<char>))
    ensures
        r.0@ == upper_letters(chars@),
        r.1@ == digit_chars(chars@),
{
    let n: usize = chars.len();
    let mut row_raw: Vec<char> = Vec::new();
    let mut col_raw: Vec<char> = Vec::new();
    let mut i: usize = 0;
    while i < n
        invariant
            i <= n == chars@.len(),
            col_raw@ == upper_letters(chars@.take(i as int)),
            row_raw@ == digit_chars(chars@.take(i as int)),
        decreases n - i,
    {
        let c = chars[i];
        proof {
            let next = chars@.take(i + 1);
            assert(next.drop_last() == chars@.take(i as int));
            assert(next.last() == c);
        }
        if c >= 'A' && c <= 'Z' {
            col_raw.push(c);
        } else if c >= '0' && c <= '9' {
            row_raw.push(c);
        }
        i += 1;
    }
    assert(chars@.take(n as int) == chars@);
    (col_raw, row_raw)
}

/// The cell that the coordinate `upper`, which is in upper case, names: a
/// column in letters and a row in digits, as in `B7`. The row is the number
/// as written.
///
/// A coordinate without a letter or without a digit has not the format; a
/// column or a row beyond the machine word is invalid.
pub fn translate_upper(upper: &str) -> (r: Result<(usize, usize), QueryError>)
    ensures
        r == query_of(upper@),
{
    let chars = to_chars(upper);
    let (col_raw, row_raw) = letters_and_digits(&chars);
    proof {
        lemma_kept(chars@);
    }
    if row_raw.len() == 0 || col_raw.len() == 0 {
        return Err(QueryError::InvalidFormat);
    }
    let col_index = match column_index(&col_raw) {
        Some(col) => col,
        None => {
            return Err(QueryError::InvalidColumn);
        },
    };
    assert(row_raw@[0] != '+') by {
        assert(is_digit(row_raw@[0]));
    }
    assert(unsigned_part(row_raw@) == row_raw@);
    let row_index = match parse_number(&row_raw) {
        Some(row) => row,
        None => {
            return Err(QueryError::InvalidRow);
        },
    };
    Ok((col_index, row_index))
}

/// The upper-case form of a text, as the standard library gives it.
pub uninterp spec fn uppercased(s: Seq<char>) -> Seq<char>;

/// The upper-case form of `s`, by `str::to_uppercase` of the standard
/// library, which depends on the characters of `s` alone.
#[verifier::external_body]
pub(crate) fn to_upper(s: &str) -> (r: String)
    ensures
        r@ == uppercased(s@),
{
    s.to_uppercase()
}

/// The cell that the coordinate `mybuf` names, in upper or lower case: see
/// [`translate_upper`].
pub fn translate_query(mybuf: &str) -> (r: Result<(usize, usize), QueryError>)
    ensures
        r == query_of(uppercased(mybuf@)),
{
    let upper = to_upper(mybuf);
    translate_upper(upper.as_str())
}

/// A number below `len`, by `rand::random_range` on the range from zero to
/// `len`, which draws from the thread's generator. Nothing is claimed of
/// the number but that it lies in the range.
#[verifier::external_body]
pub(crate) fn random_index(len: usize) -> (i: usize)
    requires
        len > 0,
    ensures
        i < len,
{
    rand::random_range(0..len)
}

/// The item at position `idx`, if there is one.
pub fn pick_at<T>(vec: &[T], idx: usize) -> (r: Option<&T>)
    ensures
        match r {
            Some(item) => idx < vec@.len() && *item == vec@[idx as int],
            None => idx >= vec@.len(),
        },
{
    if idx < vec.len() {
        Some(&vec[idx])
    } else {
        None
    }
}

/// One of the items, picked at random; none where there is no item.
pub fn pick_random<T>(vec: &[T]) -> (r: Option<&T>)
    ensures
        r is None <==> vec@.len() == 0,
        r matches Some(item) ==> exists|i: int| 0 <= i < vec@.len() && vec@[i] == *item,
{
    if vec.len() == 0 {
        return None;
    }
    let idx = random_index(vec.len());
    pick_at(vec, idx)
}

/// Ten to the power of `n`.
pub open spec fn pow10(n: nat) -> nat
    decreases n,
{
    if n == 0 {
        1
    } else {
        10 * pow10((n - 1) as nat)
    }
}

/// The width in which the cells of a grid are shown whose largest
/// identifier is `largest`: the least number of tens whose product reaches
/// `largest`, which is the number of its digits unless it is a power of ten.
pub fn pad_width(largest: usize) -> (count: usize)
    ensures
        pow10(count as nat) >= largest,
        count > 0 ==> pow10((count - 1) as nat) < largest,
{
    let mut x: usize = 1;
    let mut count: usize = 0;
    while x < largest
        invariant
            x == pow10(count as nat),
            count > 0 ==> pow10((count - 1) as nat) < largest,
            count <= 40,
            x >= 1,
        decreases 40 - count,
    {
        if x > usize::MAX / 10 {
            // Ten times as much is beyond the machine word, and so beyond `largest`.
            assert(pow10((count + 1) as nat) == 10 * pow10(count as nat));
            return count + 1;
        }
        assert(pow10((count + 1) as nat) == 10 * pow10(count as nat));
        count += 1;
        x = x * 10;
        assert(count <= 40) by {
            lemma_pow10_grows(count as nat);
        }
    }
    count
}

/// Ten to the power of `n` is at least `n` plus one, and beyond the
/// machine word from the fortieth power on.
proof fn lemma_pow10_grows(n: nat)
    ensures
        pow10(n) >= n + 1,
        n >= 40 ==> pow10(n) > usize::MAX,
    decreases n,
{
    if n > 0 {
        lemma_pow10_grows((n - 1) as nat);
    }
    if n >= 40 {
        lemma_pow10_forty();
        lemma_pow10_monotone(40, n);
    }
}

proof fn lemma_pow10_monotone(a: nat, b: nat)
    requires
        a <= b,
    ensures
        pow10(a) <= pow10(b),
    decreases b,
{
    if a < b {
        lemma_pow10_monotone(a, (b - 1) as nat);
    }
}

proof fn lemma_pow10_forty()
    ensures
        pow10(40) > usize::MAX,
{
    reveal_with_fuel(pow10, 41);
    assert(pow10(40) == 10000000000000000000000000000000000000000);
}

} // verus!
