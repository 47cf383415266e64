//! Character-sequence helpers shared by the conditions: substring search,
//! reversal, digit sums, decimal and hexadecimal numerals, and counting.

use vstd::prelude::*;

verus! {

/// `needle` occurs in `hay` starting at position `at`.
pub open spec fn occurs_at(hay: Seq<char>, needle: Seq<char>, at: int) -> bool {
    &&& 0 <= at
    &&& at + needle.len() <= hay.len()
    &&& hay.subrange(at, at + needle.len()) == needle
}

/// `needle` is a contiguous part of `hay`. The empty sequence is part of
/// every sequence.
pub open spec fn contains_seq(hay: Seq<char>, needle: Seq<char>) -> bool {
    exists|at: int| occurs_at(hay, needle, at)
}

/// The characters of a string slice, in order.
pub fn chars_of(s: &str) -> (chars: Vec<char>)
    ensures
        chars@ == s@,
{
    let mut chars: Vec<char> = Vec::new();
    for c in iter: s.chars()
        invariant
            iter.seq() == s@,
            chars@ == s@.take(iter.index() as int),
    {
        chars.push(c);
    }
    assert(chars@ == s@);
    chars
}

/// Whether `needle` occurs in `hay` at position `at`.
pub fn matches_at(hay: &Vec<char>, needle: &Vec<char>, at: usize) -> (found: bool)
    ensures
        found == occurs_at(hay@, needle@, at as int),
{
    if at > hay.len() || needle.len() > hay.len() - at {
        return false;
    }
    let mut k: usize = 0;
    while k < needle.len()
        invariant
            k <= needle.len(),
            at + needle.len() <= hay.len(),
            forall|j: int| 0 <= j < k ==> hay@[at + j] == #[trigger] needle@[j],
        decreases needle@.len() - k,
    {
        if hay[at + k] != needle[k] {
            assert(hay@.subrange(at as int, at + needle@.len())[k as int] != needle@[k as int]);
            return false;
        }
        k += 1;
    }
    assert(hay@.subrange(at as int, at + needle@.len()) =~= needle@);
    true
}

/// Whether `needle` is a contiguous part of `hay`.
pub fn contains(hay: &Vec<char>, needle: &Vec<char>) -> (found: bool)
    ensures
        found == contains_seq(hay@, needle@),
{
    if needle.len() > hay.len() {
        return false;
    }
    let last: usize = hay.len() - needle.len();
    let mut at: usize = 0;
    loop
        invariant
            last == hay.len() - needle.len(),
            at <= last,
            forall|j: int| 0 <= j < at ==> !occurs_at(hay@, needle@, j),
        decreases last - at,
    {
        if matches_at(hay, needle, at) {
            return true;
        }
        if at == last {
            return false;
        }
        at += 1;
    }
}

/// The sequence read backwards.
pub fn reversed<T: Copy>(items: &Vec<T>) -> (back: Vec<T>)
    ensures
        back@ == items@.reverse(),
{
    let mut back: Vec<T> = Vec::new();
    let mut left: usize = items.len();
    while left > 0
        invariant
            left <= items@.len(),
            back@.len() == items@.len() - left,
            forall|j: int| 0 <= j < back@.len() ==> #[trigger] back@[j] == items@[items@.len() - 1 - j],
        decreases left,
    {
        left -= 1;
        back.push(items[left]);
    }
    assert(back@ =~= items@.reverse());
    back
}

/// Whether the sequence reads the same in both directions.
pub fn is_palindrome(chars: &Vec<char>) -> (same: bool)
    ensures
        same == (chars@ == chars@.reverse()),
{
    let n: usize = chars.len();
    let mut i: usize = 0;
    while i < n
        invariant
            n == chars@.len(),
            i <= n,
            forall|j: int| 0 <= j < i ==> #[trigger] chars@[j] == chars@[n - 1 - j],
        decreases n - i,
    {
        if chars[i] != chars[n - 1 - i] {
            assert(chars@.reverse()[i as int] != chars@[i as int]);
            return false;
        }
        i += 1;
    }
    assert(chars@ =~= chars@.reverse());
    true
}

/// The digit symbols of the hexadecimal system, in lower case.
pub open spec fn digit_symbols() -> Seq<char> {
    seq!['0', '1', '2', '3', '4', '5', '6', '7', '8', '9', 'a', 'b', 'c', 'd', 'e', 'f']
}

/// The symbol that stands for a value below sixteen.
pub open spec fn digit_symbol(value: nat) -> char
    recommends
        value < 16,
{
    digit_symbols()[value as int]
}

/// The decimal numeral of `n`, without padding.
pub open spec fn decimal(n: nat) -> Seq<char>
    decreases n,
{
    if n < 10 {
        seq![digit_symbol(n)]
    } else {
        decimal(n / 10).push(digit_symbol(n % 10))
    }
}

/// The two lower-case hexadecimal digits of a byte.
pub open spec fn hex_pair(byte: u8) -> Seq<char> {
    seq![digit_symbol((byte / 16) as nat), digit_symbol((byte % 16) as nat)]
}

/// The six lower-case hexadecimal digits of a colour given by its red, green
/// and blue parts.
pub open spec fn hex_colour(red: u8, green: u8, blue: u8) -> Seq<char> {
    hex_pair(red) + hex_pair(green) + hex_pair(blue)
}

/// The symbol for a value below sixteen.
fn symbol_of(value: u8) -> (symbol: char)
    requires
        value < 16,
    ensures
        symbol == digit_symbol(value as nat),
{
    if value < 10 {
        (value + 48) as char
    } else {
        (value + 87) as char
    }
}

/// The decimal numeral of `n`.
pub fn decimal_of(n: usize) -> (digits: Vec<char>)
    ensures
        digits@ == decimal(n as nat),
    decreases n,
{
    if n < 10 {
        let mut digits: Vec<char> = Vec::new();
        digits.push(symbol_of(n as u8));
        assert(digits@ =~= decimal(n as nat));
        digits
    } else {
        let mut digits = decimal_of(n / 10);
        digits.push(symbol_of((n % 10) as u8));
        digits
    }
}

/// The six hexadecimal digits of a colour.
pub fn hex_of(red: u8, green: u8, blue: u8) -> (digits: Vec<char>)
    ensures
        digits@ == hex_colour(red, green, blue),
{
    let mut digits: Vec<char> = Vec::new();
    digits.push(symbol_of(red / 16));
    digits.push(symbol_of(red % 16));
    digits.push(symbol_of(green / 16));
    digits.push(symbol_of(green % 16));
    digits.push(symbol_of(blue / 16));
    digits.push(symbol_of(blue % 16));
    assert(digits@ =~= hex_colour(red, green, blue));
    digits
}

/// What an ASCII decimal digit is worth; any other character is worth
/// nothing.
pub open spec fn digit_value(c: char) -> nat {
    if '0' <= c && c <= '9' {
        (c as u32 - '0' as u32) as nat
    } else {
        0
    }
}

/// The sum of the ASCII decimal digits in the sequence.
pub open spec fn digit_sum(s: Seq<char>) -> nat
    decreases s.len(),
{
    if s.len() == 0 {
        0
    } else {
        digit_sum(s.drop_last()) + digit_value(s.last())
    }
}

/// Whether the ASCII decimal digits in the sequence add up to `total`.
pub fn digits_sum_to(chars: &Vec<char>, total: usize) -> (exact: bool)
    ensures
        exact == (digit_sum(chars@) == total),
{
    let mut sum: usize = 0;
    let mut i: usize = 0;
    while i < chars.len()
        invariant
            i <= chars.len(),
            sum == digit_sum(chars@.take(i as int)),
            sum <= total,
        decreases chars.len() - i,
    {
        let c: char = chars[i];
        proof {
            assert(chars@.take(i + 1).drop_last() =~= chars@.take(i as int));
            lemma_digit_sum_grows(chars@, i + 1);
        }
        if '0' <= c && c <= '9' {
            let worth: usize = (c as u32 - '0' as u32) as usize;
            if worth > total - sum {
                return false;
            }
            sum += worth;
        }
        i += 1;
    }
    assert(chars@.take(i as int) =~= chars@);
    sum == total
}

/// The digit sum of a prefix never exceeds that of the whole.
pub proof fn lemma_digit_sum_grows(s: Seq<char>, upto: int)
    requires
        0 <= upto <= s.len(),
    ensures
        digit_sum(s.take(upto)) <= digit_sum(s),
    decreases s.len() - upto,
{
    if upto < s.len() {
        assert(s.take(upto + 1).drop_last() =~= s.take(upto));
        lemma_digit_sum_grows(s, upto + 1);
    } else {
        assert(s.take(upto) =~= s);
    }
}

/// The classes of character that a condition may count.
#[derive(Clone, Copy, Debug, PartialEq, Eq, Structural)]
pub enum CharClass {
    /// Upper-case letters, as Unicode defines them.
    Uppercase,
    /// Lower-case letters, as Unicode defines them.
    Lowercase,
    /// The ASCII decimal digits.
    Digit,
}

/// Whether Unicode gives the character the property `Uppercase`.
pub uninterp spec fn unicode_uppercase(c: char) -> bool;

/// Whether Unicode gives the character the property `Lowercase`.
pub uninterp spec fn unicode_lowercase(c: char) -> bool;

/// The lower-case form of a text under Unicode's case mapping.
pub uninterp spec fn unicode_lowercased(s: Seq<char>) -> Seq<char>;

/// `char::is_uppercase` of the standard library decides Unicode's property
/// `Uppercase`; the tables behind it are not restated here.
pub assume_specification[ char::is_uppercase ](c: char) -> (upper: bool)
    ensures
        upper == unicode_uppercase(c),
;

/// `char::is_lowercase` of the standard library decides Unicode's property
/// `Lowercase`; the tables behind it are not restated here.
pub assume_specification[ char::is_lowercase ](c: char) -> (lower: bool)
    ensures
        lower == unicode_lowercase(c),
;

/// `str::to_lowercase` of the standard library returns the lower-case form
/// of the text, a function of its characters alone.
pub assume_specification[ str::to_lowercase ](s: &str) -> (lowered: String)
    ensures
        lowered@ == unicode_lowercased(s@),
;

/// `String::push` of the standard library appends one character.
pub assume_specification[ String::push ](s: &mut String, c: char)
    ensures
        final(s)@ == old(s)@.push(c),
;

/// Whether the character belongs to the class.
pub open spec fn in_class(c: char, class: CharClass) -> bool {
    match class {
        CharClass::Uppercase => unicode_uppercase(c),
        CharClass::Lowercase => unicode_lowercase(c),
        CharClass::Digit => '0' <= c && c <= '9',
    }
}

/// How many characters of the sequence belong to the class.
pub open spec fn count_class(s: Seq<char>, class: CharClass) -> nat
    decreases s.len(),
{
    if s.len() == 0 {
        0
    } else {
        count_class(s.drop_last(), class) + if in_class(s.last(), class) {
            1nat
        } else {
            0nat
        }
    }
}

/// Whether the character belongs to the class.
pub fn is_in_class(c: char, class: CharClass) -> (member: bool)
    ensures
        member == in_class(c, class),
{
    match class {
        CharClass::Uppercase => c.is_uppercase(),
        CharClass::Lowercase => c.is_lowercase(),
        CharClass::Digit => '0' <= c && c <= '9',
    }
}

/// Counts the characters of the sequence that belong to the class.
pub fn count_in_class(chars: &Vec<char>, class: CharClass) -> (count: usize)
    ensures
        count == count_class(chars@, class),
{
    let mut count: usize = 0;
    let mut i: usize = 0;
    while i < chars.len()
        invariant
            i <= chars.len(),
            count == count_class(chars@.take(i as int), class),
            count <= i,
        decreases chars.len() - i,
    {
        proof {
            assert(chars@.take(i + 1).drop_last() =~= chars@.take(i as int));
        }
        if is_in_class(chars[i], class) {
            count += 1;
        }
        i += 1;
    }
    assert(chars@.take(i as int) =~= chars@);
    count
}

/// The lower-case form of a text, as characters.
pub fn lowercased(s: &str) -> (chars: Vec<char>)
    ensures
        chars@ == unicode_lowercased(s@),
{
    let lowered: String = s.to_lowercase();
    chars_of(lowered.as_str())
}

/// The text made of the given characters.
pub fn text_of(chars: &Vec<char>) -> (text: String)
    ensures
        text@ == chars@,
{
    let mut text: String = String::new();
    let mut i: usize = 0;
    while i < chars.len()
        invariant
            i <= chars.len(),
            text@ == chars@.take(i as int),
        decreases chars.len() - i,
    {
        text.push(chars[i]);
        assert(chars@.take(i + 1) =~= chars@.take(i as int).push(chars@[i as int]));
        i += 1;
    }
    assert(chars@.take(i as int) =~= chars@);
    text
}

} // verus!
