//! Text as sequences of characters: decimal numerals and substring search.

use vstd::prelude::*;

verus! {

/// `String::push` appends one character to the end of the string.
pub assume_specification[ String::push ](text: &mut String, c: char)
    ensures
        final(text)@ == old(text)@.push(c),
;

/// `==` on string slices holds exactly when they have the same characters.
pub assume_specification[ <str as PartialEq>::eq ](a: &str, b: &str) -> (same: bool)
    ensures
        same == (a@ == b@),
;

/// The character that stands for the digit `d`.
pub open spec fn digit(d: nat) -> char {
    if d == 0 {
        '0'
    } else if d == 1 {
        '1'
    } else if d == 2 {
        '2'
    } else if d == 3 {
        '3'
    } else if d == 4 {
        '4'
    } else if d == 5 {
        '5'
    } else if d == 6 {
        '6'
    } else if d == 7 {
        '7'
    } else if d == 8 {
        '8'
    } else {
        '9'
    }
}

/// The decimal numeral of `n`, without leading zeros.
pub open spec fn decimal(n: nat) -> Seq<char>
    decreases n,
{
    if n < 10 {
        seq![digit(n)]
    } else {
        decimal(n / 10).push(digit(n % 10))
    }
}

/// Different numbers have different numerals.
pub proof fn lemma_decimal_injective(a: nat, b: nat)
    requires
        decimal(a) == decimal(b),
    ensures
        a == b,
    decreases a,
{
    let da = decimal(a);
    let db = decimal(b);
    lemma_decimal_nonempty(a / 10);
    lemma_decimal_nonempty(b / 10);
    if a < 10 && b < 10 {
        assert(da[0] == digit(a) && db[0] == digit(b));
    } else if a < 10 || b < 10 {
        assert(da.len() != db.len());
    } else {
        assert(da.drop_last() =~= decimal(a / 10) && da.last() == digit(a % 10));
        assert(db.drop_last() =~= decimal(b / 10) && db.last() == digit(b % 10));
        lemma_decimal_injective(a / 10, b / 10);
    }
}

/// A numeral has at least one digit.
pub proof fn lemma_decimal_nonempty(n: nat)
    ensures
        decimal(n).len() >= 1,
    decreases n,
{
    if n >= 10 {
        lemma_decimal_nonempty(n / 10);
    }
}

fn digit_char(d: usize) -> (c: char)
    requires
        d < 10,
    ensures
        c == digit(d as nat),
{
    if d == 0 {
        '0'
    } else if d == 1 {
        '1'
    } else if d == 2 {
        '2'
    } else if d == 3 {
        '3'
    } else if d == 4 {
        '4'
    } else if d == 5 {
        '5'
    } else if d == 6 {
        '6'
    } else if d == 7 {
        '7'
    } else if d == 8 {
        '8'
    } else {
        '9'
    }
}

/// Writes `n` as a decimal numeral.
pub fn decimal_string(n: usize) -> (text: String)
    ensures
        text@ == decimal(n as nat),
    decreases n,
{
    if n < 10 {
        let mut text = String::new();
        text.push(digit_char(n));
        text
    } else {
        let mut text = decimal_string(n / 10);
        text.push(digit_char(n % 10));
        text
    }
}

/// The characters of `text`, one by one.
pub fn chars_of(text: &str) -> (chars: Vec<char>)
    ensures
        chars@ == text@,
{
    let mut chars: Vec<char> = Vec::new();
    for c in it: text.chars()
        invariant
            chars@ == text@.take(it.index() as int),
            it.seq() == text@,
    {
        chars.push(c);
    }
    chars
}

/// The string made of `chars[from..to]`.
pub fn string_of(chars: &Vec<char>, from: usize, to: usize) -> (text: String)
    requires
        from <= to <= chars.len(),
    ensures
        text@ == chars@.subrange(from as int, to as int),
{
    let mut text = String::new();
    let mut i: usize = from;
    while i < to
        invariant
            from <= i <= to <= chars.len(),
            text@ == chars@.subrange(from as int, i as int),
        decreases to - i,
    {
        text.push(chars[i]);
        i = i + 1;
    }
    text
}

/// `pattern` stands in `text` at position `at`.
pub open spec fn occurs_at(text: Seq<char>, pattern: Seq<char>, at: int) -> bool {
    0 <= at && at + pattern.len() <= text.len() && text.subrange(at, at + pattern.len())
        == pattern
}

/// The first position at or after `from` at which `pattern` stands in
/// `text`, or `-1` where there is none.
pub open spec fn first_occurrence(text: Seq<char>, pattern: Seq<char>, from: int) -> int
    decreases text.len() + 1 - from,
{
    if from < 0 || from + pattern.len() > text.len() {
        -1
    } else if occurs_at(text, pattern, from) {
        from
    } else {
        first_occurrence(text, pattern, from + 1)
    }
}

/// `pattern` stands somewhere in `text`.
pub open spec fn contains(text: Seq<char>, pattern: Seq<char>) -> bool {
    exists|at: int| occurs_at(text, pattern, at)
}

/// `first_occurrence` finds the least position, and finds one wherever there
/// is one.
pub proof fn lemma_first_occurrence(text: Seq<char>, pattern: Seq<char>, from: int)
    requires
        0 <= from,
    ensures
        ({
            let at = first_occurrence(text, pattern, from);
            &&& at == -1 || (from <= at && occurs_at(text, pattern, at))
            &&& forall|i: int| from <= i && (at == -1 || i < at) ==> !occurs_at(text, pattern, i)
        }),
    decreases text.len() + 1 - from,
{
    if from + pattern.len() > text.len() {
    } else if occurs_at(text, pattern, from) {
    } else {
        lemma_first_occurrence(text, pattern, from + 1);
    }
}

/// Tells whether `pattern` stands in `text` at position `at`.
fn matches_at(text: &Vec<char>, pattern: &Vec<char>, at: usize) -> (yes: bool)
    ensures
        yes == occurs_at(text@, pattern@, at as int),
{
    if pattern.len() > text.len() || at > text.len() - pattern.len() {
        return false;
    }
    let mut k: usize = 0;
    while k < pattern.len()
        invariant
            k <= pattern.len(),
            at + pattern.len() <= text.len(),
            forall|j: int| 0 <= j < k ==> text@[at + j] == pattern@[j],
        decreases pattern.len() - k,
    {
        if text[at + k] != pattern[k] {
            return false;
        }
        k = k + 1;
    }
    assert(text@.subrange(at as int, at + pattern.len()) =~= pattern@);
    true
}

/// Finds the first position at or after `from` at which `pattern` stands in
/// `text`.
pub fn find(text: &Vec<char>, pattern: &Vec<char>, from: usize) -> (found: Option<usize>)
    ensures
        match found {
            Some(at) => at == first_occurrence(text@, pattern@, from as int),
            None => first_occurrence(text@, pattern@, from as int) == -1,
        },
{
    let mut at: usize = from;
    while at <= text.len() && pattern.len() <= text.len() - at
        invariant
            from <= at,
            first_occurrence(text@, pattern@, at as int) == first_occurrence(
                text@,
                pattern@,
                from as int,
            ),
        decreases text.len() - at,
    {
        if matches_at(text, pattern, at) {
            return Some(at);
        }
        assert(at < text.len()) by {
            if pattern.len() == 0 {
                assert(text@.subrange(at as int, at as int) =~= pattern@);
            }
        }
        at = at + 1;
    }
    None
}

/// Tells whether `pattern` stands somewhere in `text`.
pub fn has_substring(text: &str, pattern: &str) -> (yes: bool)
    ensures
        yes == contains(text@, pattern@),
{
    let text_chars = chars_of(text);
    let pattern_chars = chars_of(pattern);
    proof {
        lemma_first_occurrence(text@, pattern@, 0);
    }
    find(&text_chars, &pattern_chars, 0).is_some()
}

} // verus!
