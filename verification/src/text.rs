//! Text: truncation, splitting, joining and counting over characters.

use vstd::prelude::*;
use vstd::utf8::*;

verus! {

/// `String::push` appends one character.
pub assume_specification[ String::push ](text: &mut String, c: char)
    ensures
        final(text)@ == old(text)@.push(c),
;

/// What the standard library reports of bytes that are not UTF-8.
pub uninterp spec fn utf8_fault(bytes: Seq<u8>) -> Seq<char>;

/// `String::from_utf8` gives the text that the bytes encode, where they are UTF-8, and fails
/// where they are not; the failure is taken as the text that it displays, which is a function of
/// the bytes.
#[verifier::external_body]
pub(crate) fn utf8_text(bytes: Vec<u8>) -> (result: Result<String, String>)
    ensures
        match result {
            Ok(text) => valid_utf8(bytes@) && text@ == decode_utf8(bytes@),
            Err(fault) => !valid_utf8(bytes@) && fault@ == utf8_fault(bytes@),
        },
{
    String::from_utf8(bytes).map_err(|error| error.to_string())
}

/// The characters of a text.
pub fn chars_of(text: &str) -> (chars: Vec<char>)
    ensures
        chars@ == text@,
{
    let mut chars: Vec<char> = Vec::new();
    for c in it: text.chars()
        invariant
            it.seq() == text@,
            chars@ == it.seq().take(it.index() as int),
    {
        chars.push(c);
    }
    chars
}

/// The text made of the given characters.
pub fn text_of(chars: &[char]) -> (text: String)
    ensures
        text@ == chars@,
{
    let mut text = String::new();
    let mut i: usize = 0;
    while i < chars.len()
        invariant
            i <= chars@.len(),
            text@ == chars@.take(i as int),
        decreases chars@.len() - i,
    {
        text.push(chars[i]);
        i += 1;
    }
    text
}

/// The first `limit` characters of a text, or all of it where it has no more.
pub open spec fn truncated(text: Seq<char>, limit: nat) -> Seq<char> {
    if text.len() <= limit {
        text
    } else {
        text.take(limit as int)
    }
}

/// Keeps the first `limit` characters.
pub fn truncate(value: &str, limit: usize) -> (result: String)
    ensures
        result@ == truncated(value@, limit as nat),
{
    let mut result = String::new();
    let mut kept: usize = 0;
    for c in it: value.chars()
        invariant
            it.seq() == value@,
            kept == result@.len(),
            kept <= limit,
            result@ == truncated(value@.take(it.index() as int), limit as nat),
    {
        if kept < limit {
            result.push(c);
            kept += 1;
        }
    }
    assert(value@.take(value@.len() as int) == value@);
    result
}

/// The longest suffix of a text that does not hold `separator`.
pub open spec fn after_last(text: Seq<char>, separator: char) -> Seq<char>
    decreases text.len(),
{
    if text.len() == 0 || text.last() == separator {
        Seq::empty()
    } else {
        after_last(text.drop_last(), separator).push(text.last())
    }
}

/// What follows the last `separator`, or the whole text where there is none.
pub fn suffix_after(text: &str, separator: char) -> (suffix: String)
    ensures
        suffix@ == after_last(text@, separator),
{
    let mut suffix = String::new();
    for c in it: text.chars()
        invariant
            it.seq() == text@,
            suffix@ == after_last(text@.take(it.index() as int), separator),
    {
        assert(text@.take(it.index() + 1).drop_last() == text@.take(it.index() as int));
        if c == separator {
            suffix = String::new();
        } else {
            suffix.push(c);
        }
    }
    assert(text@.take(text@.len() as int) == text@);
    suffix
}

/// The parts in order, with `separator` between any two neighbours.
pub open spec fn joined(parts: Seq<Seq<char>>, separator: Seq<char>) -> Seq<char>
    decreases parts.len(),
{
    if parts.len() == 0 {
        Seq::empty()
    } else if parts.len() == 1 {
        parts.first()
    } else {
        joined(parts.drop_last(), separator) + separator + parts.last()
    }
}

/// The views of a sequence of values.
pub open spec fn views<T: View>(values: Seq<T>) -> Seq<T::V> {
    Seq::new(values.len(), |i: int| values[i]@)
}

/// The views of two lists behind each other.
pub proof fn lemma_views_add<T: View>(left: Seq<T>, right: Seq<T>)
    ensures
        views(left + right) == views(left) + views(right),
{
    assert(views(left + right) =~= views(left) + views(right));
}

/// Joins texts with a separator.
pub fn join(parts: &[String], separator: &str) -> (result: String)
    ensures
        result@ == joined(views(parts@), separator@),
{
    let mut result = String::new();
    let mut i: usize = 0;
    while i < parts.len()
        invariant
            i <= parts@.len(),
            result@ == joined(views(parts@.take(i as int)), separator@),
        decreases parts@.len() - i,
    {
        assert(views(parts@.take(i + 1)).drop_last() == views(parts@.take(i as int)));
        if i > 0 {
            result.append(separator);
        }
        result.append(parts[i].as_str());
        i += 1;
    }
    assert(parts@.take(parts@.len() as int) == parts@);
    result
}

/// Whether two byte strings are equal.
pub fn bytes_equal(left: &[u8], right: &[u8]) -> (equal: bool)
    ensures
        equal == (left@ == right@),
{
    if left.len() != right.len() {
        return false;
    }
    let mut i: usize = 0;
    while i < left.len()
        invariant
            i <= left@.len(),
            left@.len() == right@.len(),
            forall|j: int| 0 <= j < i ==> left@[j] == right@[j],
        decreases left@.len() - i,
    {
        if left[i] != right[i] {
            assert(left@ != right@);
            return false;
        }
        i += 1;
    }
    assert(left@ =~= right@);
    true
}

/// Whether two texts are equal.
pub fn text_equal(left: &str, right: &str) -> (equal: bool)
    ensures
        equal == (left@ == right@),
{
    proof {
        encode_utf8_decode_utf8(left@);
        encode_utf8_decode_utf8(right@);
    }
    bytes_equal(left.as_bytes(), right.as_bytes())
}

/// The text with every trailing `c` removed.
pub open spec fn without_trailing(text: Seq<char>, c: char) -> Seq<char>
    decreases text.len(),
{
    if text.len() > 0 && text.last() == c {
        without_trailing(text.drop_last(), c)
    } else {
        text
    }
}

/// Removes every trailing `c`.
pub fn trim_end(text: &str, c: char) -> (result: String)
    ensures
        result@ == without_trailing(text@, c),
{
    let chars = chars_of(text);
    let mut end: usize = chars.len();
    assert(chars@.take(end as int) == text@);
    while end > 0 && chars[end - 1] == c
        invariant
            end <= chars@.len(),
            without_trailing(chars@.take(end as int), c) == without_trailing(text@, c),
        decreases end,
    {
        assert(chars@.take(end as int).drop_last() == chars@.take(end - 1));
        end -= 1;
    }
    text_of(vstd::slice::slice_subrange(chars.as_slice(), 0, end))
}

/// The Unicode `White_Space` characters.
pub open spec fn whitespace(c: char) -> bool {
    ||| '\u{9}' <= c <= '\u{d}'
    ||| c == ' '
    ||| c == '\u{85}'
    ||| c == '\u{a0}'
    ||| c == '\u{1680}'
    ||| '\u{2000}' <= c <= '\u{200a}'
    ||| c == '\u{2028}'
    ||| c == '\u{2029}'
    ||| c == '\u{202f}'
    ||| c == '\u{205f}'
    ||| c == '\u{3000}'
}

/// Whether a character is white space.
pub fn is_whitespace(c: char) -> (result: bool)
    ensures
        result == whitespace(c),
{
    (c >= '\u{9}' && c <= '\u{d}') || c == ' ' || c == '\u{85}' || c == '\u{a0}' || c == '\u{1680}' || (
    c >= '\u{2000}' && c <= '\u{200a}') || c == '\u{2028}' || c == '\u{2029}' || c == '\u{202f}' || c
        == '\u{205f}' || c == '\u{3000}'
}

/// The words of a text: its maximal runs of characters that are not white space.
pub open spec fn words(text: Seq<char>) -> Seq<Seq<char>>
    decreases text.len(),
{
    if text.len() == 0 {
        Seq::empty()
    } else {
        let before = words(text.drop_last());
        if whitespace(text.last()) {
            before
        } else if text.len() >= 2 && !whitespace(text[text.len() - 2]) {
            before.drop_last().push(before.last().push(text.last()))
        } else {
            before.push(seq![text.last()])
        }
    }
}

proof fn lemma_words_open(text: Seq<char>)
    requires
        text.len() > 0,
        !whitespace(text.last()),
    ensures
        words(text).len() > 0,
{
}

proof fn lemma_joined_extend(parts: Seq<Seq<char>>, separator: Seq<char>, c: char)
    requires
        parts.len() > 0,
    ensures
        joined(parts.drop_last().push(parts.last().push(c)), separator) == joined(
            parts,
            separator,
        ).push(c),
{
    let extended = parts.drop_last().push(parts.last().push(c));
    assert(extended.drop_last() == parts.drop_last());
    assert(extended.last() == parts.last().push(c));
    if parts.len() == 1 {
        assert(extended.first() == parts.first().push(c));
    }
}

/// Puts the words of a text into one line, one space between any two.
pub fn normalize_whitespace(text: &str) -> (result: String)
    ensures
        result@ == joined(words(text@), seq![' ']),
{
    let mut result = String::new();
    let mut in_word = false;
    for c in it: text.chars()
        invariant
            it.seq() == text@,
            in_word == (it.index() > 0 && !whitespace(text@[it.index() - 1])),
            result@ == joined(words(text@.take(it.index() as int)), seq![' ']),
            (result@.len() == 0) == (words(text@.take(it.index() as int)).len() == 0),
    {
        let ghost before = text@.take(it.index() as int);
        let ghost now = text@.take(it.index() + 1);
        assert(now.drop_last() == before);
        if is_whitespace(c) {
            in_word = false;
        } else {
            if in_word {
                proof {
                    lemma_words_open(before);
                    lemma_joined_extend(words(before), seq![' '], c);
                }
            } else {
                if !result.as_str().is_empty() {
                    result.push(' ');
                }
                assert(words(now).drop_last() == words(before));
            }
            result.push(c);
            in_word = true;
        }
    }
    assert(text@.take(text@.len() as int) == text@);
    result
}

/// The number of occurrences of `pattern` in `text` at or after `from`, found from left to
/// right, none overlapping another.
pub open spec fn occurrences(text: Seq<char>, pattern: Seq<char>, from: int) -> nat
    decreases text.len() - from,
{
    if pattern.len() == 0 || from < 0 || from + pattern.len() > text.len() {
        0
    } else if text.subrange(from, from + pattern.len()) == pattern {
        1 + occurrences(text, pattern, from + pattern.len())
    } else {
        occurrences(text, pattern, from + 1)
    }
}

/// Counts the occurrences of a pattern that is not empty.
pub fn count_matches(text: &[char], pattern: &str) -> (count: usize)
    requires
        pattern@.len() > 0,
    ensures
        count == occurrences(text@, pattern@, 0),
        count <= text@.len(),
{
    let wanted = chars_of(pattern);
    let width: usize = wanted.len();
    let total: usize = text.len();
    let mut count: usize = 0;
    let mut from: usize = 0;
    while width <= total - from
        invariant
            wanted@ == pattern@,
            width == wanted@.len(),
            width > 0,
            total == text@.len(),
            from <= total,
            count <= from,
            count + occurrences(text@, pattern@, from as int) == occurrences(text@, pattern@, 0),
        decreases text@.len() - from,
    {
        let mut matched: usize = 0;
        while matched < width && text[from + matched] == wanted[matched]
            invariant
                wanted@ == pattern@,
                width == wanted@.len(),
                total == text@.len(),
                from + width <= total,
                matched <= width,
                forall|j: int| 0 <= j < matched ==> text@[from + j] == wanted@[j],
            decreases width - matched,
        {
            matched += 1;
        }
        if matched == width {
            assert(text@.subrange(from as int, from + width) =~= pattern@);
            count += 1;
            from += width;
        } else {
            assert(text@.subrange(from as int, from + width)[matched as int] != pattern@[matched as int]);
            from += 1;
        }
    }
    count
}

} // verus!
