//! What holds of texts that are cut, split, joined and counted.

use vstd::prelude::*;

use crate::text::{
    after_last, bytes_equal, count_matches, is_whitespace, join, joined, normalize_whitespace,
    occurrences, suffix_after, text_equal, trim_end, truncate, truncated, views, whitespace,
    without_trailing, words,
};

verus! {

/// Whether a part is what stands behind the last separator of a text: it ends the text, holds no
/// separator, and is the whole text or has a separator before it.
pub open spec fn stands_behind_last(text: Seq<char>, separator: char, part: Seq<char>) -> bool {
    &&& part.len() <= text.len()
    &&& text.skip(text.len() - part.len()) == part
    &&& !part.contains(separator)
    &&& part.len() == text.len() || text[text.len() - part.len() - 1] == separator
}

/// A truncated text is the start of the text, as long as the limit and the text allow.
pub proof fn law_truncation_keeps_the_start(value: &str, limit: usize, result: String)
    requires
        call_ensures(truncate, (value, limit), result),
    ensures
        result@.is_prefix_of(value@),
        result@.len() <= limit,
        result@.len() == value@.len() || result@.len() == limit,
{
    assert(result@.is_prefix_of(value@));
}

pub proof fn lemma_after_last(text: Seq<char>, separator: char)
    ensures
        stands_behind_last(text, separator, after_last(text, separator)),
    decreases text.len(),
{
    let part = after_last(text, separator);
    if text.len() > 0 && text.last() != separator {
        let shorter = text.drop_last();
        let before = after_last(shorter, separator);
        lemma_after_last(shorter, separator);
        let n = text.len() - part.len();
        assert(text.skip(n) =~= part) by {
            assert forall|i: int| 0 <= i < part.len() implies text.skip(n)[i] == part[i] by {
                if i < before.len() {
                    assert(shorter.skip(n)[i] == before[i]);
                }
            }
        }
        if part.contains(separator) {
            let i = choose|i: int| 0 <= i < part.len() && part[i] == separator;
            assert(before[i] == separator);
        }
    } else {
        assert(text.skip(text.len() as int) =~= part);
    }
}

/// The part behind the last separator holds no separator, ends the text, and is the whole text or
/// has a separator before it; nothing of it is left out.
pub proof fn law_suffix_is_behind_the_last_separator(text: &str, separator: char, suffix: String)
    requires
        call_ensures(suffix_after, (text, separator), suffix),
    ensures
        stands_behind_last(text@, separator, suffix@),
{
    lemma_after_last(text@, separator);
}

pub proof fn lemma_joined_parts(
    left: Seq<Seq<char>>,
    right: Seq<Seq<char>>,
    separator: Seq<char>,
)
    ensures
        joined(Seq::empty(), separator) == Seq::<char>::empty(),
        left.len() == 0 ==> joined(left + right, separator) == joined(right, separator),
        right.len() == 0 ==> joined(left + right, separator) == joined(left, separator),
        left.len() > 0 && right.len() > 0 ==> joined(left + right, separator) == joined(
            left,
            separator,
        ) + separator + joined(right, separator),
    decreases right.len(),
{
    if left.len() == 0 {
        assert(left + right =~= right);
    } else if right.len() == 0 {
        assert(left + right =~= left);
    } else {
        let before = right.drop_last();
        lemma_joined_parts(left, before, separator);
        assert((left + right).drop_last() =~= left + before);
        assert((left + right).last() == right.last());
        if before.len() == 0 {
            assert(right.first() == right.last());
        } else {
            assert(joined(left, separator) + separator + joined(before, separator) + separator
                + right.last() =~= joined(left, separator) + separator + (joined(before, separator)
                + separator + right.last()));
        }
    }
}

/// Joining no text gives none, joining one gives it, and joining two lists behind each other gives
/// what each list gives, with one separator between them.
pub proof fn law_joined_lists_are_joined_texts(
    left: &[String],
    right: &[String],
    both: &[String],
    separator: &str,
    left_text: String,
    right_text: String,
    text: String,
)
    requires
        views(both@) == views(left@) + views(right@),
        call_ensures(join, (left, separator), left_text),
        call_ensures(join, (right, separator), right_text),
        call_ensures(join, (both, separator), text),
    ensures
        left@.len() == 0 ==> left_text@.len() == 0,
        left@.len() == 1 ==> left_text@ == left@[0]@,
        left@.len() == 0 ==> text@ == right_text@,
        right@.len() == 0 ==> text@ == left_text@,
        left@.len() > 0 && right@.len() > 0 ==> text@ == left_text@ + separator@ + right_text@,
{
    lemma_joined_parts(views(left@), views(right@), separator@);
    assert(views(left@).len() == left@.len());
    assert(views(right@).len() == right@.len());
}

pub proof fn lemma_without_trailing(text: Seq<char>, c: char)
    ensures
        ({
            let kept = without_trailing(text, c);
            &&& kept.is_prefix_of(text)
            &&& kept.len() == 0 || kept.last() != c
            &&& forall|i: int| kept.len() <= i < text.len() ==> text[i] == c
        }),
    decreases text.len(),
{
    if text.len() > 0 && text.last() == c {
        let shorter = text.drop_last();
        lemma_without_trailing(shorter, c);
        let kept = without_trailing(text, c);
        assert forall|i: int| kept.len() <= i < text.len() implies text[i] == c by {
            if i < shorter.len() {
                assert(shorter[i] == c);
            }
        }
    }
}

/// Trimming takes away one character from the end of a text, as often as it is there, and nothing
/// else.
pub proof fn law_trimming_removes_the_end_alone(text: &str, c: char, result: String)
    requires
        call_ensures(trim_end, (text, c), result),
    ensures
        result@.is_prefix_of(text@),
        result@.len() == 0 || result@.last() != c,
        forall|i: int| result@.len() <= i < text@.len() ==> text@[i] == c,
{
    lemma_without_trailing(text@, c);
}

proof fn lemma_words_of_parts(left: Seq<char>, c: char, right: Seq<char>)
    requires
        whitespace(c),
    ensures
        words(left.push(c) + right) == words(left) + words(right),
    decreases right.len(),
{
    let text = left.push(c) + right;
    if right.len() == 0 {
        assert(text.drop_last() =~= left);
        assert(words(text) =~= words(left) + words(right));
    } else {
        let shorter = right.drop_last();
        lemma_words_of_parts(left, c, shorter);
        assert(text.drop_last() =~= left.push(c) + shorter);
        assert(text.last() == right.last());
        if !whitespace(right.last()) {
            if right.len() >= 2 {
                assert(text[text.len() - 2] == right[right.len() - 2]);
                if !whitespace(right[right.len() - 2]) {
                    assert(shorter.last() == right[right.len() - 2]);
                    assert(words(shorter).len() > 0);
                    let before = words(left) + words(shorter);
                    assert(before.last() == words(shorter).last());
                    assert(before.drop_last() =~= words(left) + words(shorter).drop_last());
                }
            } else {
                assert(text[text.len() - 2] == c);
            }
            assert(words(text) =~= words(left) + words(right));
        }
    }
}

proof fn lemma_one_word(text: Seq<char>)
    requires
        text.len() > 0,
        forall|i: int| 0 <= i < text.len() ==> !whitespace(#[trigger] text[i]),
    ensures
        words(text) == seq![text],
    decreases text.len(),
{
    let shorter = text.drop_last();
    if shorter.len() > 0 {
        assert forall|i: int| 0 <= i < shorter.len() implies !whitespace(#[trigger] shorter[i]) by {
            assert(!whitespace(text[i]));
        }
        lemma_one_word(shorter);
        assert(!whitespace(text[text.len() - 2]));
        assert(!whitespace(text[text.len() - 1]));
        assert(shorter.push(text.last()) =~= text);
        assert(words(text) =~= seq![text]);
    } else {
        assert(!whitespace(text[0]));
        assert(words(shorter) =~= Seq::<Seq<char>>::empty());
        assert(seq![text.last()] =~= text);
        assert(words(text) =~= seq![text]);
    }
}

proof fn lemma_line_is_empty_without_words(text: Seq<char>)
    ensures
        forall|i: int| 0 <= i < words(text).len() ==> (#[trigger] words(text)[i]).len() > 0,
        joined(words(text), seq![' ']).len() == 0 <==> words(text).len() == 0,
    decreases text.len(),
{
    if text.len() > 0 {
        lemma_line_is_empty_without_words(text.drop_last());
        if !whitespace(text.last()) && text.len() >= 2 && !whitespace(text[text.len() - 2]) {
            assert(text.drop_last().last() == text[text.len() - 2]);
            assert(words(text.drop_last()).len() > 0);
        }
    }
    let all = words(text);
    if all.len() > 0 {
        assert(all[all.len() - 1].len() > 0);
        assert(all[0].len() > 0);
    }
}

/// Whether a text holds no white space.
pub open spec fn is_unbroken(text: Seq<char>) -> bool {
    forall|i: int| 0 <= i < text.len() ==> !whitespace(#[trigger] text[i])
}

/// Putting a text into one line can be done on both sides of any white space: the lines of the
/// sides are joined by one space, where both have one. A text without white space is its own line.
pub proof fn law_white_space_only_separates(
    left: &str,
    c: char,
    right: &str,
    text: &str,
    left_line: String,
    right_line: String,
    line: String,
)
    requires
        call_ensures(is_whitespace, (c,), true),
        text@ == left@.push(c) + right@,
        call_ensures(normalize_whitespace, (left,), left_line),
        call_ensures(normalize_whitespace, (right,), right_line),
        call_ensures(normalize_whitespace, (text,), line),
    ensures
        left_line@.len() == 0 ==> line@ == right_line@,
        right_line@.len() == 0 ==> line@ == left_line@,
        left_line@.len() > 0 && right_line@.len() > 0 ==> line@ == left_line@.push(' ')
            + right_line@,
        is_unbroken(left@) ==> left_line@ == left@,
{
    lemma_words_of_parts(left@, c, right@);
    lemma_joined_parts(words(left@), words(right@), seq![' ']);
    lemma_line_is_empty_without_words(left@);
    lemma_line_is_empty_without_words(right@);
    if left_line@.len() > 0 && right_line@.len() > 0 {
        assert(left_line@ + seq![' '] + right_line@ =~= left_line@.push(' ') + right_line@);
    }
    if is_unbroken(left@) {
        if left@.len() > 0 {
            lemma_one_word(left@);
        } else {
            assert(left_line@ =~= left@);
        }
    }
}

/// White space is what Unicode says it is.
pub proof fn law_white_space_is_that_of_unicode(c: char, result: bool)
    requires
        call_ensures(is_whitespace, (c,), result),
    ensures
        result == whitespace(c),
        result <==> {
            let code = c as int;
            ||| 9 <= code <= 13
            ||| code == 32
            ||| code == 133
            ||| code == 160
            ||| code == 5760
            ||| 8192 <= code <= 8202
            ||| code == 8232
            ||| code == 8233
            ||| code == 8239
            ||| code == 8287
            ||| code == 12288
        },
{
}

/// Whether a pattern occurs in a text at a position.
pub open spec fn occurs_at(text: Seq<char>, pattern: Seq<char>, position: int) -> bool {
    0 <= position <= text.len() - pattern.len() && text.subrange(
        position,
        position + pattern.len(),
    ) == pattern
}

proof fn lemma_no_occurrence(text: Seq<char>, pattern: Seq<char>, from: int, end: int)
    requires
        pattern.len() > 0,
        0 <= from <= end <= text.len(),
        forall|i: int| from <= i < end ==> !#[trigger] occurs_at(text, pattern, i),
    ensures
        occurrences(text, pattern, from) == occurrences(text, pattern, end),
    decreases end - from,
{
    if from < end {
        assert(!occurs_at(text, pattern, from));
        if from + pattern.len() <= text.len() {
            lemma_no_occurrence(text, pattern, from + 1, end);
        }
    }
}

proof fn lemma_occurrences_in_tail(
    head: Seq<char>,
    tail: Seq<char>,
    pattern: Seq<char>,
    from: int,
)
    requires
        pattern.len() > 0,
        0 <= from,
    ensures
        occurrences(head + tail, pattern, head.len() + from) == occurrences(tail, pattern, from),
    decreases tail.len() - from,
{
    if from + pattern.len() <= tail.len() {
        assert((head + tail).subrange(head.len() + from, head.len() + from + pattern.len())
            =~= tail.subrange(from, from + pattern.len()));
        if tail.subrange(from, from + pattern.len()) == pattern {
            lemma_occurrences_in_tail(head, tail, pattern, from + pattern.len());
        } else {
            lemma_occurrences_in_tail(head, tail, pattern, from + 1);
        }
    }
}

/// Whether a pattern occurs in a text at a position, and nowhere before it.
pub open spec fn occurs_first_at(text: Seq<char>, pattern: Seq<char>, position: int) -> bool {
    &&& occurs_at(text, pattern, position)
    &&& forall|i: int| 0 <= i < position ==> !#[trigger] occurs_at(text, pattern, i)
}

/// Whether a pattern occurs nowhere in a text.
pub open spec fn occurs_nowhere(text: Seq<char>, pattern: Seq<char>) -> bool {
    forall|i: int| !#[trigger] occurs_at(text, pattern, i)
}

/// Occurrences are counted from the left: there are none where the pattern occurs nowhere, and
/// behind the first one the rest of the text is counted as a text of its own.
pub proof fn law_occurrences_are_counted_from_the_left(
    text: &[char],
    pattern: &str,
    count: usize,
    first: int,
    rest: &[char],
    rest_count: usize,
)
    requires
        pattern@.len() > 0,
        call_ensures(count_matches, (text, pattern), count),
        call_ensures(count_matches, (rest, pattern), rest_count),
    ensures
        occurs_nowhere(text@, pattern@) ==> count == 0,
        occurs_first_at(text@, pattern@, first) && rest@ == text@.skip(first + pattern@.len())
            ==> count == 1 + rest_count,
{
    if occurs_nowhere(text@, pattern@) {
        lemma_no_occurrence(text@, pattern@, 0, text@.len() as int);
    }
    if occurs_first_at(text@, pattern@, first) && rest@ == text@.skip(first + pattern@.len()) {
        lemma_no_occurrence(text@, pattern@, 0, first);
        let head = text@.take(first + pattern@.len());
        assert(head + rest@ =~= text@);
        lemma_occurrences_in_tail(head, rest@, pattern@, 0);
    }
}

/// Texts are equal where all their characters are, and bytes where all bytes are.
pub proof fn law_equality_is_that_of_all_items(
    left: &str,
    right: &str,
    equal: bool,
    left_bytes: &[u8],
    right_bytes: &[u8],
    equal_bytes: bool,
)
    requires
        call_ensures(text_equal, (left, right), equal),
        call_ensures(bytes_equal, (left_bytes, right_bytes), equal_bytes),
    ensures
        equal <==> left@.len() == right@.len() && forall|i: int|
            0 <= i < left@.len() ==> #[trigger] left@[i] == right@[i],
        equal_bytes <==> left_bytes@.len() == right_bytes@.len() && forall|i: int|
            0 <= i < left_bytes@.len() ==> #[trigger] left_bytes@[i] == right_bytes@[i],
{
    if !equal && left@.len() == right@.len() {
        assert(!(left@ =~= right@));
    }
    if !equal_bytes && left_bytes@.len() == right_bytes@.len() {
        assert(!(left_bytes@ =~= right_bytes@));
    }
}

} // verus!
