//! Unix paths as byte strings: which of them stay below a directory, what one is relative to
//! another, and the names of canonical scan targets.

use vstd::prelude::*;
use vstd::utf8::*;

use crate::error::ScanError;
use crate::numbers::{
    format_hex, hex_digits, hex_number, lemma_hex_digits_shape, lemma_hex_round_trip, parse_hex,
    power_of_16,
};
use crate::text::{bytes_equal, utf8_text};

verus! {

/// The byte `/`.
pub const SLASH: u8 = 47;

/// The byte `.`.
pub const DOT: u8 = 46;

/// The most bytes of a path that is reported.
pub const MAX_PATH_BYTES: usize = 1024;

/// Where the segment that `from` lies in ends: at the next slash, or with the path.
pub open spec fn segment_end(path: Seq<u8>, from: int) -> int
    decreases path.len() - from,
{
    if from < 0 || from >= path.len() || path[from] == SLASH {
        from
    } else {
        segment_end(path, from + 1)
    }
}

/// A segment ends in the path, and holds no slash.
pub proof fn lemma_segment_end(path: Seq<u8>, from: int)
    requires
        0 <= from <= path.len(),
    ensures
        from <= segment_end(path, from) <= path.len(),
        forall|i: int| from <= i < segment_end(path, from) ==> path[i] != SLASH,
        segment_end(path, from) < path.len() ==> path[segment_end(path, from)] == SLASH,
    decreases path.len() - from,
{
    if from < path.len() && path[from] != SLASH {
        lemma_segment_end(path, from + 1);
    }
}

/// Whether a segment is the name of an entry: empty segments and `.` name nothing.
pub open spec fn is_name(segment: Seq<u8>) -> bool {
    segment.len() > 0 && segment != seq![DOT]
}

/// The first and the end index of every name in a path, from an index on.
pub open spec fn names(path: Seq<u8>, from: int) -> Seq<(int, int)>
    decreases path.len() + 1 - from,
{
    if from < 0 || from >= path.len() {
        Seq::empty()
    } else {
        proof {
            lemma_segment_end(path, from);
        }
        let end = segment_end(path, from);
        let rest = names(path, end + 1);
        if is_name(path.subrange(from, end)) {
            seq![(from, end)] + rest
        } else {
            rest
        }
    }
}

/// The text of the name at a span.
pub open spec fn name_at(path: Seq<u8>, span: (int, int)) -> Seq<u8> {
    path.subrange(span.0, span.1)
}

/// Spans as mathematical integers.
pub open spec fn spans_of(spans: Seq<(usize, usize)>) -> Seq<(int, int)> {
    Seq::new(spans.len(), |i: int| (spans[i].0 as int, spans[i].1 as int))
}

/// Whether a path starts at the root.
pub open spec fn has_root(path: Seq<u8>) -> bool {
    path.len() > 0 && path[0] == SLASH
}

/// Whether the first segment of a path is `.`.
pub open spec fn starts_here(path: Seq<u8>) -> bool {
    path.len() > 0 && path[0] == DOT && (path.len() == 1 || path[1] == SLASH)
}

/// Whether a path is relative and made of names only: it is not empty, has no root, does not start
/// with `.` and does not hold `..`.
pub open spec fn plain_relative(path: Seq<u8>) -> bool {
    &&& path.len() > 0
    &&& !has_root(path)
    &&& !starts_here(path)
    &&& forall|i: int|
        0 <= i < names(path, 0).len() ==> name_at(path, #[trigger] names(path, 0)[i]) != seq![
            DOT,
            DOT,
        ]
}

/// Every span of a path lies in it, and holds a name without a slash.
pub proof fn lemma_names_are_names(path: Seq<u8>, from: int)
    requires
        0 <= from,
    ensures
        forall|i: int|
            0 <= i < names(path, from).len() ==> {
                let span = #[trigger] names(path, from)[i];
                &&& from <= span.0 < span.1 <= path.len()
                &&& is_name(name_at(path, span))
                &&& forall|j: int| span.0 <= j < span.1 ==> path[j] != SLASH
            },
        forall|i: int, k: int|
            0 <= i < k < names(path, from).len() ==> (#[trigger] names(path, from)[i]).1 < (
            #[trigger] names(path, from)[k]).0,
    decreases path.len() + 1 - from,
{
    if from < path.len() {
        lemma_segment_end(path, from);
        let end = segment_end(path, from);
        lemma_names_are_names(path, end + 1);
        let rest = names(path, end + 1);
        if is_name(path.subrange(from, end)) {
            let all = names(path, from);
            assert(forall|i: int| 1 <= i < all.len() ==> all[i] == rest[i - 1]);
        }
    }
}

/// Finds every name in a path.
pub fn find_names(path: &[u8]) -> (spans: Vec<(usize, usize)>)
    ensures
        spans_of(spans@) == names(path@, 0),
{
    let mut spans: Vec<(usize, usize)> = Vec::new();
    let mut from: usize = 0;
    let total: usize = path.len();
    while from < total
        invariant
            total == path@.len(),
            from <= total,
            spans_of(spans@) + names(path@, from as int) == names(path@, 0),
        decreases total - from,
    {
        let mut end: usize = from;
        proof {
            lemma_segment_end(path@, from as int);
        }
        while end < total && path[end] != SLASH
            invariant
                total == path@.len(),
                from <= end <= total,
                segment_end(path@, end as int) == segment_end(path@, from as int),
            decreases total - end,
        {
            end += 1;
        }
        let ghost before = spans_of(spans@);
        let ghost rest = names(path@, end + 1);
        let segment = vstd::slice::slice_subrange(path, from, end);
        if end > from && !(end - from == 1 && path[from] == DOT) {
            assert(is_name(segment@)) by {
                if segment@ == seq![DOT] {
                    assert(segment@.len() == 1 && segment@[0] == DOT);
                    assert(segment@[0] == path@[from as int]);
                }
            }
            spans.push((from, end));
            assert(spans_of(spans@) == before.push((from as int, end as int)));
            assert(before.push((from as int, end as int)) + rest == before + (seq![
                (from as int, end as int),
            ] + rest));
        } else {
            assert(!is_name(segment@)) by {
                if end > from {
                    assert(segment@ == seq![DOT]);
                }
            }
        }
        if end == total {
            assert(rest == Seq::<(int, int)>::empty());
            from = end;
        } else {
            from = end + 1;
        }
    }
    spans
}

/// The path itself, where it is relative and made of names only.
pub fn safe_relative_path(value: &str) -> (result: Result<String, ScanError>)
    ensures
        match result {
            Ok(path) => path@ == value@ && plain_relative(encode_utf8(value@)),
            Err(error) => if encode_utf8(value@).len() == 0 {
                error == ScanError::EmptyPath
            } else {
                error == ScanError::UnsafePath && !plain_relative(encode_utf8(value@))
            },
        },
{
    let path: &[u8] = value.as_bytes();
    if path.len() == 0 {
        return Err(ScanError::EmptyPath);
    }
    if path[0] == SLASH || (path[0] == DOT && (path.len() == 1 || path[1] == SLASH)) {
        return Err(ScanError::UnsafePath);
    }
    let spans = find_names(path);
    let mut i: usize = 0;
    while i < spans.len()
        invariant
            i <= spans@.len(),
            path@ == encode_utf8(value@),
            path@.len() > 0,
            spans_of(spans@) == names(path@, 0),
            forall|j: int|
                0 <= j < i ==> name_at(path@, #[trigger] names(path@, 0)[j]) != seq![DOT, DOT],
        decreases spans@.len() - i,
    {
        let (start, end) = spans[i];
        proof {
            lemma_names_are_names(path@, 0);
            assert(names(path@, 0)[i as int] == (start as int, end as int));
        }
        if end - start == 2 && path[start] == DOT && path[start + 1] == DOT {
            assert(name_at(path@, names(path@, 0)[i as int]) == seq![DOT, DOT]);
            return Err(ScanError::UnsafePath);
        }
        assert(name_at(path@, names(path@, 0)[i as int]) != seq![DOT, DOT]) by {
            let name = name_at(path@, names(path@, 0)[i as int]);
            if name == seq![DOT, DOT] {
                assert(name[0] == DOT && name[1] == DOT);
            }
        }
        i += 1;
    }
    Ok(value.to_owned())
}

/// Whether the first names of a path are all the names of a directory, in order.
pub open spec fn names_below(path: Seq<u8>, directory: Seq<u8>) -> bool {
    let inner = names(path, 0);
    let outer = names(directory, 0);
    &&& outer.len() <= inner.len()
    &&& forall|i: int|
        0 <= i < outer.len() ==> name_at(path, #[trigger] inner[i]) == name_at(directory, outer[i])
}

/// What an absolute path is below a directory: from the first name that the directory does not
/// share to the last one. `None` where the path is not below the directory. Below the empty
/// directory it is still absolute.
pub open spec fn stripped(path: Seq<u8>, directory: Seq<u8>) -> Option<Seq<u8>> {
    let inner = names(path, 0);
    let outer = names(directory, 0);
    if directory.len() == 0 {
        Some(
            if inner.len() == 0 {
                path.take(1)
            } else {
                path.take(inner.last().1)
            },
        )
    } else if !has_root(directory) || !names_below(path, directory) {
        None
    } else if outer.len() == inner.len() {
        Some(Seq::empty())
    } else {
        Some(path.subrange(inner[outer.len() as int].0, inner.last().1))
    }
}

/// A copy of some bytes.
pub fn copy_bytes(bytes: &[u8]) -> (copy: Vec<u8>)
    ensures
        copy@ == bytes@,
{
    let mut copy: Vec<u8> = Vec::new();
    let mut i: usize = 0;
    while i < bytes.len()
        invariant
            i <= bytes@.len(),
            copy@ == bytes@.take(i as int),
        decreases bytes@.len() - i,
    {
        copy.push(bytes[i]);
        i += 1;
    }
    assert(bytes@.take(bytes@.len() as int) == bytes@);
    copy
}

/// Strips a directory from an absolute path.
pub fn strip_directory(path: &[u8], directory: &[u8]) -> (result: Option<Vec<u8>>)
    requires
        has_root(path@),
    ensures
        match result {
            Some(rest) => stripped(path@, directory@) == Some(rest@),
            None => stripped(path@, directory@) is None,
        },
{
    let inner = find_names(path);
    let outer = find_names(directory);
    proof {
        lemma_names_are_names(path@, 0);
        lemma_names_are_names(directory@, 0);
    }
    if directory.len() == 0 {
        let end: usize = if inner.len() == 0 {
            1
        } else {
            let last: usize = inner.len() - 1;
            assert(names(path@, 0)[last as int] == (
                inner@[last as int].0 as int,
                inner@[last as int].1 as int,
            ));
            inner[last].1
        };
        return Some(copy_bytes(vstd::slice::slice_subrange(path, 0, end)));
    }
    if directory[0] != SLASH {
        return None;
    }
    if outer.len() > inner.len() {
        return None;
    }
    let mut i: usize = 0;
    while i < outer.len()
        invariant
            i <= outer@.len() <= inner@.len(),
            has_root(directory@),
            spans_of(inner@) == names(path@, 0),
            spans_of(outer@) == names(directory@, 0),
            forall|j: int|
                0 <= j < i ==> name_at(path@, #[trigger] names(path@, 0)[j]) == name_at(
                    directory@,
                    names(directory@, 0)[j],
                ),
        decreases outer@.len() - i,
    {
        proof {
            lemma_names_are_names(path@, 0);
            lemma_names_are_names(directory@, 0);
            assert(names(path@, 0)[i as int] == (inner@[i as int].0 as int, inner@[i as int].1 as int));
            assert(names(directory@, 0)[i as int] == (
                outer@[i as int].0 as int,
                outer@[i as int].1 as int,
            ));
        }
        let left = vstd::slice::slice_subrange(path, inner[i].0, inner[i].1);
        let right = vstd::slice::slice_subrange(directory, outer[i].0, outer[i].1);
        if !bytes_equal(left, right) {
            return None;
        }
        i += 1;
    }
    if outer.len() == inner.len() {
        Some(Vec::new())
    } else {
        let last: usize = inner.len() - 1;
        let first: usize = outer.len();
        proof {
            assert(names(path@, 0)[first as int] == (
                inner@[first as int].0 as int,
                inner@[first as int].1 as int,
            ));
            assert(names(path@, 0)[last as int] == (
                inner@[last as int].0 as int,
                inner@[last as int].1 as int,
            ));
        }
        Some(copy_bytes(vstd::slice::slice_subrange(path, inner[first].0, inner[last].1)))
    }
}

/// A text with a slash in place of every backslash.
pub open spec fn with_slashes(text: Seq<char>) -> Seq<char> {
    Seq::new(
        text.len(),
        |i: int|
            if text[i] == '\\' {
                '/'
            } else {
                text[i]
            },
    )
}

/// Puts a slash in place of every backslash.
fn replace_backslashes(text: &str) -> (result: String)
    ensures
        result@ == with_slashes(text@),
{
    let mut result = String::new();
    for c in it: text.chars()
        invariant
            it.seq() == text@,
            result@ == with_slashes(text@.take(it.index() as int)),
    {
        let kept: char = if c == '\\' {
            '/'
        } else {
            c
        };
        result.push(kept);
    }
    assert(text@.take(text@.len() as int) == text@);
    result
}

/// What is reported of a path in a target directory, or why nothing is.
pub open spec fn reported_path(path: Seq<u8>, target_directory: Seq<u8>) -> Result<
    Seq<char>,
    ScanError,
> {
    let relative = if has_root(path) {
        stripped(path, target_directory)
    } else {
        Some(path)
    };
    match relative {
        None => Err(ScanError::PrefixNotFound),
        Some(bytes) => {
            let text = with_slashes(decode_utf8(bytes));
            if !valid_utf8(bytes) {
                Err(ScanError::PathNotUtf8)
            } else if bytes.len() == 0 {
                Err(ScanError::EmptyPath)
            } else if !plain_relative(bytes) {
                Err(ScanError::UnsafePath)
            } else if encode_utf8(text).len() > MAX_PATH_BYTES {
                Err(ScanError::PathTooLong)
            } else {
                Ok(text)
            }
        },
    }
}

/// The path that is reported for a path in a target directory.
pub fn relative_target_path(path: &[u8], target_directory: &[u8]) -> (result: Result<
    String,
    ScanError,
>)
    ensures
        match result {
            Ok(text) => reported_path(path@, target_directory@) == Ok::<Seq<char>, ScanError>(
                text@,
            ),
            Err(error) => reported_path(path@, target_directory@) == Err::<Seq<char>, ScanError>(
                error,
            ),
        },
{
    let relative = if path.len() > 0 && path[0] == SLASH {
        match strip_directory(path, target_directory) {
            Some(rest) => rest,
            None => return Err(ScanError::PrefixNotFound),
        }
    } else {
        copy_bytes(path)
    };
    let ghost bytes = relative@;
    let text = match utf8_text(relative) {
        Ok(text) => text,
        Err(_) => return Err(ScanError::PathNotUtf8),
    };
    proof {
        decode_utf8_encode_utf8(bytes);
    }
    let safe = match safe_relative_path(text.as_str()) {
        Ok(safe) => safe,
        Err(error) => return Err(error),
    };
    let reported = replace_backslashes(safe.as_str());
    if reported.as_str().as_bytes().len() > MAX_PATH_BYTES {
        return Err(ScanError::PathTooLong);
    }
    Ok(reported)
}

/// The last name of a path, unless it is `..`.
pub open spec fn file_name(path: Seq<u8>) -> Option<Seq<u8>> {
    let all = names(path, 0);
    if all.len() == 0 || name_at(path, all.last()) == seq![DOT, DOT] {
        None
    } else {
        Some(name_at(path, all.last()))
    }
}

/// The index of the last dot, or -1.
pub open spec fn last_dot(name: Seq<u8>) -> int
    decreases name.len(),
{
    if name.len() == 0 || name.last() == DOT {
        name.len() - 1
    } else {
        last_dot(name.drop_last())
    }
}

/// A file name up to its last dot; the whole of it where there is no dot but at its start.
pub open spec fn stem_of(name: Seq<u8>) -> Seq<u8> {
    if last_dot(name) <= 0 {
        name
    } else {
        name.take(last_dot(name))
    }
}

/// What follows the last dot of a file name, where there is a dot that is not at its start.
pub open spec fn extension_of(name: Seq<u8>) -> Option<Seq<u8>> {
    if last_dot(name) <= 0 {
        None
    } else {
        Some(name.skip(last_dot(name) + 1))
    }
}

/// The extension of the file that a path names.
pub open spec fn path_extension(path: Seq<u8>) -> Option<Seq<u8>> {
    match file_name(path) {
        Some(name) => extension_of(name),
        None => None,
    }
}

proof fn lemma_last_dot(name: Seq<u8>)
    ensures
        -1 <= last_dot(name) < name.len(),
        last_dot(name) >= 0 ==> name[last_dot(name)] == DOT,
        forall|i: int| last_dot(name) < i < name.len() ==> name[i] != DOT,
    decreases name.len(),
{
    if name.len() > 0 && name.last() != DOT {
        let shorter = name.drop_last();
        lemma_last_dot(shorter);
        assert(forall|i: int| 0 <= i < shorter.len() ==> name[i] == shorter[i]);
    }
}

/// Finds the last dot of a name.
fn find_last_dot(name: &[u8]) -> (result: Option<usize>)
    ensures
        match result {
            Some(i) => last_dot(name@) == i && i < name@.len(),
            None => last_dot(name@) == -1,
        },
{
    let mut end: usize = name.len();
    assert(name@.take(end as int) == name@);
    while end > 0
        invariant
            end <= name@.len(),
            last_dot(name@.take(end as int)) == last_dot(name@),
        decreases end,
    {
        assert(name@.take(end as int).last() == name@[end - 1]);
        if name[end - 1] == DOT {
            return Some(end - 1);
        }
        assert(name@.take(end as int).drop_last() == name@.take(end - 1));
        end -= 1;
    }
    None
}

/// Where the last name of a path is, unless it is `..`.
fn find_file_name(path: &[u8]) -> (result: Option<(usize, usize)>)
    ensures
        match result {
            Some(span) => span.0 < span.1 <= path@.len() && file_name(path@) == Some(
                path@.subrange(span.0 as int, span.1 as int),
            ),
            None => file_name(path@) is None,
        },
{
    let spans = find_names(path);
    proof {
        lemma_names_are_names(path@, 0);
    }
    if spans.len() == 0 {
        return None;
    }
    let (start, end) = spans[spans.len() - 1];
    assert(names(path@, 0).last() == (start as int, end as int));
    let ghost name = path@.subrange(start as int, end as int);
    if end - start == 2 && path[start] == DOT && path[start + 1] == DOT {
        assert(name == seq![DOT, DOT]);
        return None;
    }
    assert(name != seq![DOT, DOT]) by {
        if name == seq![DOT, DOT] {
            assert(name[0] == DOT && name[1] == DOT);
        }
    }
    Some((start, end))
}

/// The extension of the file that a path names.
pub fn extension(path: &[u8]) -> (result: Option<Vec<u8>>)
    ensures
        match result {
            Some(found) => path_extension(path@) == Some(found@),
            None => path_extension(path@) is None,
        },
{
    match find_file_name(path) {
        None => None,
        Some((start, end)) => {
            let name = vstd::slice::slice_subrange(path, start, end);
            match find_last_dot(name) {
                Some(dot) if dot > 0 => {
                    let found = vstd::slice::slice_subrange(name, dot + 1, name.len());
                    assert(found@ == name@.skip(dot + 1));
                    Some(copy_bytes(found))
                },
                _ => None,
            }
        },
    }
}

/// The identifier of the target that a path names, or why there is none.
pub open spec fn target_id_of(path: Seq<u8>) -> Result<u64, ScanError> {
    match file_name(path) {
        None => Err(ScanError::InvalidTargetPath),
        Some(name) => match hex_number(stem_of(name)) {
            Ok(value) => Ok(value as u64),
            Err(error) => Err(ScanError::InvalidTargetId(error)),
        },
    }
}

/// Reads the identifier of a target from a path that the engine reported.
pub fn target_id_from_path(path: &str) -> (result: Result<u64, ScanError>)
    ensures
        result == target_id_of(encode_utf8(path@)),
{
    let bytes: &[u8] = path.as_bytes();
    match find_file_name(bytes) {
        None => Err(ScanError::InvalidTargetPath),
        Some((start, end)) => {
            let name = vstd::slice::slice_subrange(bytes, start, end);
            let stem_len: usize = match find_last_dot(name) {
                Some(dot) if dot > 0 => dot,
                _ => name.len(),
            };
            let stem = vstd::slice::slice_subrange(name, 0, stem_len);
            assert(stem@ == stem_of(name@));
            match parse_hex(stem) {
                Ok(value) => Ok(value),
                Err(error) => Err(ScanError::InvalidTargetId(error)),
            }
        },
    }
}

/// The file name of a canonical target: its identifier in sixteen hexadecimal digits, and the
/// extension where it is not empty.
pub open spec fn target_name(target_id: u64, extension: Option<Seq<u8>>) -> Seq<u8> {
    let digits = hex_digits(target_id as nat, 16);
    match extension {
        Some(bytes) if bytes.len() > 0 => digits.push(DOT) + bytes,
        _ => digits,
    }
}

/// A relative path put into a directory.
pub open spec fn path_in(directory: Seq<u8>, relative: Seq<u8>) -> Seq<u8> {
    if directory.len() == 0 || directory.last() == SLASH {
        directory + relative
    } else {
        directory.push(SLASH) + relative
    }
}

/// The path of a canonical target in a directory.
pub open spec fn target_path_in(
    directory: Seq<u8>,
    target_id: u64,
    extension: Option<Seq<u8>>,
) -> Seq<u8> {
    path_in(directory, target_name(target_id, extension))
}

/// The path of a canonical target.
pub fn target_path(directory: &[u8], target_id: u64, extension: Option<&[u8]>) -> (path: Vec<u8>)
    ensures
        path@ == target_path_in(
            directory@,
            target_id,
            match extension {
                Some(bytes) => Some(bytes@),
                None => None,
            },
        ),
{
    let mut path = copy_bytes(directory);
    if directory.len() > 0 && directory[directory.len() - 1] != SLASH {
        path.push(SLASH);
    }
    let ghost base = path@;
    let mut name = format_hex(target_id as u128, 16);
    let ghost digits = name@;
    if let Some(bytes) = extension {
        if bytes.len() > 0 {
            name.push(DOT);
            let mut suffix = copy_bytes(bytes);
            name.append(&mut suffix);
        }
    }
    path.append(&mut name);
    path
}

/// An extension holds neither a dot nor a slash.
pub proof fn lemma_extension_is_plain(path: Seq<u8>)
    ensures
        path_extension(path) matches Some(bytes) ==> forall|i: int|
            0 <= i < bytes.len() ==> #[trigger] bytes[i] != DOT && bytes[i] != SLASH,
{
    lemma_names_are_names(path, 0);
    if let Some(name) = file_name(path) {
        let span = names(path, 0).last();
        assert(name == path.subrange(span.0, span.1));
        lemma_last_dot(name);
        if let Some(bytes) = extension_of(name) {
            assert forall|i: int| 0 <= i < bytes.len() implies #[trigger] bytes[i] != DOT
                && bytes[i] != SLASH by {
                assert(bytes[i] == name[last_dot(name) + 1 + i]);
                assert(name[last_dot(name) + 1 + i] == path[span.0 + last_dot(name) + 1 + i]);
            }
        }
    }
}

/// A path without a slash that is a name is its own only name.
proof fn lemma_single_name(name: Seq<u8>)
    requires
        is_name(name),
        forall|i: int| 0 <= i < name.len() ==> name[i] != SLASH,
    ensures
        names(name, 0) == seq![(0int, name.len() as int)],
        name_at(name, (0int, name.len() as int)) == name,
{
    lemma_segment_end(name, 0);
    let end = segment_end(name, 0);
    assert(end == name.len());
    assert(name.subrange(0, end) == name);
    assert(names(name, end + 1) == Seq::<(int, int)>::empty());
    assert(names(name, 0) == seq![(0int, end)] + names(name, end + 1));
}

/// The name of a target is a name without a slash whose stem is the identifier's digits.
proof fn lemma_target_name(target_id: u64, extension: Option<Seq<u8>>)
    requires
        extension matches Some(bytes) ==> forall|i: int|
            0 <= i < bytes.len() ==> #[trigger] bytes[i] != DOT && bytes[i] != SLASH,
    ensures
        is_name(target_name(target_id, extension)),
        target_name(target_id, extension) != seq![DOT, DOT],
        forall|i: int|
            0 <= i < target_name(target_id, extension).len() ==> #[trigger] target_name(
                target_id,
                extension,
            )[i] != SLASH,
        stem_of(target_name(target_id, extension)) == hex_digits(target_id as nat, 16),
{
    let digits = hex_digits(target_id as nat, 16);
    let name = target_name(target_id, extension);
    lemma_hex_digits_shape(target_id as nat, 16);
    lemma_last_dot(name);
    assert(name.len() >= 16);
    assert(forall|i: int| 0 <= i < 16 ==> name[i] == digits[i]);
    if let Some(bytes) = extension {
        if bytes.len() > 0 {
            assert(name[16] == DOT);
            assert(forall|i: int| 17 <= i < name.len() ==> name[i] == bytes[i - 17]);
            assert(last_dot(name) == 16);
        }
    }
    assert(stem_of(name) == digits);
}

/// The identifier of a target can be read back from its name, whichever file its extension was
/// taken from.
pub proof fn law_target_id_round_trip(target_id: u64, source: Seq<u8>)
    ensures
        target_id_of(target_name(target_id, path_extension(source))) == Ok::<u64, ScanError>(
            target_id,
        ),
{
    let extension = path_extension(source);
    let name = target_name(target_id, extension);
    lemma_extension_is_plain(source);
    lemma_target_name(target_id, extension);
    lemma_single_name(name);
    assert(names(name, 0).last() == (0int, name.len() as int));
    assert(target_id < power_of_16(16)) by {
        reveal_with_fuel(power_of_16, 17);
    }
    lemma_hex_round_trip(target_id as nat, 16);
}

/// Spans moved to the right.
pub open spec fn moved(spans: Seq<(int, int)>, by: int) -> Seq<(int, int)> {
    Seq::new(spans.len(), |i: int| (spans[i].0 + by, spans[i].1 + by))
}

proof fn lemma_segment_in_tail(head: Seq<u8>, tail: Seq<u8>, from: int)
    requires
        0 <= from <= tail.len(),
    ensures
        segment_end(head + tail, head.len() + from) == head.len() + segment_end(tail, from),
    decreases tail.len() - from,
{
    if from < tail.len() && tail[from] != SLASH {
        lemma_segment_in_tail(head, tail, from + 1);
    }
}

proof fn lemma_names_in_tail(head: Seq<u8>, tail: Seq<u8>, from: int)
    requires
        0 <= from <= tail.len() + 1,
    ensures
        names(head + tail, head.len() + from) == moved(names(tail, from), head.len() as int),
    decreases tail.len() + 1 - from,
{
    let path = head + tail;
    let by = head.len() as int;
    if from < tail.len() {
        lemma_segment_end(tail, from);
        lemma_segment_in_tail(head, tail, from);
        let end = segment_end(tail, from);
        assert(path.subrange(by + from, by + end) == tail.subrange(from, end));
        lemma_names_in_tail(head, tail, end + 1);
        if is_name(tail.subrange(from, end)) {
            assert(moved(seq![(from, end)] + names(tail, end + 1), by) == seq![
                (by + from, by + end),
            ] + moved(names(tail, end + 1), by));
        }
    } else {
        assert(names(path, by + from) == Seq::<(int, int)>::empty());
    }
}

/// The names of a path that is put behind a slash are found behind those before it.
proof fn lemma_names_behind(head: Seq<u8>, tail: Seq<u8>, from: int)
    requires
        0 <= from <= head.len(),
        head.len() > 0,
        head.last() == SLASH,
    ensures
        names(head + tail, from) == names(head, from) + moved(names(tail, 0), head.len() as int),
    decreases head.len() - from,
{
    let path = head + tail;
    let added = moved(names(tail, 0), head.len() as int);
    if from == head.len() {
        lemma_names_in_tail(head, tail, 0);
        assert(names(head, from) == Seq::<(int, int)>::empty());
    } else {
        lemma_segment_end(path, from);
        lemma_segment_end(head, from);
        let end = segment_end(path, from);
        assert(path[head.len() - 1] == SLASH);
        assert(end < head.len());
        lemma_same_segment(head, path, from);
        assert(path.subrange(from, end) == head.subrange(from, end));
        lemma_names_behind(head, tail, end + 1);
        if is_name(path.subrange(from, end)) {
            assert(seq![(from, end)] + (names(head, end + 1) + added) == (seq![(from, end)] + names(
                head,
                end + 1,
            )) + added);
        }
    }
}

/// A segment that ends in the head of a path ends there in the head alone too.
proof fn lemma_same_segment(head: Seq<u8>, path: Seq<u8>, from: int)
    requires
        0 <= from < head.len() <= path.len(),
        forall|i: int| 0 <= i < head.len() ==> head[i] == path[i],
        segment_end(path, from) < head.len(),
    ensures
        segment_end(head, from) == segment_end(path, from),
    decreases head.len() - from,
{
    if path[from] != SLASH {
        lemma_segment_end(path, from + 1);
        lemma_same_segment(head, path, from + 1);
    }
}

/// A slash at the end of a path adds no name.
proof fn lemma_names_with_slash(path: Seq<u8>, from: int)
    requires
        0 <= from <= path.len(),
    ensures
        names(path.push(SLASH), from) == names(path, from),
    decreases path.len() + 1 - from,
{
    let longer = path.push(SLASH);
    lemma_segment_end(path, from);
    lemma_segment_end(longer, from);
    let end = segment_end(path, from);
    if from == path.len() {
        assert(segment_end(longer, from) == from);
        assert(longer.subrange(from, from) == Seq::<u8>::empty());
        assert(names(longer, from + 1) == Seq::<(int, int)>::empty());
    } else {
        lemma_segment_with_slash(path, from);
        assert(segment_end(longer, from) == end);
        assert(longer.subrange(from, end) == path.subrange(from, end));
        if end == path.len() {
            assert(names(longer, end + 1) == Seq::<(int, int)>::empty());
            assert(names(path, end + 1) == Seq::<(int, int)>::empty());
        } else {
            lemma_names_with_slash(path, end + 1);
        }
    }
}

proof fn lemma_segment_with_slash(path: Seq<u8>, from: int)
    requires
        0 <= from <= path.len(),
    ensures
        segment_end(path.push(SLASH), from) == segment_end(path, from),
    decreases path.len() - from,
{
    if from < path.len() && path[from] != SLASH {
        lemma_segment_with_slash(path, from + 1);
    }
}

/// A relative path made of names only stays below every absolute directory that it is put into:
/// the path there has the names of the directory and then its own, and none of its own is `..`.
pub proof fn law_safe_paths_stay_below(directory: Seq<u8>, relative: Seq<u8>)
    requires
        plain_relative(relative),
    ensures
        has_root(path_in(directory, relative)) == has_root(directory),
        names_below(path_in(directory, relative), directory),
        names(path_in(directory, relative), 0).len() == names(directory, 0).len() + names(
            relative,
            0,
        ).len(),
        names(relative, 0).len() > 0,
        forall|i: int|
            0 <= i < names(relative, 0).len() ==> {
                let own = name_at(relative, #[trigger] names(relative, 0)[i]);
                &&& own != seq![DOT, DOT]
                &&& name_at(
                    path_in(directory, relative),
                    names(path_in(directory, relative), 0)[names(directory, 0).len() + i],
                ) == own
            },
{
    let head = if directory.len() == 0 || directory.last() == SLASH {
        directory
    } else {
        directory.push(SLASH)
    };
    let path = path_in(directory, relative);
    assert(path == head + relative);
    if directory.len() == 0 {
        assert(path =~= relative);
        assert(moved(names(relative, 0), 0) =~= names(relative, 0));
        assert(names(relative, 0) =~= names(directory, 0) + names(relative, 0));
    } else {
        assert(path[0] == directory[0]);
        if directory.last() != SLASH {
            lemma_names_with_slash(directory, 0);
        }
        lemma_names_behind(head, relative, 0);
    }
    lemma_names_are_names(directory, 0);
    lemma_names_are_names(relative, 0);
    let outer = names(directory, 0);
    let own = names(relative, 0);
    let inner = names(path, 0);
    assert(inner == outer + moved(own, head.len() as int));
    assert forall|i: int| 0 <= i < outer.len() implies name_at(path, #[trigger] inner[i])
        == name_at(directory, outer[i]) by {
        assert(inner[i] == outer[i]);
        assert(name_at(path, inner[i]) =~= name_at(directory, outer[i]));
    }
    assert forall|i: int| 0 <= i < own.len() implies name_at(path, inner[outer.len() + i])
        == name_at(relative, #[trigger] own[i]) by {
        assert(inner[outer.len() + i] == moved(own, head.len() as int)[i]);
        assert(name_at(path, inner[outer.len() + i]) =~= name_at(relative, own[i]));
    }
    assert(own.len() > 0) by {
        lemma_segment_end(relative, 0);
        let end = segment_end(relative, 0);
        let first = relative.subrange(0, end);
        assert(end > 0);
        if first == seq![DOT] {
            assert(first.len() == 1 && first[0] == DOT);
            assert(first[0] == relative[0]);
        }
    }
}

/// The path of a target, taken relative to its absolute directory, is the name of the target.
pub proof fn law_target_path_is_relative(directory: Seq<u8>, target_id: u64, source: Seq<u8>)
    requires
        has_root(directory),
    ensures
        stripped(
            target_path_in(directory, target_id, path_extension(source)),
            directory,
        ) == Some(target_name(target_id, path_extension(source))),
        plain_relative(target_name(target_id, path_extension(source))),
{
    let extension = path_extension(source);
    let name = target_name(target_id, extension);
    lemma_extension_is_plain(source);
    lemma_target_name(target_id, extension);
    lemma_single_name(name);
    lemma_hex_digits_shape(target_id as nat, 16);
    assert(name[0] == hex_digits(target_id as nat, 16)[0]);
    assert(names(name, 0)[0] == (0int, name.len() as int));
    assert(plain_relative(name));
    law_safe_paths_stay_below(directory, name);
    let head = if directory.last() == SLASH {
        directory
    } else {
        directory.push(SLASH)
    };
    let path = path_in(directory, name);
    if directory.last() != SLASH {
        lemma_names_with_slash(directory, 0);
    }
    lemma_names_behind(head, name, 0);
    assert(names(path, 0).last() == (head.len() as int, path.len() as int));
    assert(path.subrange(head.len() as int, path.len() as int) == name);
}

} // verus!
