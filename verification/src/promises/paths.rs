//! What holds of paths: their names, what is reported of them, and the names of targets.

use vstd::prelude::*;
use vstd::utf8::*;

use crate::error::ScanError;
use crate::paths::{
    extension, extension_of, file_name, find_names, is_name, last_dot, lemma_names_are_names,
    lemma_segment_end, name_at, names, path_extension, plain_relative, relative_target_path,
    reported_path, safe_relative_path, segment_end, spans_of, stem_of, strip_directory, stripped,
    target_id_from_path, target_id_of, target_path, with_slashes,
};
use crate::promises::values::{
    are_hex_digits, hex_value, lemma_digits_value, lemma_hex_value, lower_hex_value, without_plus,
};

verus! {

/// Whether a part of a path is one of its segments: it holds no slash, and is bounded by slashes or
/// the ends of the path.
pub open spec fn is_segment(path: Seq<u8>, start: int, end: int) -> bool {
    &&& 0 <= start <= end <= path.len()
    &&& forall|i: int| start <= i < end ==> #[trigger] path[i] != 47
    &&& start == 0 || path[start - 1] == 47
    &&& end == path.len() || path[end] == 47
}

/// Whether a part of a path is a name: a segment that is neither empty nor `.`.
pub open spec fn names_an_entry(path: Seq<u8>, start: int, end: int) -> bool {
    &&& is_segment(path, start, end)
    &&& start < end
    &&& !(end == start + 1 && path[start] == 46)
}

/// Whether a name leads to the directory above.
pub open spec fn leads_up(path: Seq<u8>, start: int, end: int) -> bool {
    end == start + 2 && path[start] == 46 && path[start + 1] == 46
}

proof fn lemma_names_are_entries(path: Seq<u8>, from: int)
    requires
        0 <= from,
        from == 0 || from > path.len() || path[from - 1] == 47,
    ensures
        forall|i: int|
            0 <= i < names(path, from).len() ==> {
                let span = #[trigger] names(path, from)[i];
                names_an_entry(path, span.0, span.1)
            },
        forall|start: int, end: int|
            from <= start && #[trigger] names_an_entry(path, start, end) ==> names(
                path,
                from,
            ).contains((start, end)),
    decreases path.len() + 1 - from,
{
    if from < path.len() {
        lemma_segment_end(path, from);
        let end = segment_end(path, from);
        let rest = names(path, end + 1);
        let all = names(path, from);
        lemma_names_are_entries(path, end + 1);
        let segment = path.subrange(from, end);
        assert(is_name(segment) <==> end > from && !(end == from + 1 && path[from] == 46)) by {
            if end == from + 1 {
                assert(segment[0] == path[from]);
                if path[from] == 46 {
                    assert(segment =~= seq![46u8]);
                }
            }
            if segment == seq![46u8] {
                assert(segment.len() == 1 && segment[0] == 46);
            }
        }
        assert forall|i: int| 0 <= i < all.len() implies {
            let span = #[trigger] all[i];
            names_an_entry(path, span.0, span.1)
        } by {
            if is_name(segment) {
                if i > 0 {
                    assert(all[i] == rest[i - 1]);
                }
            }
        }
        assert forall|start: int, stop: int|
            from <= start && #[trigger] names_an_entry(path, start, stop) implies all.contains(
            (start, stop),
        ) by {
            if start <= end {
                assert(start == from) by {
                    if start > from {
                        assert(path[start - 1] == 47);
                    }
                }
                assert(stop == end) by {
                    if stop < end {
                        assert(path[stop] != 47);
                    } else if end < stop {
                        assert(path[end] == 47);
                    }
                }
                assert(all[0] == (start, stop));
            } else {
                assert(rest.contains((start, stop)));
                let k = choose|k: int| 0 <= k < rest.len() && rest[k] == (start, stop);
                if is_name(segment) {
                    assert(all[k + 1] == (start, stop));
                }
            }
        }
    }
}

/// The names of a path are found, from left to right: all of them, and nothing else.
pub proof fn law_names_are_found(path: &[u8], spans: Vec<(usize, usize)>)
    requires
        call_ensures(find_names, (path,), spans),
    ensures
        forall|i: int|
            0 <= i < spans@.len() ==> names_an_entry(
                path@,
                (#[trigger] spans@[i]).0 as int,
                spans@[i].1 as int,
            ),
        forall|i: int, j: int|
            0 <= i < j < spans@.len() ==> (#[trigger] spans@[i]).1 < (#[trigger] spans@[j]).0,
        forall|start: int, end: int| #[trigger]
            names_an_entry(path@, start, end) ==> exists|i: int|
                0 <= i < spans@.len() && (#[trigger] spans@[i]).0 == start && spans@[i].1 == end,
{
    lemma_names_are_entries(path@, 0);
    lemma_names_are_names(path@, 0);
    let all = names(path@, 0);
    assert(all == spans_of(spans@));
    assert forall|i: int| 0 <= i < spans@.len() implies names_an_entry(
        path@,
        (#[trigger] spans@[i]).0 as int,
        spans@[i].1 as int,
    ) by {
        let span = all[i];
        assert(span == (spans@[i].0 as int, spans@[i].1 as int));
    }
    assert forall|i: int, j: int| 0 <= i < j < spans@.len() implies (#[trigger] spans@[i]).1 < (
    #[trigger] spans@[j]).0 by {
        assert(all[i].1 < all[j].0);
    }
    assert forall|start: int, end: int| #[trigger] names_an_entry(path@, start, end) implies exists|
        i: int,
    |
        0 <= i < spans@.len() && (#[trigger] spans@[i]).0 == start && spans@[i].1 == end by {
        assert(all.contains((start, end)));
        let i = choose|i: int| 0 <= i < all.len() && all[i] == (start, end);
        assert(spans@[i].0 == start && spans@[i].1 == end);
    }
}

/// Whether a path is relative and leads down only: it is not empty, starts with neither a slash nor
/// a segment that is a dot, and no name of it leads up.
pub open spec fn leads_down(path: Seq<u8>) -> bool {
    &&& path.len() > 0
    &&& path[0] != 47
    &&& !(path[0] == 46 && (path.len() == 1 || path[1] == 47))
    &&& forall|start: int, end: int| #[trigger]
        is_segment(path, start, end) ==> !leads_up(path, start, end)
}

pub proof fn lemma_leads_down(path: Seq<u8>)
    ensures
        plain_relative(path) <==> leads_down(path),
{
    lemma_names_are_entries(path, 0);
    let all = names(path, 0);
    let up = seq![46u8, 46u8];
    if plain_relative(path) {
        assert forall|start: int, end: int| #[trigger] is_segment(path, start, end) implies !leads_up(
            path,
            start,
            end,
        ) by {
            if leads_up(path, start, end) {
                assert(names_an_entry(path, start, end));
                let i = choose|i: int| 0 <= i < all.len() && all[i] == (start, end);
                assert(name_at(path, all[i]) =~= up);
            }
        }
    }
    if leads_down(path) {
        assert forall|i: int| 0 <= i < all.len() implies name_at(path, #[trigger] all[i])
            != up by {
            let span = all[i];
            assert(names_an_entry(path, span.0, span.1));
            let name = name_at(path, span);
            if name == up {
                assert(name.len() == 2 && name[0] == 46 && name[1] == 46);
                assert(is_segment(path, span.0, span.1));
                assert(leads_up(path, span.0, span.1));
            }
        }
    }
}

/// A path is accepted just where it is relative and leads down only, and is given back as it is.
pub proof fn law_safe_paths_are_those_that_lead_down(value: &str, result: Result<String, ScanError>)
    requires
        call_ensures(safe_relative_path, (value,), result),
    ensures
        result is Ok <==> leads_down(encode_utf8(value@)),
        result matches Ok(path) ==> path@ == value@,
        result matches Err(error) ==> error == (if encode_utf8(value@).len() == 0 {
            ScanError::EmptyPath
        } else {
            ScanError::UnsafePath
        }),
{
    lemma_leads_down(encode_utf8(value@));
}

/// Below a directory that starts at the root, a path has the names of the directory and then its
/// own; what is left of it goes from the first of its own to the last. Below another directory
/// there is nothing, but below none the path stays absolute.
pub proof fn law_directories_are_stripped(
    path: &[u8],
    directory: &[u8],
    inner: Vec<(usize, usize)>,
    outer: Vec<(usize, usize)>,
    result: Option<Vec<u8>>,
)
    requires
        path@.len() > 0,
        path@[0] == 47,
        call_ensures(find_names, (path,), inner),
        call_ensures(find_names, (directory,), outer),
        call_ensures(strip_directory, (path, directory), result),
    ensures
        result is Some <==> {
            ||| directory@.len() == 0
            ||| {
                &&& directory@[0] == 47
                &&& outer@.len() <= inner@.len()
                &&& forall|i: int|
                    0 <= i < outer@.len() ==> path@.subrange(
                        (#[trigger] inner@[i]).0 as int,
                        inner@[i].1 as int,
                    ) == directory@.subrange(outer@[i].0 as int, outer@[i].1 as int)
            }
        },
        result matches Some(rest) ==> {
            let first = if directory@.len() == 0 {
                0
            } else if outer@.len() < inner@.len() {
                inner@[outer@.len() as int].0 as int
            } else {
                0
            };
            let end = if directory@.len() > 0 && outer@.len() == inner@.len() {
                0
            } else if inner@.len() == 0 {
                1
            } else {
                inner@[inner@.len() - 1].1 as int
            };
            rest@ == path@.subrange(first, end)
        },
{
    lemma_names_are_names(path@, 0);
    let all = names(path@, 0);
    let above = names(directory@, 0);
    assert(all == spans_of(inner@));
    assert(above == spans_of(outer@));
    assert(forall|i: int|
        0 <= i < inner@.len() ==> (#[trigger] inner@[i]).0 == all[i].0 && inner@[i].1 == all[i].1);
    assert(forall|i: int|
        0 <= i < outer@.len() ==> (#[trigger] outer@[i]).0 == above[i].0 && outer@[i].1
            == above[i].1);
    if result is Some && directory@.len() > 0 {
        assert forall|i: int| 0 <= i < outer@.len() implies path@.subrange(
            (#[trigger] inner@[i]).0 as int,
            inner@[i].1 as int,
        ) == directory@.subrange(outer@[i].0 as int, outer@[i].1 as int) by {
            assert(name_at(path@, all[i]) == name_at(directory@, above[i]));
        }
    }
    if result is None && directory@[0] == 47 && outer@.len() <= inner@.len() {
        let i = choose|i: int|
            0 <= i < above.len() && name_at(path@, #[trigger] all[i]) != name_at(
                directory@,
                above[i],
            );
        assert(path@.subrange(inner@[i].0 as int, inner@[i].1 as int) != directory@.subrange(
            outer@[i].0 as int,
            outer@[i].1 as int,
        ));
    }
    if let Some(rest) = result {
        if directory@.len() == 0 {
            if inner@.len() == 0 {
                assert(path@.take(1) =~= path@.subrange(0, 1));
            } else {
                assert(path@.take(all.last().1) =~= path@.subrange(0, all.last().1));
            }
        }
    }
}

/// What is left of a path in a directory: the path itself where it is relative, and otherwise what
/// stripping the directory leaves.
pub open spec fn left_in(path: Seq<u8>, stripped: Option<Seq<u8>>) -> Option<Seq<u8>> {
    if path.len() > 0 && path[0] == 47 {
        stripped
    } else {
        Some(path)
    }
}

/// Whether a text is another one with slashes in place of its backslashes.
pub open spec fn is_with_slashes(text: Seq<char>, given: Seq<char>) -> bool {
    &&& text.len() == given.len()
    &&& forall|i: int|
        0 <= i < text.len() ==> #[trigger] text[i] == if given[i] == '\\' {
            '/'
        } else {
            given[i]
        }
}

pub proof fn lemma_reported_path(path: Seq<u8>, directory: Seq<u8>)
    ensures
        ({
            let left = left_in(path, stripped(path, directory));
            match reported_path(path, directory) {
                Ok(text) => {
                    &&& left matches Some(bytes)
                    &&& valid_utf8(bytes)
                    &&& leads_down(bytes)
                    &&& is_with_slashes(text, decode_utf8(bytes))
                    &&& encode_utf8(text).len() <= 1024
                },
                Err(error) => match left {
                    None => error == ScanError::PrefixNotFound,
                    Some(bytes) => if !valid_utf8(bytes) {
                        error == ScanError::PathNotUtf8
                    } else if bytes.len() == 0 {
                        error == ScanError::EmptyPath
                    } else if !leads_down(bytes) {
                        error == ScanError::UnsafePath
                    } else {
                        &&& error == ScanError::PathTooLong
                        &&& forall|text: Seq<char>| #[trigger]
                            is_with_slashes(text, decode_utf8(bytes)) ==> encode_utf8(text).len()
                                > 1024
                    },
                },
            }
        }),
{
    let left = left_in(path, stripped(path, directory));
    if let Some(bytes) = left {
        lemma_leads_down(bytes);
        let given = decode_utf8(bytes);
        assert forall|text: Seq<char>| #[trigger] is_with_slashes(text, given) implies text
            == with_slashes(given) by {
            assert(text =~= with_slashes(given));
        }
    }
}

/// A path is reported just where what is left of it in its directory is UTF-8, leads down only and
/// is short enough; it is reported with slashes in place of backslashes, and otherwise whole.
pub proof fn law_paths_are_reported(
    path: &[u8],
    directory: &[u8],
    stripped_path: Option<Vec<u8>>,
    result: Result<String, ScanError>,
)
    requires
        path@.len() > 0 && path@[0] == 47 ==> call_ensures(
            strip_directory,
            (path, directory),
            stripped_path,
        ),
        call_ensures(relative_target_path, (path, directory), result),
    ensures
        ({
            let left = left_in(
                path@,
                match stripped_path {
                    Some(bytes) => Some(bytes@),
                    None => None,
                },
            );
            match result {
                Ok(text) => {
                    &&& left matches Some(bytes)
                    &&& valid_utf8(bytes)
                    &&& leads_down(bytes)
                    &&& is_with_slashes(text@, decode_utf8(bytes))
                    &&& encode_utf8(text@).len() <= 1024
                },
                Err(error) => match left {
                    None => error == ScanError::PrefixNotFound,
                    Some(bytes) => if !valid_utf8(bytes) {
                        error == ScanError::PathNotUtf8
                    } else if bytes.len() == 0 {
                        error == ScanError::EmptyPath
                    } else if !leads_down(bytes) {
                        error == ScanError::UnsafePath
                    } else {
                        &&& error == ScanError::PathTooLong
                        &&& forall|text: Seq<char>| #[trigger]
                            is_with_slashes(text, decode_utf8(bytes)) ==> encode_utf8(text).len()
                                > 1024
                    },
                },
            }
        }),
{
    lemma_reported_path(path@, directory@);
}

/// Whether a part of a path is its last name.
pub open spec fn is_last_name(path: Seq<u8>, start: int, end: int) -> bool {
    &&& names_an_entry(path, start, end)
    &&& forall|other: int, stop: int| #[trigger]
        names_an_entry(path, other, stop) ==> other <= start
}

proof fn lemma_file_name(path: Seq<u8>)
    ensures
        match file_name(path) {
            Some(name) => exists|start: int, end: int| #[trigger]
                is_last_name(path, start, end) && !leads_up(path, start, end) && name
                    == path.subrange(start, end),
            None => forall|start: int, end: int| #[trigger]
                is_last_name(path, start, end) ==> leads_up(path, start, end),
        },
{
    lemma_names_are_entries(path, 0);
    lemma_names_are_names(path, 0);
    let all = names(path, 0);
    let up = seq![46u8, 46u8];
    if all.len() > 0 {
        let last = all[all.len() - 1];
        assert(last == all.last());
        let name = name_at(path, last);
        assert forall|other: int, stop: int| #[trigger]
            names_an_entry(path, other, stop) implies other <= last.0 by {
            let i = choose|i: int| 0 <= i < all.len() && all[i] == (other, stop);
            if i < all.len() - 1 {
                assert(all[i].1 < all[all.len() - 1].0);
            }
        }
        assert(is_last_name(path, last.0, last.1));
        if leads_up(path, last.0, last.1) {
            assert(name =~= up);
        }
        if name == up {
            assert(name.len() == 2 && name[0] == 46 && name[1] == 46);
        }
        assert forall|start: int, end: int| #[trigger] is_last_name(path, start, end) implies start
            == last.0 && end == last.1 by {
            assert(names_an_entry(path, last.0, last.1));
            let i = choose|i: int| 0 <= i < all.len() && all[i] == (start, end);
            if i < all.len() - 1 {
                assert(all[i].1 < all[all.len() - 1].0);
            }
        }
    } else {
        assert forall|start: int, end: int| #[trigger] is_last_name(path, start, end) implies leads_up(
            path,
            start,
            end,
        ) by {
            assert(all.contains((start, end)));
        }
    }
}

proof fn lemma_dot(name: Seq<u8>)
    ensures
        -1 <= last_dot(name) < name.len(),
        last_dot(name) >= 0 ==> name[last_dot(name)] == 46,
        forall|i: int| last_dot(name) < i < name.len() ==> name[i] != 46,
    decreases name.len(),
{
    if name.len() > 0 && name.last() != 46 {
        let shorter = name.drop_last();
        lemma_dot(shorter);
        assert(forall|i: int| 0 <= i < shorter.len() ==> name[i] == shorter[i]);
    }
}

/// Whether a name has a dot behind its start, and these are the parts around the last one.
pub open spec fn splits_at_last_dot(name: Seq<u8>, stem: Seq<u8>, extension: Seq<u8>) -> bool {
    &&& stem.len() > 0
    &&& name == stem + seq![46u8] + extension
    &&& forall|i: int| 0 <= i < extension.len() ==> #[trigger] extension[i] != 46
}

/// Whether a name has no dot but at its start.
pub open spec fn has_no_inner_dot(name: Seq<u8>) -> bool {
    forall|i: int| 0 < i < name.len() ==> #[trigger] name[i] != 46
}

proof fn lemma_name_parts(name: Seq<u8>)
    ensures
        match extension_of(name) {
            Some(found) => splits_at_last_dot(name, stem_of(name), found),
            None => has_no_inner_dot(name) && stem_of(name) == name,
        },
{
    lemma_dot(name);
    let d = last_dot(name);
    if d > 0 {
        assert(name =~= name.take(d) + seq![46u8] + name.skip(d + 1));
        let found = name.skip(d + 1);
        assert forall|i: int| 0 <= i < found.len() implies #[trigger] found[i] != 46 by {
            assert(found[i] == name[d + 1 + i]);
        }
    }
}

pub proof fn lemma_path_extension(path: Seq<u8>)
    ensures
        match path_extension(path) {
            Some(found) => exists|start: int, end: int, stem: Seq<u8>| #[trigger]
                is_last_name(path, start, end) && !leads_up(path, start, end)
                    && #[trigger] splits_at_last_dot(path.subrange(start, end), stem, found),
            None => forall|start: int, end: int| #[trigger]
                is_last_name(path, start, end) ==> leads_up(path, start, end) || has_no_inner_dot(
                    path.subrange(start, end),
                ),
        },
{
    lemma_file_name(path);
    match file_name(path) {
        Some(name) => {
            lemma_name_parts(name);
            let (start, end) = choose|start: int, end: int| #[trigger]
                is_last_name(path, start, end) && !leads_up(path, start, end) && name
                    == path.subrange(start, end);
            if let Some(found) = extension_of(name) {
                assert(splits_at_last_dot(path.subrange(start, end), stem_of(name), found));
            }
            assert forall|other: int, stop: int| #[trigger]
                is_last_name(path, other, stop) implies other == start && stop == end by {
                assert(names_an_entry(path, start, end));
                assert(names_an_entry(path, other, stop));
                assert(other == start);
                if stop < end {
                    assert(path[stop] != 47);
                } else if end < stop {
                    assert(path[end] != 47);
                }
            }
        },
        None => {},
    }
}

/// The extension of a path is what stands behind the last dot of its last name, whole, where there
/// is a dot behind the start of the name and the name does not lead up.
pub proof fn law_extensions_are_behind_the_last_dot(path: &[u8], result: Option<Vec<u8>>)
    requires
        call_ensures(extension, (path,), result),
    ensures
        match result {
            Some(found) => exists|start: int, end: int, stem: Seq<u8>| #[trigger]
                is_last_name(path@, start, end) && !leads_up(path@, start, end)
                    && #[trigger] splits_at_last_dot(path@.subrange(start, end), stem, found@),
            None => forall|start: int, end: int| #[trigger]
                is_last_name(path@, start, end) ==> leads_up(path@, start, end)
                    || has_no_inner_dot(path@.subrange(start, end)),
        },
{
    lemma_path_extension(path@);
}

/// Whether a stem is the digits of an identifier, in either case, with at most one plus sign before
/// them.
pub open spec fn stands_for_id(stem: Seq<u8>, target_id: u64) -> bool {
    &&& without_plus(stem).len() > 0
    &&& are_hex_digits(without_plus(stem))
    &&& hex_value(without_plus(stem)) == target_id
}

/// Whether a part of a name is its stem: what stands before its last dot, or the whole name where
/// there is no dot but at its start.
pub open spec fn is_stem(name: Seq<u8>, stem: Seq<u8>) -> bool {
    ||| has_no_inner_dot(name) && stem == name
    ||| exists|rest: Seq<u8>| #[trigger] splits_at_last_dot(name, stem, rest)
}

/// Whether a path names a target: its last name does not lead up, and the stem of that name is the
/// identifier of the target.
pub open spec fn names_target(path: Seq<u8>, target_id: u64) -> bool {
    exists|start: int, end: int, stem: Seq<u8>|
        {
            &&& #[trigger] is_last_name(path, start, end)
            &&& !leads_up(path, start, end)
            &&& #[trigger] is_stem(path.subrange(start, end), stem)
            &&& stands_for_id(stem, target_id)
        }
}

proof fn lemma_stem(name: Seq<u8>, stem: Seq<u8>)
    ensures
        is_stem(name, stem) <==> stem == stem_of(name),
{
    lemma_dot(name);
    lemma_name_parts(name);
    let d = last_dot(name);
    if stem == stem_of(name) {
        if let Some(found) = extension_of(name) {
            assert(splits_at_last_dot(name, stem, found));
        }
    }
    if is_stem(name, stem) {
        if exists|rest: Seq<u8>| #[trigger] splits_at_last_dot(name, stem, rest) {
            let rest = choose|rest: Seq<u8>| #[trigger] splits_at_last_dot(name, stem, rest);
            let k = stem.len() as int;
            assert(name[k] == 46);
            assert forall|i: int| k < i < name.len() implies name[i] != 46 by {
                assert(name[i] == rest[i - k - 1]);
            }
            assert(d == k);
            assert(name.take(d) =~= stem);
        } else {
            if d > 0 {
                assert(name[d] == 46);
            }
        }
    }
}

proof fn lemma_last_name_is_one(path: Seq<u8>, start: int, end: int, other: int, stop: int)
    requires
        is_last_name(path, start, end),
        is_last_name(path, other, stop),
    ensures
        start == other,
        end == stop,
{
    assert(names_an_entry(path, start, end));
    assert(names_an_entry(path, other, stop));
    if stop < end {
        assert(path[stop] != 47);
    } else if end < stop {
        assert(path[end] != 47);
    }
}

pub proof fn lemma_target_id_of(path: Seq<u8>, target_id: u64)
    ensures
        target_id_of(path) == Ok::<u64, ScanError>(target_id) <==> names_target(path, target_id),
        target_id_of(path) == Err::<u64, ScanError>(ScanError::InvalidTargetPath) <==> forall|
            start: int,
            end: int,
        | #[trigger]
            is_last_name(path, start, end) ==> leads_up(path, start, end),
        match target_id_of(path) {
            Ok(_) => true,
            Err(error) => error == ScanError::InvalidTargetPath || error is InvalidTargetId,
        },
{
    lemma_file_name(path);
    if let Some(name) = file_name(path) {
        let stem = stem_of(name);
        let (start, end) = choose|start: int, end: int| #[trigger]
            is_last_name(path, start, end) && !leads_up(path, start, end) && name
                == path.subrange(start, end);
        lemma_stem(name, stem);
        lemma_digits_value(stem);
        lemma_digits_value(stem.skip(1));
        if stem.len() > 0 {
            assert(stem.drop_first() =~= stem.skip(1));
        }
        if target_id_of(path) == Ok::<u64, ScanError>(target_id) {
            assert(stands_for_id(stem, target_id));
            assert(is_stem(path.subrange(start, end), stem));
        }
        if names_target(path, target_id) {
            let (other, stop, given) = choose|other: int, stop: int, given: Seq<u8>|
                {
                    &&& #[trigger] is_last_name(path, other, stop)
                    &&& !leads_up(path, other, stop)
                    &&& #[trigger] is_stem(path.subrange(other, stop), given)
                    &&& stands_for_id(given, target_id)
                };
            lemma_last_name_is_one(path, start, end, other, stop);
            lemma_stem(name, given);
        }
    }
}

/// The identifier of a target is read from a path just where the path names the target.
pub proof fn law_target_ids_are_read(path: &str, result: Result<u64, ScanError>, target_id: u64)
    requires
        call_ensures(target_id_from_path, (path,), result),
    ensures
        result == Ok::<u64, ScanError>(target_id) <==> names_target(encode_utf8(path@), target_id),
        result == Err::<u64, ScanError>(ScanError::InvalidTargetPath) <==> forall|
            start: int,
            end: int,
        | #[trigger]
            is_last_name(encode_utf8(path@), start, end) ==> leads_up(
                encode_utf8(path@),
                start,
                end,
            ),
        match result {
            Ok(_) => true,
            Err(error) => error == ScanError::InvalidTargetPath || error is InvalidTargetId,
        },
{
    lemma_target_id_of(encode_utf8(path@), target_id);
}

/// Whether digits are an identifier in sixteen lower-case hexadecimal digits.
pub open spec fn are_id_digits(digits: Seq<u8>, target_id: u64) -> bool {
    &&& digits.len() == 16
    &&& forall|i: int|
        0 <= i < 16 ==> 48 <= #[trigger] digits[i] <= 57 || 97 <= digits[i] <= 102
    &&& lower_hex_value(digits) == target_id
}

/// The path of a target is its directory, a slash where the directory is not empty and has none at
/// its end, the identifier in sixteen lower-case hexadecimal digits, and the extension behind a dot
/// where it is not empty.
pub proof fn law_targets_are_named_by_their_ids(
    directory: &[u8],
    target_id: u64,
    extension: Option<&[u8]>,
    path: Vec<u8>,
)
    requires
        call_ensures(target_path, (directory, target_id, extension), path),
    ensures
        exists|digits: Seq<u8>|
            {
                let head = if directory@.len() > 0 && directory@.last() != 47 {
                    directory@.push(47)
                } else {
                    directory@
                };
                let tail = match extension {
                    Some(bytes) => if bytes@.len() > 0 {
                        seq![46u8] + bytes@
                    } else {
                        Seq::empty()
                    },
                    None => Seq::empty(),
                };
                &&& #[trigger] are_id_digits(digits, target_id)
                &&& path@ == head + digits + tail
            },
{
    let digits = crate::numbers::hex_digits(target_id as nat, 16);
    lemma_hex_value(target_id as nat, 16);
    assert(target_id < crate::promises::values::hex_range(16)) by {
        reveal_with_fuel(crate::promises::values::hex_range, 17);
    }
    assert forall|i: int| 0 <= i < 16 implies 48 <= #[trigger] digits[i] <= 57 || 97 <= digits[i]
        <= 102 by {
        let digit = digits[i];
    }
    assert(are_id_digits(digits, target_id));
    let head = if directory@.len() > 0 && directory@.last() != 47 {
        directory@.push(47)
    } else {
        directory@
    };
    let tail = match extension {
        Some(bytes) => if bytes@.len() > 0 {
            seq![46u8] + bytes@
        } else {
            Seq::empty()
        },
        None => Seq::empty(),
    };
    assert(path@ =~= head + digits + tail);
}

} // verus!
