//! Rule corpora: which files they are made of, and whether their findings depend on the contents
//! of a file alone.

use vstd::prelude::*;
use vstd::utf8::*;

use crate::engine::REPORTED_STDERR_CHARS;
use crate::error::ScanError;
use crate::models::OpenGrepRulesResponse;
use crate::paths::{plain_relative, safe_relative_path};
use crate::text::{
    chars_of, count_matches, joined, normalize_whitespace, occurrences, truncate, truncated,
    utf8_text, views, words,
};

verus! {

/// A file of a rule corpus.
#[derive(Debug, PartialEq)]
pub struct RuleFile {
    /// Where the file goes, relative to the directory of the corpus.
    pub path: String,
    /// What the file holds.
    pub contents: String,
}

/// Whether the path of every rule file stays below the directory of the corpus.
pub open spec fn safe_corpus(rules: Seq<(String, String)>) -> bool {
    forall|i: int|
        0 <= i < rules.len() ==> plain_relative(encode_utf8((#[trigger] rules[i]).0@))
}

/// The files that a rule corpus is made of.
pub fn materialize_rules(response: &OpenGrepRulesResponse) -> (result: Result<
    Vec<RuleFile>,
    ScanError,
>)
    ensures
        match result {
            Ok(files) => {
                &&& response.rules@.len() > 0
                &&& safe_corpus(response.rules@)
                &&& files@.len() == response.rules@.len()
                &&& forall|i: int|
                    0 <= i < files@.len() ==> {
                        &&& (#[trigger] files@[i]).path@ == response.rules@[i].0@
                        &&& files@[i].contents@ == response.rules@[i].1@
                    }
                &&& response.wf() ==> forall|i: int, j: int|
                    0 <= i < j < files@.len() ==> (#[trigger] files@[i]).path@ != (
                    #[trigger] files@[j]).path@
            },
            Err(error) => if response.rules@.len() == 0 {
                error == ScanError::EmptyRules
            } else {
                exists|i: int|
                    {
                        &&& 0 <= i < response.rules@.len()
                        &&& safe_corpus(#[trigger] response.rules@.take(i))
                        &&& !plain_relative(encode_utf8(response.rules@[i].0@))
                        &&& error == (if encode_utf8(response.rules@[i].0@).len() == 0 {
                            ScanError::EmptyPath
                        } else {
                            ScanError::UnsafePath
                        })
                    }
            },
        },
{
    if response.rules.len() == 0 {
        return Err(ScanError::EmptyRules);
    }
    let mut files: Vec<RuleFile> = Vec::new();
    let mut i: usize = 0;
    while i < response.rules.len()
        invariant
            response.rules@.len() > 0,
            i <= response.rules@.len(),
            files@.len() == i,
            safe_corpus(response.rules@.take(i as int)),
            forall|j: int|
                0 <= j < i ==> {
                    &&& (#[trigger] files@[j]).path@ == response.rules@[j].0@
                    &&& files@[j].contents@ == response.rules@[j].1@
                },
        decreases response.rules@.len() - i,
    {
        let path = match safe_relative_path(response.rules[i].0.as_str()) {
            Ok(path) => path,
            Err(error) => {
                assert(safe_corpus(response.rules@.take(i as int)));
                return Err(error);
            },
        };
        assert forall|j: int| 0 <= j < i + 1 implies plain_relative(
            encode_utf8((#[trigger] response.rules@.take(i + 1)[j]).0@),
        ) by {
            if j < i {
                assert(response.rules@.take(i as int)[j] == response.rules@[j]);
            }
        }
        files.push(RuleFile { path, contents: response.rules[i].1.clone() });
        i += 1;
    }
    assert(response.rules@.take(response.rules@.len() as int) == response.rules@);
    Ok(files)
}

/// The arguments that the engine is called with to print a rule corpus.
pub fn inspection_arguments(rules_directory: Vec<u8>) -> (result: Result<Vec<String>, ScanError>)
    ensures
        match result {
            Ok(arguments) => {
                &&& valid_utf8(rules_directory@)
                &&& views(arguments@) == seq![
                    "show"@,
                    "dump-config"@,
                    decode_utf8(rules_directory@),
                ]
            },
            Err(error) => !valid_utf8(rules_directory@) && error == ScanError::RulePathNotUtf8,
        },
{
    let rules = match utf8_text(rules_directory) {
        Ok(text) => text,
        Err(_) => return Err(ScanError::RulePathNotUtf8),
    };
    let mut arguments: Vec<String> = Vec::new();
    arguments.push("show".to_owned());
    arguments.push("dump-config".to_owned());
    arguments.push(rules);
    assert(views(arguments@) =~= seq![
        "show"@,
        "dump-config"@,
        decode_utf8(rules_directory@),
    ]);
    Ok(arguments)
}

/// Fails where the inspection of the rules did, with the start of what it printed.
pub fn check_inspection_exit(success: bool, status: &str, stderr: &str) -> (result: Result<
    (),
    ScanError,
>)
    ensures
        match result {
            Ok(()) => success,
            Err(error) => {
                &&& !success
                &&& error matches ScanError::InspectionExit { status: given, stderr: shown }
                &&& given@ == status@
                &&& shown@ == truncated(stderr@, REPORTED_STDERR_CHARS as nat)
            },
        },
{
    if success {
        Ok(())
    } else {
        Err(
            ScanError::InspectionExit {
                status: status.to_owned(),
                stderr: truncate(stderr, REPORTED_STDERR_CHARS),
            },
        )
    }
}

/// How many rules a printed corpus lists.
pub open spec fn rule_count(printed: Seq<char>) -> nat {
    occurrences(printed, "Rule.id = ("@, 0)
}

/// Whether as many rules of a printed corpus as it lists have each property that makes their
/// findings depend on the contents of a file alone: no path filter, options, dependencies or
/// validators, and plain search or taint rules for single files.
pub open spec fn content_only(printed: Seq<char>) -> bool {
    let count = rule_count(printed);
    let line = joined(words(printed), seq![' ']);
    &&& count == occurrences(line, "paths = None;"@, 0)
    &&& count == occurrences(line, "options = None;"@, 0)
    &&& count == occurrences(line, "dependency_formula = None;"@, 0)
    &&& count == occurrences(line, "validators = None;"@, 0)
    &&& count == occurrences(line, "product = `SAST;"@, 0)
    &&& count == occurrences(line, "mode = `Search"@, 0) + occurrences(line, "mode = `Taint"@, 0)
}

/// Whether results may be reused for files with the same contents, from the printed corpus.
pub fn rules_allow_content_reuse(parsed_rules: &str) -> (result: Result<bool, ScanError>)
    ensures
        match result {
            Ok(allowed) => rule_count(parsed_rules@) > 0 && allowed == content_only(parsed_rules@),
            Err(error) => rule_count(parsed_rules@) == 0 && error == ScanError::NoRules,
        },
{
    proof {
        reveal_strlit("Rule.id = (");
        reveal_strlit("paths = None;");
        reveal_strlit("options = None;");
        reveal_strlit("dependency_formula = None;");
        reveal_strlit("validators = None;");
        reveal_strlit("product = `SAST;");
        reveal_strlit("mode = `Search");
        reveal_strlit("mode = `Taint");
    }
    let printed = chars_of(parsed_rules);
    let count: usize = count_matches(printed.as_slice(), "Rule.id = (");
    if count == 0 {
        return Err(ScanError::NoRules);
    }
    let normalized = normalize_whitespace(parsed_rules);
    let line = chars_of(normalized.as_str());
    let chars: &[char] = line.as_slice();
    // Options can enable analysis across files; dependencies, validators and other modes can
    // depend on the package even where paths are unrestricted.
    if count != count_matches(chars, "paths = None;") || count != count_matches(
        chars,
        "options = None;",
    ) || count != count_matches(chars, "dependency_formula = None;") || count != count_matches(
        chars,
        "validators = None;",
    ) || count != count_matches(chars, "product = `SAST;") {
        return Ok(false);
    }
    let search: usize = count_matches(chars, "mode = `Search");
    let taint: usize = count_matches(chars, "mode = `Taint");
    Ok(search <= count && taint == count - search)
}

} // verus!
