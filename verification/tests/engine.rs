//! The engine's report and its faults.

use dragonfly_opengrep::content::{content_findings, same_content};
use dragonfly_opengrep::engine::{
    check_engine_exit, describe_recoverable_scan_warning, is_recoverable_scan_warning,
    read_bounded, run_from_document, scan_arguments, wait_for_child, ChildStep, OpenGrepDocument,
    ReportedError, ScannedPaths, RULE_INSPECTION_DEADLINE_NS, SCAN_DEADLINE_NS,
};
use dragonfly_opengrep::error::{Deadline, ScanError, MAX_FINDINGS, MAX_OPENGREP_OUTPUT_BYTES};
use dragonfly_opengrep::findings::{
    append_findings, build_inspector_url, normalize_finding, rewrite_finding_location,
    FindingExtra, FindingMetadata, Position, RawFinding, MAX_INSPECTOR_URL_BYTES,
    MAX_MESSAGE_BYTES,
};
use dragonfly_opengrep::json::Json;
use dragonfly_opengrep::models::{OpenGrepFinding, OpenGrepRulesResponse};
use dragonfly_opengrep::rules::{
    check_inspection_exit, inspection_arguments, materialize_rules, rules_allow_content_reuse,
};

fn raw_finding(check_id: &str, path: &str, message: &str) -> RawFinding {
    RawFinding {
        check_id: check_id.to_owned(),
        path: path.as_bytes().to_vec(),
        start: Position { line: 3 },
        end: Position { line: 5 },
        extra: FindingExtra {
            message: message.to_owned(),
            severity: "WARNING".to_owned(),
            metadata: FindingMetadata {
                evidence: "composition".to_owned(),
                confidence: "high".to_owned(),
                execution_context: "import_time".to_owned(),
            },
        },
    }
}

fn finding(rule_id: &str, path: &str, line: u64) -> OpenGrepFinding {
    OpenGrepFinding {
        rule_id: rule_id.to_owned(),
        path: path.to_owned(),
        start_line: line,
        end_line: line,
        message: "message".to_owned(),
        severity: "ERROR".to_owned(),
        evidence: "composition".to_owned(),
        confidence: "high".to_owned(),
        execution_context: "import_time".to_owned(),
        inspector_url: format!("https://inspector.example/{path}"),
    }
}

fn text(value: &str) -> Json {
    Json::Text(value.to_owned())
}

fn object(members: Vec<(&str, Json)>) -> Json {
    Json::Object(
        members
            .into_iter()
            .map(|(key, value)| (key.to_owned(), value))
            .collect(),
    )
}

fn run(document: OpenGrepDocument) -> Result<usize, ScanError> {
    run_from_document(document, b"/target", "https://inspector.example/")
        .map(|run| run.findings.len())
}

fn document(
    results: Vec<RawFinding>,
    errors: Vec<ReportedError>,
    skipped_rules: Vec<String>,
    scanned: Vec<&str>,
) -> OpenGrepDocument {
    OpenGrepDocument {
        paths: ScannedPaths {
            scanned: scanned.iter().map(|path| path.as_bytes().to_vec()).collect(),
        },
        results,
        errors,
        skipped_rules,
    }
}

#[test]
fn findings_are_normalized() {
    let raw = raw_finding("tmp.rules.python-exec", "/target/pkg/a.py", "Dynamic execution.");
    let found = normalize_finding(raw, b"/target", "https://inspector.example/p/").unwrap();
    assert_eq!(
        found,
        OpenGrepFinding {
            rule_id: "python-exec".to_owned(),
            path: "pkg/a.py".to_owned(),
            start_line: 3,
            end_line: 5,
            message: "Dynamic execution.".to_owned(),
            severity: "WARNING".to_owned(),
            evidence: "composition".to_owned(),
            confidence: "high".to_owned(),
            execution_context: "import_time".to_owned(),
            inspector_url: "https://inspector.example/p/pkg/a.py".to_owned(),
        }
    );
}

#[test]
fn findings_are_bounded() {
    let base = "https://inspector.example/";
    let fits = "m".repeat(MAX_MESSAGE_BYTES);
    assert!(normalize_finding(raw_finding("r", "a", &fits), b"/t", base).is_ok());
    let long = "m".repeat(MAX_MESSAGE_BYTES + 1);
    assert!(matches!(
        normalize_finding(raw_finding("r", "a", &long), b"/t", base),
        Err(ScanError::MessageTooLong)
    ));
    // The path is looked at before the message, and the message before the URL.
    assert!(matches!(
        normalize_finding(raw_finding("r", "../a", &long), b"/t", base),
        Err(ScanError::UnsafePath)
    ));
    let long_base = "b".repeat(MAX_INSPECTOR_URL_BYTES);
    assert!(matches!(
        normalize_finding(raw_finding("r", "a", &long), b"/t", &long_base),
        Err(ScanError::MessageTooLong)
    ));
    assert!(matches!(
        normalize_finding(raw_finding("r", "a", "m"), b"/t", &long_base),
        Err(ScanError::InspectorUrlTooLong)
    ));
    assert_eq!(build_inspector_url(&long_base[1..], "a").unwrap().len(), 2048);
}

#[test]
fn findings_are_moved() {
    let canonical = finding("r", "0000000000000001.py", 7);
    let moved = rewrite_finding_location(&canonical, "b/c.py", "https://i.example/").unwrap();
    let expected = OpenGrepFinding {
        path: "b/c.py".to_owned(),
        inspector_url: "https://i.example/b/c.py".to_owned(),
        ..canonical.clone()
    };
    assert_eq!(moved, expected);
    assert!(matches!(
        rewrite_finding_location(&canonical, &"p".repeat(1025), "https://i.example/"),
        Err(ScanError::PathTooLong)
    ));
    assert!(matches!(
        rewrite_finding_location(&canonical, "p", &"b".repeat(2048)),
        Err(ScanError::InspectorUrlTooLong)
    ));
}

#[test]
fn findings_are_counted() {
    let mut findings = vec![finding("r", "a", 1); MAX_FINDINGS - 1];
    append_findings(&mut findings, vec![finding("r", "b", 1)]).unwrap();
    assert_eq!(findings.len(), MAX_FINDINGS);
    assert_eq!(findings[MAX_FINDINGS - 1].path, "b");
    append_findings(&mut findings, Vec::new()).unwrap();
    assert!(matches!(
        append_findings(&mut findings, vec![finding("r", "c", 1)]),
        Err(ScanError::TooManyFindings)
    ));
    assert_eq!(findings.len(), MAX_FINDINGS);
}

#[test]
fn contents_are_compared_without_places_and_order() {
    let first = [finding("r", "a", 1), finding("s", "b", 2), finding("r", "c", 1)];
    let second = [finding("s", "x", 2), finding("r", "y", 1), finding("r", "z", 1)];
    assert!(same_content(&first, &second));
    assert!(same_content(&[], &[]));
    assert!(!same_content(&first, &second[..2]));
    let third = [finding("s", "x", 2), finding("s", "y", 2), finding("r", "z", 1)];
    assert!(!same_content(&first, &third));
    assert!(!same_content(&[finding("r", "a", 1)], &[finding("r", "a", 2)]));
    assert_eq!(content_findings(&first), content_findings(&second));
    assert_ne!(content_findings(&first), content_findings(&third));
}

#[test]
fn contents_are_json_texts() {
    let found = OpenGrepFinding {
        rule_id: "r\"\\/".to_owned(),
        path: "p".to_owned(),
        start_line: 0,
        end_line: u64::MAX,
        message: "\u{8}\t\n\u{c}\r".to_owned(),
        severity: "\u{0}\u{1f}\u{7f}".to_owned(),
        evidence: "\u{e9}\u{1f600}".to_owned(),
        confidence: String::new(),
        execution_context: "a b".to_owned(),
        inspector_url: "u".to_owned(),
    };
    let expected = [
        "{\"rule_id\":\"r\\\"\\\\/\",\"path\":\"\",",
        "\"start_line\":0,\"end_line\":18446744073709551615,",
        "\"message\":\"\\b\\t\\n\\f\\r\",\"severity\":\"\\u0000\\u001f\u{7f}\",",
        "\"evidence\":\"\u{e9}\u{1f600}\",\"confidence\":\"\",",
        "\"execution_context\":\"a b\",\"inspector_url\":\"\"}",
    ];
    assert_eq!(content_findings(&[found]), [expected.concat()]);
    assert!(content_findings(&[]).is_empty());
}

#[test]
fn contents_that_differ_have_different_texts() {
    // The quotation marks and commas of one text do not pass for those of another.
    let found = finding("r", "p", 5);
    let joined = OpenGrepFinding {
        rule_id: "r\",\"path\":\"".to_owned(),
        ..found.clone()
    };
    assert!(!same_content(&[found.clone()], &[joined]));
    let moved = OpenGrepFinding {
        message: "message\",\"severity\":\"ERROR".to_owned(),
        severity: String::new(),
        ..found.clone()
    };
    assert!(!same_content(&[found.clone()], &[moved]));
    let longer = OpenGrepFinding { start_line: 55, ..found.clone() };
    assert!(!same_content(&[found.clone()], &[longer]));
    let fields: [fn(&mut OpenGrepFinding) -> &mut String; 6] = [
        |found| &mut found.rule_id,
        |found| &mut found.message,
        |found| &mut found.severity,
        |found| &mut found.evidence,
        |found| &mut found.confidence,
        |found| &mut found.execution_context,
    ];
    for field in fields {
        let mut other = found.clone();
        field(&mut other).push('\u{0}');
        assert!(!same_content(&[found.clone()], &[other]));
    }
}

#[test]
fn contents_come_in_the_order_of_their_texts() {
    let base = finding("b", "p", 5);
    let findings = vec![
        OpenGrepFinding { execution_context: "z".to_owned(), ..base.clone() },
        OpenGrepFinding { rule_id: "\u{e9}".to_owned(), ..base.clone() },
        // Numbers are ordered by their digits.
        OpenGrepFinding { start_line: 10, ..base.clone() },
        OpenGrepFinding { message: "a".to_owned(), ..base.clone() },
        // An exclamation mark comes before the quotation mark that ends a text.
        OpenGrepFinding { rule_id: "b!".to_owned(), ..base.clone() },
        OpenGrepFinding { rule_id: "b#".to_owned(), ..base.clone() },
        OpenGrepFinding { rule_id: "\u{1}".to_owned(), ..base.clone() },
        OpenGrepFinding { rule_id: "a".to_owned(), start_line: 99, ..base.clone() },
        base.clone(),
        base,
    ];
    let mut given = findings.clone();
    let texts = content_findings(&given);
    let mut expected: Vec<String> =
        findings.iter().flat_map(|found| content_findings(&[found.clone()])).collect();
    expected.sort();
    for _ in 0..given.len() {
        assert_eq!(content_findings(&given), expected);
        given.rotate_left(1);
    }
    let place = |part: &str| texts.iter().position(|text| text.contains(part)).unwrap();
    assert!(texts[0].contains("\\u0001"));
    assert!(place("\"b!\"") < place("\"rule_id\":\"b\""));
    assert!(place("\"rule_id\":\"b\"") < place("\"b#\""));
    assert!(place("\"start_line\":10") < place("\"message\":\"a\""));
    assert!(texts.last().unwrap().contains("\u{e9}"));
    given.pop();
    assert_ne!(content_findings(&given), expected);
}

#[test]
fn reports_with_other_errors_are_void() {
    let error = |level: &str| ReportedError {
        value: object(vec![("level", text(level)), ("type", text("Timeout"))]),
        text: format!("{{\"level\":\"{level}\",\"type\":\"Timeout\"}}"),
    };
    let errors = vec![error("warn"), error("error"), error("fatal")];
    let result = run(document(
        vec![raw_finding("r", "a", "m")],
        errors,
        Vec::new(),
        Vec::new(),
    ));
    match result {
        Err(error @ ScanError::EngineErrors(_)) => assert_eq!(
            error.message(),
            "OpenGrep reported scan errors: [{\"level\":\"error\",\"type\":\"Timeout\"},\
             {\"level\":\"fatal\",\"type\":\"Timeout\"}]"
        ),
        _ => panic!("the report is void"),
    }
}

#[test]
fn reports_with_skipped_rules_are_void() {
    let skipped = vec!["\"a\"".to_owned(), "1".to_owned()];
    let result = run(document(vec![raw_finding("r", "a", "m")], Vec::new(), skipped, Vec::new()));
    match result {
        Err(error @ ScanError::SkippedRules(_)) => {
            assert_eq!(error.message(), "OpenGrep skipped rules: [\"a\",1]");
        }
        _ => panic!("the report is void"),
    }
}

#[test]
fn the_first_fault_of_a_report_counts() {
    // Scanned paths are looked at before findings.
    let faulty = document(
        vec![raw_finding("r", "/other/a", "m")],
        Vec::new(),
        Vec::new(),
        vec!["ok.py", "../a"],
    );
    assert!(matches!(run(faulty), Err(ScanError::UnsafePath)));
    let faulty = document(
        vec![raw_finding("r", "ok.py", "m"), raw_finding("r", "/other/a", "m")],
        Vec::new(),
        Vec::new(),
        vec!["ok.py"],
    );
    assert!(matches!(run(faulty), Err(ScanError::PrefixNotFound)));
}

#[test]
fn scanned_paths_are_collected() {
    let report = document(
        Vec::new(),
        Vec::new(),
        Vec::new(),
        vec!["/target/a.py", "b.py", "/target/a.py"],
    );
    let run = run_from_document(report, b"/target", "https://inspector.example/").ok().unwrap();
    assert!(run.scanned_paths.contains("a.py"));
    assert!(run.scanned_paths.contains("b.py"));
    assert!(!run.scanned_paths.contains("c.py"));
    assert!(run.findings.is_empty());
}

#[test]
fn recoverable_warnings_are_told_apart() {
    let timeout = object(vec![("level", text("warn")), ("type", text("Timeout"))]);
    let partial = object(vec![
        ("level", text("warn")),
        ("type", Json::Array(vec![text("PartialParsing"), Json::Array(Vec::new())])),
    ]);
    assert!(is_recoverable_scan_warning(&timeout));
    assert!(is_recoverable_scan_warning(&partial));
    for other in [
        Json::Other,
        object(vec![("type", text("Timeout"))]),
        object(vec![("level", text("error")), ("type", text("Timeout"))]),
        object(vec![("level", text("warn")), ("type", text("PartialParsing"))]),
        object(vec![("level", text("warn")), ("type", Json::Array(vec![text("Timeout")]))]),
        object(vec![("level", text("warn")), ("type", Json::Array(Vec::new()))]),
        object(vec![("level", text("warn"))]),
        object(vec![("level", Json::Other), ("type", text("Timeout"))]),
    ] {
        assert!(!is_recoverable_scan_warning(&other));
    }
}

#[test]
fn recoverable_warnings_are_described() {
    let timeout = |rule_id: Json| {
        describe_recoverable_scan_warning(&object(vec![
            ("type", text("Timeout")),
            ("rule_id", rule_id),
        ]))
    };
    assert_eq!(timeout(text("rules.python.exec")), "OpenGrep rule exec timed out");
    assert_eq!(timeout(text("exec")), "OpenGrep rule exec timed out");
    assert_eq!(timeout(Json::Other), "OpenGrep rule timed out");
    let long = "x".repeat(300);
    assert_eq!(timeout(text(&long)), format!("OpenGrep rule {} timed out", "x".repeat(200)));
    let partial = |path: Json| {
        describe_recoverable_scan_warning(&object(vec![("path", path)]))
    };
    assert_eq!(partial(text("/tmp/t/other.py")), "OpenGrep partially parsed other.py");
    assert_eq!(partial(text("dir/")), "OpenGrep partially parsed ");
    assert_eq!(partial(Json::Other), "OpenGrep partially parsed a target file");
    assert_eq!(partial(text(&long)), format!("OpenGrep partially parsed {}", "x".repeat(256)));
}

#[test]
fn programs_are_waited_for_within_bounds() {
    let limit = MAX_OPENGREP_OUTPUT_BYTES;
    let step = |exited, stdout, stderr, elapsed| {
        wait_for_child(exited, stdout, stderr, elapsed, SCAN_DEADLINE_NS, Deadline::Scan)
    };
    assert!(matches!(step(true, limit + 1, 0, SCAN_DEADLINE_NS), ChildStep::Finished));
    assert!(matches!(step(false, limit, limit, SCAN_DEADLINE_NS - 1), ChildStep::Wait));
    assert!(matches!(
        step(false, 0, limit + 1, SCAN_DEADLINE_NS),
        ChildStep::Kill(ScanError::OutputTooLarge)
    ));
    assert!(matches!(
        step(false, 0, 0, SCAN_DEADLINE_NS),
        ChildStep::Kill(ScanError::Timeout(Deadline::Scan))
    ));
    assert_eq!(SCAN_DEADLINE_NS, 60_000_000_000);
    assert_eq!(RULE_INSPECTION_DEADLINE_NS, 10_000_000_000);
    assert_eq!(limit, 4 * 1024 * 1024);
}

#[test]
fn output_is_bounded_text() {
    assert_eq!(read_bounded("\u{e9}a".as_bytes().to_vec()).unwrap(), "\u{e9}a");
    let limit = MAX_OPENGREP_OUTPUT_BYTES as usize;
    assert_eq!(read_bounded(vec![b'a'; limit]).unwrap().len(), limit);
    assert!(matches!(read_bounded(vec![b'a'; limit + 1]), Err(ScanError::OutputTooLarge)));
    let bytes = b"a\xffb".to_vec();
    let expected = String::from_utf8(bytes.clone()).unwrap_err().to_string();
    match read_bounded(bytes) {
        Err(ScanError::OutputNotUtf8(reason)) => assert_eq!(reason, expected),
        _ => panic!("the output is not UTF-8"),
    }
}

#[test]
fn a_failed_engine_is_reported() {
    assert!(check_engine_exit(true, "exit status: 0", "noise").is_ok());
    let error = check_engine_exit(false, "exit status: 2", &"e".repeat(2000)).unwrap_err();
    assert_eq!(
        error.message(),
        format!("OpenGrep exited with exit status: 2: {}", "e".repeat(1024))
    );
    assert!(check_inspection_exit(true, "exit status: 0", "").is_ok());
    let error = check_inspection_exit(false, "exit status: 1", "bad rule").unwrap_err();
    assert_eq!(
        error.message(),
        "OpenGrep rule inspection exited with exit status: 1: bad rule"
    );
}

#[test]
fn the_engine_is_called_with_fixed_arguments() {
    let arguments = scan_arguments(b"/rules".to_vec(), b"/target".to_vec(), 16_777_216).unwrap();
    assert_eq!(
        arguments,
        [
            "scan", "--config", "/rules", "--json", "--no-git-ignore", "--jobs", "1", "--timeout",
            "5", "--max-target-bytes", "16777216", "/target",
        ]
    );
    assert!(matches!(
        scan_arguments(b"\xff".to_vec(), b"\xff".to_vec(), 1),
        Err(ScanError::RulePathNotUtf8)
    ));
    assert!(matches!(
        scan_arguments(b"/rules".to_vec(), b"\xff".to_vec(), 1),
        Err(ScanError::TargetPathNotUtf8)
    ));
    let inspection = inspection_arguments(b"/rules".to_vec()).unwrap();
    assert_eq!(inspection, ["show", "dump-config", "/rules"]);
    assert!(matches!(
        inspection_arguments(b"\xff".to_vec()),
        Err(ScanError::RulePathNotUtf8)
    ));
}

fn corpus(rules: Vec<(&str, &str)>) -> OpenGrepRulesResponse {
    OpenGrepRulesResponse {
        hash: "commit".to_owned(),
        rules: rules
            .into_iter()
            .map(|(path, contents)| (path.to_owned(), contents.to_owned()))
            .collect(),
    }
}

#[test]
fn unsafe_corpora_are_refused() {
    assert!(matches!(materialize_rules(&corpus(Vec::new())), Err(ScanError::EmptyRules)));
    assert!(matches!(
        materialize_rules(&corpus(vec![("a.yml", ""), ("", "")])),
        Err(ScanError::EmptyPath)
    ));
    assert!(matches!(
        materialize_rules(&corpus(vec![("a.yml", ""), ("../a.yml", "")])),
        Err(ScanError::UnsafePath)
    ));
    let files = materialize_rules(&corpus(vec![("a.yml", "x"), ("b/c.yml", "y")])).unwrap();
    assert_eq!(files.len(), 2);
    assert_eq!(files[1].path, "b/c.yml");
    assert_eq!(files[1].contents, "y");
}

/// A rule as the engine prints it, with one property replaced.
fn rule(from: &str, to: &str) -> String {
    let plain = "Rule.id = (r); mode = `Taint t; paths = None; options = None; \
                 dependency_formula = None; validators = None; product = `SAST; ";
    plain.replace(from, to)
}

#[test]
fn only_plain_corpora_allow_content_reuse() {
    let plain = rule("", "");
    let search = rule("`Taint", "`Search");
    assert!(rules_allow_content_reuse(&plain).unwrap());
    assert!(rules_allow_content_reuse(&search).unwrap());
    assert!(rules_allow_content_reuse(&format!("{plain}{search}")).unwrap());
    assert!(rules_allow_content_reuse(&plain.replace(' ', "\n\t ").replace("Rule.id\n\t =\n\t (", "Rule.id = (")).unwrap());
    for (from, to) in [
        ("paths = None;", "paths = Some p;"),
        ("options = None;", "options = Some o;"),
        ("dependency_formula = None;", "dependency_formula = Some d;"),
        ("validators = None;", "validators = Some v;"),
        ("product = `SAST;", "product = `Secrets;"),
        ("mode = `Taint", "mode = `Extract"),
        ("mode = `Taint", "mode = `Taint; mode = `Search"),
    ] {
        let other = rule(from, to);
        assert!(!rules_allow_content_reuse(&other).unwrap());
        assert!(!rules_allow_content_reuse(&format!("{plain}{other}")).unwrap());
    }
    assert!(matches!(rules_allow_content_reuse("no rules"), Err(ScanError::NoRules)));
    // The rules are counted before the white space is normalized.
    assert!(matches!(
        rules_allow_content_reuse(&plain.replace("Rule.id =", "Rule.id  =")),
        Err(ScanError::NoRules)
    ));
}
