//! Canonical targets, and the way back to the files.

use std::path::Path;

use dragonfly_opengrep::error::{ensure_scan_time_remaining, Deadline, ScanError, MAX_FINDINGS};
use dragonfly_opengrep::expansion::FindingExpansion;
use dragonfly_opengrep::identities::IdentityMap;
use dragonfly_opengrep::identity::{ContentHasher, FileIdentity};
use dragonfly_opengrep::index::{KeyIndex, TextSet};
use dragonfly_opengrep::models::OpenGrepFinding;
use dragonfly_opengrep::order::sort;
use dragonfly_opengrep::package::{
    admit_file, DistributionPlanner, PackageTarget, PlannedTarget, SourceFile, TargetAlias,
    TargetLink,
};
use dragonfly_opengrep::path_order::path_at_or_before;

const LIMIT: u64 = 1000;

fn file(path: &str, size: u64, digest: u128) -> SourceFile {
    SourceFile { path: path.as_bytes().to_vec(), size, digest, reached: 5 }
}

fn finding(path: &str, line: u64) -> OpenGrepFinding {
    OpenGrepFinding {
        rule_id: "r".to_owned(),
        path: path.to_owned(),
        start_line: line,
        end_line: line,
        message: "m".to_owned(),
        severity: "ERROR".to_owned(),
        evidence: "composition".to_owned(),
        confidence: "high".to_owned(),
        execution_context: "import_time".to_owned(),
        inspector_url: format!("https://opengrep-target.invalid/{path}"),
    }
}

fn alias(target_id: u64, distribution_index: usize, path: &str) -> TargetAlias {
    TargetAlias { target_id, distribution_index, path: path.to_owned() }
}

#[test]
fn files_are_targets_by_digest_size_and_extension() {
    let mut package = PackageTarget::new(b"/t".to_vec());
    let files = vec![
        file("/d/a.py", 10, 1),
        file("/d/b.py", 10, 1),
        file("/d/c.js", 10, 1),
        file("/d/d.py", 11, 1),
        file("/d/e.py", 10, 2),
        file("/d/f", 10, 1),
    ];
    let plan = package.plan_distribution(b"/d", files, LIMIT, 10).unwrap();
    let targets: Vec<PlannedTarget> = plan.aliases.iter().map(|alias| alias.target).collect();
    assert_eq!(
        targets,
        [
            PlannedTarget::Pending(0),
            PlannedTarget::Pending(0),
            PlannedTarget::Pending(1),
            PlannedTarget::Pending(2),
            PlannedTarget::Pending(3),
            PlannedTarget::Pending(4),
        ]
    );
    let commit = package.commit_distribution(plan, "https://i/1/".to_owned()).unwrap();
    assert_eq!(package.target_count(), 5);
    assert_eq!(package.deduplicated_files(), 1);
    assert_eq!(
        commit.links[1],
        TargetLink {
            source: b"/d/c.js".to_vec(),
            destination: b"/t/0000000000000001.js".to_vec(),
        }
    );
    assert_eq!(commit.links[4].destination, b"/t/0000000000000004");
    assert_eq!(commit.aliases[1], alias(0, 0, "b.py"));

    // What is known keeps its target, and new targets follow.
    let files = vec![file("/e/x.py", 10, 2), file("/e/y.py", 10, 3), file("/e/z.py", 10, 3)];
    let plan = package.plan_distribution(b"/e", files, LIMIT, 10).unwrap();
    assert_eq!(plan.aliases[0].target, PlannedTarget::Existing(3));
    assert_eq!(plan.aliases[2].target, PlannedTarget::Pending(0));
    let commit = package.commit_distribution(plan, "https://i/2/".to_owned()).unwrap();
    assert_eq!(
        commit.aliases,
        [alias(3, 1, "x.py"), alias(5, 1, "y.py"), alias(5, 1, "z.py")]
    );
    assert_eq!(package.target_count(), 6);
    assert_eq!(package.deduplicated_files(), 3);
    assert_eq!(package.identities().len(), 6);
    assert_eq!(package.inspector(1), Some("https://i/2/"));
    assert_eq!(package.inspector(2), None);
}

#[test]
fn large_files_are_left_out() {
    let admitted = |path: &str, size| admit_file(path.as_bytes(), b"/d", size, LIMIT);
    assert_eq!(admitted("/d/a.py", LIMIT).unwrap().as_deref(), Some("a.py"));
    assert_eq!(admitted("/d/a.py", LIMIT + 1).unwrap(), None);
    assert_eq!(admitted("/other/a.py", LIMIT + 1).unwrap(), None);
    assert!(matches!(admitted("/other/a.py", 1), Err(ScanError::PrefixNotFound)));
    let package = PackageTarget::new(b"/t".to_vec());
    let files = vec![file("/d/a.py", LIMIT + 1, 1), file("/d/b.py", 1, 1)];
    let plan = package.plan_distribution(b"/d", files, LIMIT, 10).unwrap();
    assert_eq!(plan.aliases.len(), 1);
    assert_eq!(plan.pending[0].source, b"/d/b.py");
}

#[test]
fn the_first_fault_ends_a_plan() {
    let package = PackageTarget::new(b"/t".to_vec());
    let late = SourceFile { reached: 10, ..file("/d/b.py", 1, 2) };
    let files = vec![file("/d/a.py", 1, 1), late, file("/other/c.py", 1, 3)];
    assert!(matches!(
        package.plan_distribution(b"/d", files, LIMIT, 10),
        Err(ScanError::Timeout(Deadline::Preparation))
    ));
    let files = vec![file("/d/a.py", 1, 1), file("/other/c.py", 1, 3)];
    assert!(matches!(
        package.plan_distribution(b"/d", files, LIMIT, 10),
        Err(ScanError::PrefixNotFound)
    ));
    assert!(package.is_empty());
    assert!(ensure_scan_time_remaining(9, 10).is_ok());
    assert!(ensure_scan_time_remaining(10, 10).is_err());
}

#[test]
fn a_plan_grows_file_by_file() {
    let package = PackageTarget::new(b"/t".to_vec());
    let mut planner = DistributionPlanner::new();
    for (path, digest) in [("a", 1), ("b", 2), ("c", 1), ("d", 1 << 64)] {
        let identity = FileIdentity { digest, size: 1, extension: None };
        planner.add(&package, identity, path.as_bytes().to_vec(), path.to_owned());
    }
    let plan = planner.finish();
    assert_eq!(plan.pending.len(), 3);
    assert_eq!(plan.aliases[2].target, PlannedTarget::Pending(0));
    assert_eq!(plan.aliases[3].target, PlannedTarget::Pending(2));
    assert_eq!(plan.aliases[3].path, "d");
}

#[test]
fn findings_are_expanded_in_the_order_of_the_places() {
    let mut package = PackageTarget::new(b"/t".to_vec());
    for (directory, inspector) in [("/d", "https://i/1/"), ("/e", "https://i/2/")] {
        let files = vec![file(&format!("{directory}/a.py"), 1, 1)];
        let plan = package
            .plan_distribution(directory.as_bytes(), files, LIMIT, 10)
            .unwrap();
        package.commit_distribution(plan, inspector.to_owned()).unwrap();
    }
    let aliases = [alias(0, 1, "x.py"), alias(9, 7, "never"), alias(0, 0, "y.py")];
    let findings = vec![finding("0000000000000000.py", 1), finding("0000000000000000.py", 2)];
    let expanded = package.expand_findings(findings, &aliases).unwrap();
    let shown: Vec<(&str, u64, &str)> = expanded
        .iter()
        .map(|found| (found.path.as_str(), found.start_line, found.inspector_url.as_str()))
        .collect();
    assert_eq!(
        shown,
        [
            ("x.py", 1, "https://i/2/x.py"),
            ("x.py", 2, "https://i/2/x.py"),
            ("y.py", 1, "https://i/1/y.py"),
            ("y.py", 2, "https://i/1/y.py"),
        ]
    );
    assert!(package.expand_findings(Vec::new(), &aliases).unwrap().is_empty());
}

#[test]
fn faulty_expansions_fail() {
    let package = PackageTarget::new(b"/t".to_vec());
    assert!(matches!(
        package.expand_findings(vec![finding("0.py", 1)], &[alias(0, 0, "a")]),
        Err(ScanError::UnknownDistribution)
    ));
    assert!(matches!(
        package.expand_findings(vec![finding("x.py", 1)], &[]),
        Err(ScanError::InvalidTargetId(_))
    ));
    assert!(matches!(
        package.expand_findings(vec![finding("..", 1)], &[]),
        Err(ScanError::InvalidTargetPath)
    ));
    let mut package = PackageTarget::new(b"/t".to_vec());
    let plan = package
        .plan_distribution(b"/d", vec![file("/d/a", 1, 1)], LIMIT, 10)
        .unwrap();
    package.commit_distribution(plan, "https://i/".to_owned()).unwrap();
    let many = vec![finding("0", 1); MAX_FINDINGS];
    let once = package.expand_findings(many.clone(), &[alias(0, 0, "a")]).unwrap();
    assert_eq!(once.len(), MAX_FINDINGS);
    assert!(matches!(
        package.expand_findings(many, &[alias(0, 0, "a"), alias(0, 0, "b")]),
        Err(ScanError::TooManyFindings)
    ));
    let long = "p".repeat(1025);
    assert!(matches!(
        package.expand_findings(vec![finding("0", 1)], &[alias(0, 0, &long)]),
        Err(ScanError::PathTooLong)
    ));
}

#[test]
fn an_expansion_goes_place_by_place() {
    let mut package = PackageTarget::new(b"/t".to_vec());
    let plan = package
        .plan_distribution(b"/d", vec![file("/d/a", 1, 1)], LIMIT, 10)
        .unwrap();
    package.commit_distribution(plan, "https://i/".to_owned()).unwrap();
    let expansion = FindingExpansion::new(vec![finding("0", 1)]).ok().unwrap();
    assert!(!expansion.is_empty());
    let expansion = expansion.add(&package, &alias(0, 0, "a")).ok().unwrap();
    let expansion = expansion.add(&package, &alias(1, 0, "b")).ok().unwrap();
    let found = expansion.finish();
    assert_eq!(found.len(), 1);
    assert_eq!(found[0].path, "a");
    assert!(FindingExpansion::new(Vec::new()).ok().unwrap().is_empty());
}

#[test]
fn steps_give_what_the_whole_gives() {
    let mut package = PackageTarget::new(b"/t".to_vec());
    let files = || {
        vec![
            file("/d/a.py", 1, 1),
            file("/d/b.py", 2, 2),
            file("/d/c.py", 1, 1),
            file("/d/d.py", LIMIT + 1, 3),
        ]
    };
    let whole = package.plan_distribution(b"/d", files(), LIMIT, 10).unwrap();
    let mut planner = DistributionPlanner::new();
    for next in files() {
        ensure_scan_time_remaining(next.reached, 10).unwrap();
        if let Some(path) = admit_file(&next.path, b"/d", next.size, LIMIT).unwrap() {
            let identity = FileIdentity {
                digest: next.digest,
                size: next.size,
                extension: Some(b"py".to_vec()),
            };
            planner.add(&package, identity, next.path, path);
        }
    }
    let stepped = planner.finish();
    assert_eq!(format!("{whole:?}"), format!("{stepped:?}"));

    let commit = package.commit_distribution(whole, "https://i/".to_owned()).unwrap();
    let findings = || vec![finding("0000000000000000.py", 1), finding("0000000000000001.py", 2)];
    let whole = package.expand_findings(findings(), &commit.aliases).unwrap();
    let mut expansion = FindingExpansion::new(findings()).ok().unwrap();
    for alias in &commit.aliases {
        expansion = expansion.add(&package, alias).ok().unwrap();
    }
    assert_eq!(expansion.finish(), whole);
    assert_eq!(whole.len(), 3);
}

#[test]
fn kept_findings_expand_like_fresh_ones() {
    let mut package = PackageTarget::new(b"/t".to_vec());
    let files = vec![file("/d/a", 1, 1), file("/d/b", 1, 1)];
    let plan = package.plan_distribution(b"/d", files, LIMIT, 10).unwrap();
    let commit = package.commit_distribution(plan, "https://i/".to_owned()).unwrap();
    let fresh = vec![finding("0000000000000000", 1), finding("0000000000000000", 2)];
    let kept = vec![
        OpenGrepFinding { inspector_url: "old".to_owned(), ..finding("0", 2) },
        OpenGrepFinding { inspector_url: "older".to_owned(), ..finding("0", 1) },
    ];
    let sorted = |findings: Vec<OpenGrepFinding>| {
        let mut shown: Vec<String> = package
            .expand_findings(findings, &commit.aliases)
            .unwrap()
            .iter()
            .map(|found| format!("{found:?}"))
            .collect();
        shown.sort();
        shown
    };
    assert_eq!(sorted(kept), sorted(fresh));
}

#[test]
fn targets_do_not_share_paths() {
    let package = PackageTarget::new(b"/t".to_vec());
    let mut paths = Vec::new();
    for target_id in [0, 1, 16, u64::MAX] {
        for extension in [None, Some(&b""[..]), Some(&b"0"[..]), Some(&b"py"[..])] {
            let path = package.target_path(target_id, extension);
            assert!(!paths.iter().any(|(other, known)| *known == path && *other != target_id));
            paths.push((target_id, path));
        }
    }
}

#[test]
fn a_digest_does_not_depend_on_the_pieces() {
    let contents: Vec<u8> = (0..40_000_u32).map(|i| (i * 7 % 251) as u8).collect();
    let expected = xxhash_rust::xxh3::xxh3_128(&contents);
    for piece in [1, 7, 64, 8192, 40_000] {
        let mut hasher = ContentHasher::new(false);
        for part in contents.chunks(piece) {
            hasher = hasher.update(part);
        }
        assert_eq!(hasher.identify(1, b"a.b").digest, expected);
    }
    let empty = ContentHasher::new(false).identify(0, b"a").digest;
    assert_eq!(empty, xxhash_rust::xxh3::xxh3_128(b""));
}

#[test]
fn sha256_comes_from_the_same_pass() {
    let hex = |bytes: &[u8]| bytes.iter().map(|byte| format!("{byte:02x}")).collect::<String>();
    let contents = b"abc";
    for piece in [1, 2, 3] {
        let mut hasher = ContentHasher::new(true);
        for part in contents.chunks(piece) {
            hasher = hasher.update(part);
        }
        assert_eq!(hasher.identify(3, b"a").digest, xxhash_rust::xxh3::xxh3_128(contents));
        assert_eq!(
            hex(&hasher.sha256().unwrap()),
            "ba7816bf8f01cfea414140de5dae2223b00361a396177a9cb410ff61f20015ad"
        );
    }
    assert_eq!(
        hex(&ContentHasher::new(true).sha256().unwrap()),
        "e3b0c44298fc1c149afbf4c8996fb92427ae41e4649b934ca495991b7852b855"
    );
    assert_eq!(ContentHasher::new(false).update(contents).sha256(), None);
}

/// Paths that are easily put into the wrong order.
const PATHS: [&str; 24] = [
    "/d/a.py", "/d/a/b.py", "/d/a-b/c.py", "/d/a/b/c.py", "/d/a", "/d/A.py", "/d/b", "/d/.a", "/d/..",
    "/d/../e", "/d/+", "/", "", ".", "./a", "./", "..", "a", "a/b", "a.b", "/d/\u{e9}", "/d/z",
    "/d/a/", "/d/./a",
];

#[test]
fn paths_are_sorted_like_those_of_the_standard_library() {
    let mut expected: Vec<&str> = PATHS.to_vec();
    expected.sort_by(|left, right| Path::new(left).cmp(Path::new(right)));
    for shift in 0..PATHS.len() {
        let mut given: Vec<Vec<u8>> = PATHS.iter().map(|path| path.as_bytes().to_vec()).collect();
        given.rotate_left(shift);
        let sorted: Vec<String> = sort(given)
            .into_iter()
            .map(|bytes| String::from_utf8(bytes).unwrap())
            .collect();
        assert_eq!(sorted.len(), expected.len());
        for (found, wanted) in sorted.iter().zip(&expected) {
            assert_eq!(Path::new(found), Path::new(wanted));
        }
    }
    for left in PATHS {
        for right in PATHS {
            assert_eq!(
                path_at_or_before(left.as_bytes(), right.as_bytes()),
                Path::new(left) <= Path::new(right),
                "{left:?} {right:?}"
            );
        }
    }
}

#[test]
fn plans_follow_the_order_of_the_paths() {
    let names = ["a.py", "a/b.py", "a-b.py", "z.py", "B.py", "a/b/c.py", "a/large.py"];
    let mut expected: Vec<&str> = names.into_iter().filter(|name| *name != "a/large.py").collect();
    expected.sort_by(|left, right| Path::new(left).cmp(Path::new(right)));
    assert_eq!(expected[..3], ["B.py", "a/b/c.py", "a/b.py"]);
    for shift in 0..names.len() {
        let mut files: Vec<SourceFile> = names
            .iter()
            .enumerate()
            .map(|(index, name)| {
                let size = if *name == "a/large.py" { LIMIT + 1 } else { 1 };
                file(&format!("/d/{name}"), size, index as u128)
            })
            .collect();
        files.rotate_left(shift);
        let mut package = PackageTarget::new(b"/t".to_vec());
        let plan = package.plan_distribution(b"/d", files, LIMIT, 10).unwrap();
        let paths: Vec<&str> = plan.aliases.iter().map(|alias| alias.path.as_str()).collect();
        assert_eq!(paths, expected);
        let commit = package.commit_distribution(plan, "https://i/".to_owned()).unwrap();
        assert_eq!(commit.links[2].source, b"/d/a/b.py");
        assert_eq!(commit.links[2].destination, b"/t/0000000000000002.py");
    }
}

#[test]
fn cache_keys_are_printed() {
    let identity = FileIdentity { digest: 0xabc, size: 42, extension: Some(b"py".to_vec()) };
    let printed = format!("{:?}", Some("py"));
    assert_eq!(
        identity.cache_key(&printed),
        format!("{:032x}:{}:{:?}", identity.digest, identity.size, Some("py"))
    );
    let other = FileIdentity { digest: 0xabc, size: 42, extension: None };
    assert_eq!(other.cache_key("None"), "00000000000000000000000000000abc:42:None");
    assert!(!identity.same_as(&other));
    assert!(other.same_as(&other));
    assert_ne!(identity.cache_key(&printed), other.cache_key("None"));
}

#[test]
fn identities_with_the_same_key_are_told_apart() {
    let mut map = IdentityMap::new();
    let identity = |digest: u128, size| FileIdentity { digest, size, extension: None };
    map.insert(identity(1, 1), 10);
    map.insert(identity(1, 2), 20);
    map.insert(identity(1 + (1 << 64), 1), 30);
    map.insert(identity(1, 2), 21);
    assert_eq!(map.get(&identity(1, 1)), Some(10));
    assert_eq!(map.get(&identity(1, 2)), Some(21));
    assert_eq!(map.get(&identity(1 + (1 << 64), 1)), Some(30));
    assert_eq!(map.get(&identity(2, 1)), None);
    assert_eq!(map.entries().len(), 3);
}

#[test]
fn keys_and_texts_are_found() {
    let mut index = KeyIndex::new();
    for (position, key) in [5, 6, 5].into_iter().enumerate() {
        index.add(key, position);
    }
    assert_eq!(index.find(5), Some(&vec![0, 2]));
    assert_eq!(index.find(7), None);
    let mut set = TextSet::new();
    set.insert("a".to_owned());
    set.insert("\u{e9}".to_owned());
    set.insert("a".to_owned());
    assert!(set.contains("a"));
    assert!(set.contains("\u{e9}"));
    assert!(!set.contains("b"));
    assert!(!set.contains(""));
}
