//! Paths, held against the paths of the standard library.

use std::path::{Component, Path};

use dragonfly_opengrep::error::ScanError;
use dragonfly_opengrep::numbers::HexError;
use dragonfly_opengrep::paths::{
    extension, find_names, relative_target_path, safe_relative_path, strip_directory,
    target_id_from_path, target_path, MAX_PATH_BYTES,
};

const PATHS: [&str; 44] = [
    "", "/", "//", ".", "..", "./", "./.", "a", "a/", "a//", "/a", "//a", "a/b", "a//b", "a/./b",
    "a/../b", "./a", "./a/.", "a/.", "a/..", "../a", "/..", "/.", ".a", "..a", "...", "a.b", "a.",
    ".a.b", "a.b.c", "/a/b.py", "/a/b/", "/a/./b", "/a/b/.", "/a/b/..", "a b/c d", "a\\b", "\\",
    "a\\..\\b", "\u{e9}/\u{4e2d}.txt", "x.\u{e9}", "a/b.tar.gz", "/tmp/x/y.py", "a/.hidden",
];

fn normal_names(path: &str) -> Vec<String> {
    Path::new(path)
        .components()
        .filter_map(|component| match component {
            Component::Normal(name) => Some(name.to_str().unwrap().to_owned()),
            Component::ParentDir => Some("..".to_owned()),
            _ => None,
        })
        .collect()
}

#[test]
fn names_are_the_components() {
    for path in PATHS {
        let names: Vec<String> = find_names(path.as_bytes())
            .into_iter()
            .map(|(start, end)| path[start..end].to_owned())
            .collect();
        assert_eq!(names, normal_names(path), "{path:?}");
    }
}

#[test]
fn safe_paths_have_normal_components_only() {
    for path in PATHS {
        let expected = !path.is_empty()
            && Path::new(path)
                .components()
                .all(|component| matches!(component, Component::Normal(_)));
        let result = safe_relative_path(path);
        assert_eq!(result.is_ok(), expected, "{path:?}");
        if let Ok(safe) = result {
            assert_eq!(safe, path);
        }
    }
    assert!(matches!(safe_relative_path(""), Err(ScanError::EmptyPath)));
    assert!(matches!(safe_relative_path("/a"), Err(ScanError::UnsafePath)));
    assert!(matches!(safe_relative_path("a/../b"), Err(ScanError::UnsafePath)));
}

#[test]
fn directories_are_stripped() {
    for path in PATHS {
        for directory in PATHS {
            if !path.starts_with('/') {
                continue;
            }
            let expected = Path::new(path).strip_prefix(directory).ok();
            let stripped = strip_directory(path.as_bytes(), directory.as_bytes());
            let stripped = stripped.map(|bytes| String::from_utf8(bytes).unwrap());
            assert_eq!(
                stripped.as_deref(),
                expected.map(|rest| rest.to_str().unwrap()),
                "{path:?} in {directory:?}"
            );
        }
    }
}

#[test]
fn extensions_are_those_of_the_standard_library() {
    for path in PATHS {
        let expected = Path::new(path).extension().map(|part| part.to_str().unwrap());
        let found = extension(path.as_bytes()).map(|bytes| String::from_utf8(bytes).unwrap());
        assert_eq!(found.as_deref(), expected, "{path:?}");
    }
}

#[test]
fn target_identifiers_are_those_of_the_standard_library() {
    let more = [
        "0000000000000001.py", "ffffffffffffffff", "10000000000000000.py", "+a.py", "-a.py", "+",
        "x/00ff.tar.gz", "FF", "fF.x", "g", "0000000000000000000000000001", ".py", "a.", "++1",
    ];
    for path in PATHS.iter().chain(more.iter()) {
        let expected = Path::new(path)
            .file_stem()
            .and_then(|stem| stem.to_str())
            .map(|stem| u64::from_str_radix(stem, 16));
        match (target_id_from_path(path), expected) {
            (Ok(found), Some(Ok(expected))) => assert_eq!(found, expected, "{path:?}"),
            (Err(error), Some(Err(expected))) => {
                assert!(matches!(error, ScanError::InvalidTargetId(_)));
                assert_eq!(error.message(), expected.to_string(), "{path:?}");
            }
            (Err(error), None) => {
                assert_eq!(error.message(), "OpenGrep returned an invalid target path");
            }
            _ => panic!("{path:?}"),
        }
    }
    assert!(matches!(
        target_id_from_path("+"),
        Err(ScanError::InvalidTargetId(HexError::InvalidDigit))
    ));
    assert!(matches!(
        target_id_from_path("10000000000000000"),
        Err(ScanError::InvalidTargetId(HexError::Overflow))
    ));
    assert!(matches!(target_id_from_path(".."), Err(ScanError::InvalidTargetPath)));
}

#[test]
fn target_paths_are_those_of_the_standard_library() {
    for directory in ["/tmp/x", "/tmp/x/", "/", "relative"] {
        for source in PATHS {
            for target_id in [0, 1, 0xabcdef, u64::MAX] {
                let own = extension(source.as_bytes());
                let found = target_path(directory.as_bytes(), target_id, own.as_deref());
                let mut expected = Path::new(directory).join(format!("{target_id:016x}"));
                if let Some(extension) = Path::new(source).extension() {
                    expected.set_extension(extension);
                }
                assert_eq!(
                    String::from_utf8(found).unwrap(),
                    expected.to_str().unwrap(),
                    "{directory:?} {source:?}"
                );
            }
        }
    }
}

#[test]
fn a_target_leads_back_to_its_identifier() {
    for source in ["a.py", "a", "b.tar.gz", ".hidden", "a.", "x.\u{e9}"] {
        for target_id in [0, 7, 0x1234_5678_9abc_def0, u64::MAX] {
            let own = extension(source.as_bytes());
            let path = target_path(b"/tmp/targets", target_id, own.as_deref());
            let reported = relative_target_path(&path, b"/tmp/targets").unwrap();
            assert!(matches!(target_id_from_path(&reported), Ok(found) if found == target_id));
        }
    }
}

#[test]
fn paths_are_reported_relative_to_the_target() {
    let report = |path: &str| relative_target_path(path.as_bytes(), b"/tmp/t");
    assert_eq!(report("/tmp/t/a/b.py").unwrap(), "a/b.py");
    assert_eq!(report("/tmp//t/./a//b.py/").unwrap(), "a//b.py");
    assert_eq!(report("a/b.py").unwrap(), "a/b.py");
    assert_eq!(report("a\\b.py").unwrap(), "a/b.py");
    assert_eq!(report("a\\..\\b").unwrap(), "a/../b");
    assert_eq!(report("\u{e9}\u{4e2d}").unwrap(), "\u{e9}\u{4e2d}");
    assert!(matches!(report("/tmp/other/a"), Err(ScanError::PrefixNotFound)));
    assert!(matches!(report("/tmp/t"), Err(ScanError::EmptyPath)));
    assert!(matches!(report(""), Err(ScanError::EmptyPath)));
    assert!(matches!(report("../a"), Err(ScanError::UnsafePath)));
    assert!(matches!(report("/tmp/t/../a"), Err(ScanError::UnsafePath)));
    assert!(matches!(
        relative_target_path(b"a\xff", b"/tmp/t"),
        Err(ScanError::PathNotUtf8)
    ));
}

#[test]
fn reported_paths_are_bounded_in_bytes() {
    let fits = "a".repeat(MAX_PATH_BYTES);
    assert_eq!(relative_target_path(fits.as_bytes(), b"/t").unwrap(), fits);
    let long = "a".repeat(MAX_PATH_BYTES + 1);
    assert!(matches!(
        relative_target_path(long.as_bytes(), b"/t"),
        Err(ScanError::PathTooLong)
    ));
    let wide = "\u{e9}".repeat(513);
    assert!(matches!(
        relative_target_path(wide.as_bytes(), b"/t"),
        Err(ScanError::PathTooLong)
    ));
}
