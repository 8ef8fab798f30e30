use downloads_history::path::{components, depth, is_same_path, numbered, split_file_name};
use std::path::Path;

fn std_components(p: &str) -> Vec<String> {
    Path::new(p)
        .components()
        .map(|c| c.as_os_str().to_string_lossy().to_string())
        .collect()
}

const SAMPLES: &[&str] = &[
    "", "/", "//", "a", "a/", "/a//b/./c/", "./x", ".", "..", "../a", "a/../b", "a/./b",
    "./", ".//a", "/./a", "a/.", ".a", "..a", "a..", "x/y/z.txt", "/srv/incoming/2024/",
    "a b/c d", "é/ü",
];

#[test]
fn components_match_std() {
    for p in SAMPLES {
        assert_eq!(components(p), std_components(p), "path {:?}", p);
        assert_eq!(depth(p), Path::new(p).components().count(), "path {:?}", p);
    }
}

#[test]
fn sameness_matches_std_equality() {
    for a in SAMPLES {
        for b in SAMPLES {
            assert_eq!(is_same_path(a, b), Path::new(a) == Path::new(b), "{:?} {:?}", a, b);
        }
    }
    assert!(is_same_path("/srv/in", "/srv//in/"));
    assert!(!is_same_path("/srv/in", "srv/in"));
}

#[test]
fn split_matches_std_stem_and_extension() {
    let names = [
        "report.tar.gz", ".bashrc", "foo.", "noext", "..", ".", "", "a.b", "...", ".a.b",
        "dir/file.txt", "photo.JPG", "x/..",
    ];
    for n in names {
        let p = Path::new(n);
        let stem = p.file_stem().and_then(|s| s.to_str()).unwrap_or("file");
        let ext = p.extension().and_then(|e| e.to_str()).unwrap_or("");
        assert_eq!(split_file_name(n), (stem.to_string(), ext.to_string()), "name {:?}", n);
    }
}

#[test]
fn numbered_names() {
    assert_eq!(numbered("file", "txt", 1), "file (1).txt");
    assert_eq!(numbered("archive", "", 12), "archive (12)");
    assert_eq!(numbered("report.tar", "gz", 3), "report.tar (3).gz");
    assert_ne!(numbered("a", "b", 1), numbered("a", "b", 11));
}
