use mediatree::paths::{
    child_path, extension, file_name, join_path, name_extension, normalize, parent,
    trim_separators,
};
use std::path::Path;

const SAMPLES: [&str; 40] = [
    "", "/", "//", ".", "..", "./", "../", "a", "a/", "a//", "a/.", "a/./", "a/..", "/a", "/a/b",
    "a/b/c.mp4", "a/b/c.tar.gz", ".bashrc", "a/.bashrc", "foo.", "a..b", "...", "a/...", "x/y/.",
    "x/y/..", "x.mp4/", "x.mp4/.", "x.mp4//./", "./x.mp4", "/x.d/y", "über/naïve.MP4", "a b/c d.e f",
    "a.b/c", "a/b.c/", "..a", "a..", ".a.b", "/.", "/..", "a//b",
];

#[test]
fn file_name_agrees_with_std() {
    for p in SAMPLES {
        let expected = Path::new(p).file_name().and_then(|n| n.to_str());
        assert_eq!(file_name(p), expected, "{p:?}");
    }
}

#[test]
fn extension_agrees_with_std() {
    for p in SAMPLES {
        let expected = Path::new(p).extension().and_then(|n| n.to_str());
        assert_eq!(extension(p), expected, "{p:?}");
    }
}

#[test]
fn file_name_examples() {
    assert_eq!(file_name("a/b/c.mp4"), Some("c.mp4"));
    assert_eq!(file_name("a/b/"), Some("b"));
    assert_eq!(file_name("a/b/."), Some("b"));
    assert_eq!(file_name("a/.."), None);
    assert_eq!(file_name("/"), None);
    assert_eq!(file_name(""), None);
}

#[test]
fn extension_examples() {
    assert_eq!(extension("a/b/c.mp4"), Some("mp4"));
    assert_eq!(extension("c.tar.gz"), Some("gz"));
    assert_eq!(extension(".gitkeep"), None);
    assert_eq!(extension("name."), Some(""));
    assert_eq!(extension("name"), None);
    assert_eq!(extension("dir.d/name"), None);
}

#[test]
fn name_extension_examples() {
    assert_eq!(name_extension("clip.MP4"), Some("MP4"));
    assert_eq!(name_extension(".hidden"), None);
    assert_eq!(name_extension("a.b.c"), Some("c"));
    assert_eq!(name_extension(""), None);
}

#[test]
fn join_agrees_with_std() {
    let bases = ["/srv/media", "/srv/media/", "/", "", "rel"];
    let rels = ["a", "a/b.mp4", "", "/etc/passwd", "../x", "./y"];
    for b in bases {
        for r in rels {
            let expected = Path::new(b).join(r);
            assert_eq!(join_path(b, r), expected.to_str().unwrap(), "{b:?} {r:?}");
        }
    }
}

#[test]
fn join_examples() {
    assert_eq!(join_path("/srv/media", "a/x.mp4"), "/srv/media/a/x.mp4");
    assert_eq!(join_path("/srv/media", "/etc/passwd"), "/etc/passwd");
    assert_eq!(join_path("/srv/media", ""), "/srv/media/");
    assert_eq!(join_path("/", "a"), "/a");
}

#[test]
fn parent_examples() {
    assert_eq!(parent("/srv/media/a/x.mp4"), Some("/srv/media/a"));
    assert_eq!(parent("/srv/media/a/"), Some("/srv/media"));
    assert_eq!(parent("/a"), Some("/"));
    assert_eq!(parent("a"), Some(""));
    assert_eq!(parent("a//b"), Some("a"));
    assert_eq!(parent("/"), None);
    assert_eq!(parent(""), None);
    assert_eq!(parent("a/.."), None);
}

#[test]
fn parent_agrees_with_std_where_a_file_is_named() {
    for p in ["/srv/media/a/x.mp4", "/a", "a", "a/b", "a/b/", "x/y/z.txt", "/x/y"] {
        let expected = Path::new(p).parent().and_then(|n| n.to_str());
        assert_eq!(parent(p), expected, "{p:?}");
    }
}

#[test]
fn child_path_examples() {
    assert_eq!(child_path("", "a"), "a");
    assert_eq!(child_path("a", "x.mp4"), "a/x.mp4");
    assert_eq!(child_path("a/b", "c"), "a/b/c");
}

#[test]
fn trim_separators_agrees_with_std() {
    for s in ["", "/", "//", "a", "/a", "a/", "//a/b//", "a//b", "/a/b/c/", "///"] {
        assert_eq!(trim_separators(s), s.trim_matches('/'), "{s:?}");
    }
}

fn all_texts(alphabet: &[char], max_len: usize) -> Vec<String> {
    let mut out = vec![String::new()];
    let mut last = vec![String::new()];
    for _ in 0..max_len {
        let mut next = Vec::new();
        for t in &last {
            for c in alphabet {
                let mut longer = t.clone();
                longer.push(*c);
                next.push(longer);
            }
        }
        out.extend(next.iter().cloned());
        last = next;
    }
    out
}

#[test]
fn file_name_and_extension_agree_with_std_on_every_short_path() {
    for p in all_texts(&['a', '.', '/'], 7) {
        let name = Path::new(&p).file_name().and_then(|n| n.to_str());
        assert_eq!(file_name(&p), name, "{p:?}");
        let ext = Path::new(&p).extension().and_then(|n| n.to_str());
        assert_eq!(extension(&p), ext, "{p:?}");
    }
}

#[test]
fn join_and_trim_agree_with_std_on_every_short_path() {
    let texts = all_texts(&['a', '.', '/'], 4);
    for s in &texts {
        assert_eq!(trim_separators(s), s.trim_matches('/'), "{s:?}");
    }
    for base in &texts {
        for rel in &texts {
            let expected = Path::new(base).join(rel);
            assert_eq!(join_path(base, rel), expected.to_str().unwrap(), "{base:?} {rel:?}");
        }
    }
}

#[test]
fn parent_holds_the_file_name_on_every_short_path() {
    for p in all_texts(&['a', '.', '/'], 7) {
        match (parent(&p), file_name(&p)) {
            (Some(dir), Some(name)) => {
                // the directory and the name lead to the same place as the path
                let rebuilt = Path::new(dir).join(name);
                let mut want = Path::new(&p).components().collect::<Vec<_>>();
                let got = rebuilt.components().collect::<Vec<_>>();
                if want.first() == Some(&std::path::Component::CurDir) && got.first() != want.first() {
                    want.remove(0);
                }
                assert_eq!(got, want, "{p:?}");
            }
            (None, None) => {}
            other => panic!("{p:?}: {other:?}"),
        }
    }
}

fn normal_by_hand(p: &str) -> String {
    let mut stack: Vec<&str> = Vec::new();
    for seg in p.split('/') {
        if seg.is_empty() || seg == "." {
            continue;
        }
        if seg == ".." && !stack.is_empty() && *stack.last().unwrap() != ".." {
            stack.pop();
        } else {
            stack.push(seg);
        }
    }
    stack.join("/")
}

#[test]
fn normalize_examples() {
    assert_eq!(normalize("a/b"), "a/b");
    assert_eq!(normalize("a//b/"), "a/b");
    assert_eq!(normalize("./a/./b"), "a/b");
    assert_eq!(normalize("/a/b"), "a/b");
    assert_eq!(normalize("a/x/../b"), "a/b");
    assert_eq!(normalize("a/.."), "");
    assert_eq!(normalize("../a"), "../a");
    assert_eq!(normalize("a/../../b"), "../b");
    assert_eq!(normalize("../../a/.."), "../..");
    assert_eq!(normalize(""), "");
    assert_eq!(normalize("///"), "");
    assert_eq!(normalize("..."), "...");
    assert_eq!(normalize("a/...//..b/."), "a/.../..b");
}

#[test]
fn normalize_agrees_with_splitting_by_hand_on_every_short_path() {
    for p in all_texts(&['a', '.', '/'], 8) {
        assert_eq!(normalize(&p), normal_by_hand(&p), "{p:?}");
    }
}

#[test]
fn normalize_changes_nothing_the_second_time() {
    for p in all_texts(&['a', '.', '/'], 7) {
        let once = normalize(&p);
        assert_eq!(normalize(&once), once, "{p:?}");
    }
}
