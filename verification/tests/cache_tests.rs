use mediatree::cache::{
    cache_path_for, clean_cache_space, escape_path, transcode_args, CacheFile,
};
use mediatree::media::Timestamp;

fn cached(path: &str, secs: i64, nanos: u32, size: u64) -> CacheFile {
    CacheFile { path: path.to_string(), modified: Timestamp { secs, nanos }, size }
}

#[test]
fn cache_path_is_the_whole_source_path_as_one_name() {
    assert_eq!(cache_path_for("film.avi").as_deref(), Some("cache/film.avi.mp4"));
    assert_eq!(cache_path_for("a/b/film.mkv").as_deref(), Some("cache/a%2Fb%2Ffilm.mkv.mp4"));
    assert_eq!(cache_path_for("100%/x.mkv").as_deref(), Some("cache/100%25%2Fx.mkv.mp4"));
    assert_eq!(cache_path_for("a%2Fb.mkv").as_deref(), Some("cache/a%252Fb.mkv.mp4"));
}

#[test]
fn sources_of_one_name_in_two_directories_have_two_derivatives() {
    let p = cache_path_for("media/a/clip.mkv").unwrap();
    let q = cache_path_for("media/b/clip.mkv").unwrap();
    assert_ne!(p, q);
    assert_eq!(cache_path_for("media/a/clip.mkv").unwrap(), p);
}

#[test]
fn derivatives_lie_directly_in_the_cache_and_differ_for_every_short_path() {
    let mut texts = vec![String::new()];
    let mut last = vec![String::new()];
    for _ in 0..6 {
        let mut next = Vec::new();
        for t in &last {
            for c in ['a', '/', '%', '2', 'F'] {
                next.push(format!("{t}{c}"));
            }
        }
        texts.extend(next.iter().cloned());
        last = next;
    }
    let mut seen = std::collections::HashMap::new();
    for t in texts {
        assert_eq!(escape_path(&t).contains('/'), false, "{t:?}");
        if let Some(p) = cache_path_for(&t) {
            assert!(p.starts_with("cache/") && p.ends_with(".mp4"));
            assert!(!p["cache/".len()..].contains('/'), "{t:?}");
            if let Some(other) = seen.insert(p.clone(), t.clone()) {
                panic!("{other:?} and {t:?} share {p:?}");
            }
        }
    }
}

#[test]
fn escape_path_examples() {
    assert_eq!(escape_path(""), "");
    assert_eq!(escape_path("plain.mkv"), "plain.mkv");
    assert_eq!(escape_path("/"), "%2F");
    assert_eq!(escape_path("%"), "%25");
    assert_eq!(escape_path("a/b%c/"), "a%2Fb%25c%2F");
    assert_eq!(escape_path("ü/é"), "ü%2Fé");
}

#[test]
fn cache_path_needs_a_file_name() {
    assert_eq!(cache_path_for(""), None);
    assert_eq!(cache_path_for("/"), None);
    assert_eq!(cache_path_for("a/.."), None);
}

#[test]
fn transcode_arguments() {
    assert_eq!(
        transcode_args("in.mkv", "cache/in.mkv.mp4"),
        vec![
            "-i", "in.mkv", "-f", "mp4", "-c:v", "libx264", "-c:a", "aac", "-movflags",
            "frag_keyframe+empty_moov", "-preset", "veryfast", "-tune", "zerolatency",
            "cache/in.mkv.mp4",
        ]
    );
}

#[test]
fn nothing_is_evicted_under_the_budget() {
    let files = vec![cached("a", 1, 0, 10), cached("b", 2, 0, 20)];
    assert_eq!(clean_cache_space(&files, 30), Vec::<usize>::new());
    assert_eq!(clean_cache_space(&files, 1000), Vec::<usize>::new());
    assert_eq!(clean_cache_space(&Vec::new(), 0), Vec::<usize>::new());
}

#[test]
fn oldest_files_leave_first_until_the_budget_holds() {
    let files = vec![
        cached("newest", 300, 0, 10),
        cached("oldest", 100, 0, 10),
        cached("middle", 200, 0, 10),
    ];
    assert_eq!(clean_cache_space(&files, 29), vec![1]);
    assert_eq!(clean_cache_space(&files, 20), vec![1]);
    assert_eq!(clean_cache_space(&files, 19), vec![1, 2]);
    assert_eq!(clean_cache_space(&files, 10), vec![1, 2]);
    assert_eq!(clean_cache_space(&files, 9), vec![1, 2, 0]);
    assert_eq!(clean_cache_space(&files, 0), vec![1, 2, 0]);
}

#[test]
fn eviction_stops_as_soon_as_the_budget_holds() {
    let files = vec![cached("big-old", 1, 0, 100), cached("small-new", 2, 0, 1)];
    assert_eq!(clean_cache_space(&files, 50), vec![0]);
}

#[test]
fn nanoseconds_break_ties_of_seconds() {
    let files = vec![cached("later", 5, 900, 1), cached("sooner", 5, 100, 1), cached("first", 4, 999, 1)];
    assert_eq!(clean_cache_space(&files, 0), vec![2, 1, 0]);
}

#[test]
fn files_of_one_instant_leave_in_listing_order() {
    let files = vec![cached("a", 7, 7, 1), cached("b", 7, 7, 1), cached("c", 7, 7, 1)];
    assert_eq!(clean_cache_space(&files, 0), vec![0, 1, 2]);
    assert_eq!(clean_cache_space(&files, 2), vec![0]);
}

#[test]
fn times_before_1970_are_older() {
    let files = vec![cached("new", 0, 0, 1), cached("old", -5, 0, 1)];
    assert_eq!(clean_cache_space(&files, 1), vec![1]);
}

#[test]
fn empty_files_do_not_help_the_budget() {
    let files = vec![cached("empty-old", 1, 0, 0), cached("full", 2, 0, 10)];
    assert_eq!(clean_cache_space(&files, 5), vec![0, 1]);
}

#[test]
fn sizes_beyond_u64_in_total_do_not_overflow() {
    let files = vec![
        cached("a", 1, 0, u64::MAX),
        cached("b", 2, 0, u64::MAX),
        cached("c", 3, 0, u64::MAX),
    ];
    assert_eq!(clean_cache_space(&files, u64::MAX), vec![0, 1]);
    assert_eq!(clean_cache_space(&files, u64::MAX - 1), vec![0, 1, 2]);
}

#[test]
fn eviction_agrees_with_a_stable_sort() {
    let mut seed: u64 = 42;
    let mut next = move || {
        seed = seed.wrapping_mul(6364136223846793005).wrapping_add(1442695040888963407);
        seed >> 33
    };
    for round in 0..50 {
        let n = (next() % 12) as usize;
        let files: Vec<CacheFile> = (0..n)
            .map(|i| cached(&format!("f{i}"), (next() % 5) as i64, (next() % 3) as u32, next() % 100))
            .collect();
        let budget = next() % 400;
        let mut order: Vec<usize> = (0..n).collect();
        order.sort_by_key(|&i| (files[i].modified.secs, files[i].modified.nanos));
        let mut total: u64 = files.iter().map(|f| f.size).sum();
        let mut expected = Vec::new();
        for i in order {
            if total <= budget {
                break;
            }
            expected.push(i);
            total -= files[i].size;
        }
        assert_eq!(clean_cache_space(&files, budget), expected, "round {round}");
    }
}
