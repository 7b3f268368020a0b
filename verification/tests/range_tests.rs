use mediatree::range::{
    build_range_response, content_range, first_satisfiable, full_response, resolve_bounds, serve,
    serve_range, RangeBound, StreamPlan, CHUNK_SIZE,
};

fn body_of(file: &[u8], plan: StreamPlan) -> Vec<u8> {
    let start = plan.start as usize;
    file[start..start + plan.length as usize].to_vec()
}

#[test]
fn chunk_size_is_128_kib() {
    assert_eq!(CHUNK_SIZE, 128 * 1024);
}

#[test]
fn no_range_header_serves_the_whole_file() {
    let file: Vec<u8> = (0..=255u8).collect();
    let r = serve(file.len() as u64, "video/mp4", None);
    assert_eq!(r.status, 200);
    assert_eq!(r.content_type.as_deref(), Some("video/mp4"));
    assert!(r.accept_ranges);
    assert_eq!(r.content_range, None);
    assert_eq!(r.cache_control, None);
    let plan = r.body.unwrap();
    assert_eq!(plan, StreamPlan { start: 0, length: 256, chunk_size: CHUNK_SIZE });
    assert_eq!(body_of(&file, plan), file);
}

#[test]
fn full_response_of_an_empty_file() {
    let r = full_response(0, "text/plain");
    assert_eq!(r.status, 200);
    assert_eq!(r.body, Some(StreamPlan { start: 0, length: 0, chunk_size: CHUNK_SIZE }));
}

#[test]
fn every_range_inside_a_small_file_is_served_exactly() {
    let file: Vec<u8> = (0..12u8).map(|b| b * 3).collect();
    let n = file.len() as u64;
    for start in 0..n {
        for end in start..n {
            let header = format!("bytes={start}-{end}");
            let r = build_range_response(n, "audio/mpeg", &header);
            assert_eq!(r.status, 206, "{header}");
            assert_eq!(r.content_type.as_deref(), Some("audio/mpeg"));
            assert!(r.accept_ranges);
            assert_eq!(r.content_range, Some(format!("bytes {start}-{end}/{n}")));
            assert_eq!(r.cache_control.as_deref(), Some("public, max-age=86400"));
            let plan = r.body.unwrap();
            assert_eq!(plan.chunk_size, CHUNK_SIZE);
            assert_eq!(plan.length, end - start + 1);
            assert_eq!(body_of(&file, plan), file[start as usize..=end as usize].to_vec());
        }
    }
}

#[test]
fn range_with_start_behind_end_is_not_satisfiable() {
    let r = build_range_response(100, "video/mp4", "bytes=50-10");
    assert_eq!(r.status, 416);
    assert_eq!(r.body, None);
    assert_eq!(r.content_range, None);
    assert_eq!(r.content_type, None);
}

#[test]
fn range_with_end_behind_the_file_is_not_satisfiable() {
    for header in ["bytes=0-100", "bytes=99-100", "bytes=0-18446744073709551615", "bytes=100-200"] {
        let r = build_range_response(100, "video/mp4", header);
        assert_eq!(r.status, 416, "{header}");
        assert_eq!(r.body, None);
    }
}

#[test]
fn open_ended_range_runs_to_the_end() {
    let r = build_range_response(100, "video/mp4", "bytes=40-");
    assert_eq!(r.status, 206);
    assert_eq!(r.content_range.as_deref(), Some("bytes 40-99/100"));
    assert_eq!(r.body, Some(StreamPlan { start: 40, length: 60, chunk_size: CHUNK_SIZE }));
}

#[test]
fn open_ended_range_from_the_end_of_file_is_not_satisfiable() {
    assert_eq!(build_range_response(100, "video/mp4", "bytes=100-").status, 416);
    assert_eq!(build_range_response(0, "video/mp4", "bytes=0-").status, 416);
}

#[test]
fn suffix_range_is_the_tail() {
    let r = build_range_response(100, "video/mp4", "bytes=-30");
    assert_eq!(r.status, 206);
    assert_eq!(r.content_range.as_deref(), Some("bytes 70-99/100"));
    assert_eq!(r.body, Some(StreamPlan { start: 70, length: 30, chunk_size: CHUNK_SIZE }));
    let all = build_range_response(100, "video/mp4", "bytes=-100");
    assert_eq!(all.content_range.as_deref(), Some("bytes 0-99/100"));
}

#[test]
fn suffix_longer_than_the_file_is_not_satisfiable() {
    assert_eq!(build_range_response(100, "video/mp4", "bytes=-101").status, 416);
    assert_eq!(build_range_response(100, "video/mp4", "bytes=-0").status, 416);
}

#[test]
fn first_usable_range_of_several_is_served() {
    let r = build_range_response(100, "video/mp4", "bytes=5-9,20-30");
    assert_eq!(r.content_range.as_deref(), Some("bytes 5-9/100"));
    let skipped = build_range_response(100, "video/mp4", "bytes=x-y, 20-30");
    assert_eq!(skipped.content_range.as_deref(), Some("bytes 20-30/100"));
    let suffix_too_long = build_range_response(100, "video/mp4", "bytes=-500,1-2");
    assert_eq!(suffix_too_long.content_range.as_deref(), Some("bytes 1-2/100"));
}

#[test]
fn header_without_usable_range_is_not_satisfiable() {
    for header in ["bytes=", "bytes=abc", "bytes=1-2-3", "bytes=,"] {
        assert_eq!(build_range_response(100, "video/mp4", header).status, 416, "{header}");
    }
}

#[test]
fn header_of_another_unit_is_malformed() {
    for header in ["items=0-5", "", "0-5", "Bytes=0-5", "bytes 0-5", "bytes=0-5\n"] {
        let r = serve(100, "video/mp4", Some(header));
        assert_eq!(r.status, 400, "{header:?}");
        assert_eq!(r.body, None);
    }
}

#[test]
fn resolve_bounds_covers_every_kind_of_bound() {
    assert_eq!(resolve_bounds(RangeBound::Included(2), RangeBound::Included(5), 10), Some((2, 5)));
    assert_eq!(resolve_bounds(RangeBound::Excluded(2), RangeBound::Excluded(5), 10), Some((3, 4)));
    assert_eq!(resolve_bounds(RangeBound::Unbounded, RangeBound::Unbounded, 10), Some((0, 9)));
    assert_eq!(resolve_bounds(RangeBound::Included(9), RangeBound::Unbounded, 10), Some((9, 9)));
    assert_eq!(resolve_bounds(RangeBound::Included(10), RangeBound::Unbounded, 10), None);
    assert_eq!(resolve_bounds(RangeBound::Included(5), RangeBound::Included(4), 10), None);
    assert_eq!(resolve_bounds(RangeBound::Included(0), RangeBound::Included(10), 10), None);
    assert_eq!(resolve_bounds(RangeBound::Excluded(u64::MAX), RangeBound::Unbounded, 10), None);
    assert_eq!(resolve_bounds(RangeBound::Unbounded, RangeBound::Excluded(0), 10), None);
    assert_eq!(resolve_bounds(RangeBound::Unbounded, RangeBound::Unbounded, 0), None);
    assert_eq!(resolve_bounds(RangeBound::Included(0), RangeBound::Included(0), 1), Some((0, 0)));
    assert_eq!(
        resolve_bounds(RangeBound::Included(0), RangeBound::Included(u64::MAX - 1), u64::MAX),
        Some((0, u64::MAX - 1))
    );
}

#[test]
fn serve_range_by_decoded_ranges() {
    assert_eq!(serve_range(&None, 10, "a/b").status, 400);
    assert_eq!(serve_range(&Some(vec![]), 10, "a/b").status, 416);
    let one = Some(vec![(RangeBound::Included(1), RangeBound::Unbounded)]);
    let r = serve_range(&one, 10, "a/b");
    assert_eq!(r.status, 206);
    assert_eq!(r.content_range.as_deref(), Some("bytes 1-9/10"));
    let behind = Some(vec![(RangeBound::Included(10), RangeBound::Unbounded)]);
    assert_eq!(serve_range(&behind, 10, "a/b").status, 416);
    let second = Some(vec![
        (RangeBound::Included(20), RangeBound::Included(30)),
        (RangeBound::Included(4), RangeBound::Included(5)),
        (RangeBound::Included(0), RangeBound::Included(1)),
    ]);
    let r = serve_range(&second, 10, "a/b");
    assert_eq!(r.status, 206);
    assert_eq!(r.content_range.as_deref(), Some("bytes 4-5/10"));
}

#[test]
fn first_satisfiable_passes_over_ranges_outside_the_file() {
    let inc = |a: u64, b: u64| (RangeBound::Included(a), RangeBound::Included(b));
    assert_eq!(first_satisfiable(&vec![], 10), None);
    assert_eq!(first_satisfiable(&vec![inc(0, 3)], 10), Some((0, 3)));
    assert_eq!(first_satisfiable(&vec![inc(0, 3), inc(5, 6)], 10), Some((0, 3)));
    assert_eq!(first_satisfiable(&vec![inc(20, 30), inc(4, 5)], 10), Some((4, 5)));
    assert_eq!(first_satisfiable(&vec![inc(7, 2), inc(0, 10), inc(9, 9), inc(1, 1)], 10), Some((9, 9)));
    assert_eq!(first_satisfiable(&vec![inc(20, 30), inc(10, 10), inc(3, 2)], 10), None);
    assert_eq!(first_satisfiable(&vec![inc(0, 0)], 0), None);
}

#[test]
fn of_several_ranges_the_first_inside_the_file_is_served() {
    let file = b"0123456789";
    let r = build_range_response(10, "text/plain", "bytes=20-30,4-5");
    assert_eq!(r.status, 206);
    assert_eq!(r.content_range.as_deref(), Some("bytes 4-5/10"));
    assert_eq!(body_of(file, r.body.unwrap()), b"45".to_vec());
    let r = build_range_response(10, "text/plain", "bytes=9-3, 10-, 7-8, 0-1");
    assert_eq!(r.content_range.as_deref(), Some("bytes 7-8/10"));
    assert_eq!(body_of(file, r.body.unwrap()), b"78".to_vec());
    let r = build_range_response(10, "text/plain", "bytes=20-30,-3");
    assert_eq!(r.content_range.as_deref(), Some("bytes 7-9/10"));
    assert_eq!(build_range_response(10, "text/plain", "bytes=20-30,10-12,5-4").status, 416);
}

#[test]
fn content_range_text() {
    assert_eq!(content_range(0, 0, 1), "bytes 0-0/1");
    assert_eq!(content_range(10, 1023, 4096), "bytes 10-1023/4096");
    assert_eq!(
        content_range(0, u64::MAX - 1, u64::MAX),
        format!("bytes 0-{}/{}", u64::MAX - 1, u64::MAX)
    );
}

#[test]
fn closed_ranges_on_a_grid() {
    for size in 0..7u64 {
        for first in 0..9u64 {
            for last in 0..9u64 {
                let r = build_range_response(size, "a/b", &format!("bytes={first}-{last}"));
                if first <= last && last < size {
                    assert_eq!(r.status, 206);
                    assert_eq!(r.content_range, Some(format!("bytes {first}-{last}/{size}")));
                    let plan = r.body.unwrap();
                    assert_eq!((plan.start, plan.length), (first, last - first + 1));
                } else {
                    assert_eq!(r.status, 416, "{first}-{last}/{size}");
                    assert_eq!(r.body, None);
                    assert_eq!(r.content_range, None);
                }
            }
        }
    }
}

#[test]
fn open_ranges_on_a_grid() {
    for size in 0..7u64 {
        for first in 0..9u64 {
            let r = build_range_response(size, "a/b", &format!("bytes={first}-"));
            if first < size {
                assert_eq!(r.status, 206);
                assert_eq!(r.content_range, Some(format!("bytes {first}-{}/{size}", size - 1)));
                let plan = r.body.unwrap();
                assert_eq!((plan.start, plan.length), (first, size - first));
            } else {
                assert_eq!(r.status, 416, "{first}-/{size}");
                assert_eq!(r.body, None);
            }
        }
    }
}

#[test]
fn suffix_ranges_on_a_grid() {
    for size in 0..7u64 {
        for count in 0..9u64 {
            let r = build_range_response(size, "a/b", &format!("bytes=-{count}"));
            if 0 < count && count <= size {
                assert_eq!(r.status, 206);
                let first = size - count;
                assert_eq!(r.content_range, Some(format!("bytes {first}-{}/{size}", size - 1)));
                let plan = r.body.unwrap();
                assert_eq!((plan.start, plan.length), (first, count));
            } else {
                assert_eq!(r.status, 416, "-{count}/{size}");
                assert_eq!(r.body, None);
            }
        }
    }
}

#[test]
fn ranges_at_the_limits_of_the_numbers() {
    let max = u64::MAX;
    let r = build_range_response(max, "a/b", &format!("bytes={}-{}", max - 1, max - 1));
    assert_eq!(r.status, 206);
    assert_eq!(r.body, Some(StreamPlan { start: max - 1, length: 1, chunk_size: CHUNK_SIZE }));
    assert_eq!(build_range_response(max, "a/b", &format!("bytes={max}-{max}")).status, 416);
    assert_eq!(build_range_response(max, "a/b", &format!("bytes=-{max}")).status, 206);
    assert_eq!(build_range_response(max - 1, "a/b", &format!("bytes=-{max}")).status, 416);
    assert_eq!(build_range_response(max, "a/b", "bytes=18446744073709551616-").status, 416);
}
