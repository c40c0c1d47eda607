use aipoint_share::plan::{
    cut_entries, distribute, plan_transfer, stream_count, sum_sizes, Segment, SendEntry, MIN_SEG,
};
use aipoint_share::sort::stable_sort;

fn entry(name: &str, size: u64) -> SendEntry {
    SendEntry { path: format!("/src/{name}"), rel: format!("root/{name}"), size }
}

fn seg(name: &str, len: u64) -> Segment {
    Segment { path: name.to_string(), rel: name.to_string(), offset: 0, len, size: len }
}

fn ranges(segs: &[Segment]) -> Vec<(u64, u64)> {
    segs.iter().map(|s| (s.offset, s.len)).collect()
}

#[test]
fn stream_counts_are_clamped() {
    assert_eq!(stream_count(None), 4);
    assert_eq!(stream_count(Some(0)), 1);
    assert_eq!(stream_count(Some(1)), 1);
    assert_eq!(stream_count(Some(8)), 8);
    assert_eq!(stream_count(Some(9)), 8);
    assert_eq!(stream_count(Some(u32::MAX)), 8);
}

#[test]
fn small_files_are_not_cut() {
    let v = cut_entries(&vec![entry("a", 0), entry("b", 2 * MIN_SEG - 1)], 8);
    assert_eq!(ranges(&v), vec![(0, 0), (0, 2 * MIN_SEG - 1)]);
}

#[test]
fn large_files_are_cut_into_equal_pieces() {
    let v = cut_entries(&vec![entry("a", 2 * MIN_SEG)], 8);
    assert_eq!(ranges(&v), vec![(0, MIN_SEG), (MIN_SEG, MIN_SEG)]);
    let v = cut_entries(&vec![entry("a", 5 * MIN_SEG + 1)], 3);
    let part = (5 * MIN_SEG + 1) / 3;
    assert_eq!(
        ranges(&v),
        vec![(0, part), (part, part), (2 * part, 5 * MIN_SEG + 1 - 2 * part)]
    );
    assert!(v.iter().all(|s| s.size == 5 * MIN_SEG + 1 && s.rel == "root/a" && s.path == "/src/a"));
    assert!(v.iter().all(|s| s.len >= MIN_SEG));
}

#[test]
fn one_stream_leaves_a_file_whole() {
    let v = cut_entries(&vec![entry("a", 100 * MIN_SEG)], 1);
    assert_eq!(ranges(&v), vec![(0, 100 * MIN_SEG)]);
}

#[test]
fn pieces_cover_the_file_without_gaps() {
    for size in [2 * MIN_SEG + 7, 3 * MIN_SEG - 1, 17 * MIN_SEG + 3, u64::MAX] {
        for streams in 1..=8usize {
            let v = cut_entries(&vec![entry("a", size)], streams);
            let mut at = 0;
            for s in &v {
                assert_eq!(s.offset, at);
                at += s.len;
            }
            assert_eq!(at, size);
        }
    }
}

#[test]
fn sorting_is_by_length_and_stable() {
    let v = stable_sort(vec![seg("a", 1), seg("b", 5), seg("c", 1), seg("d", 9), seg("e", 5)]);
    let names: Vec<&str> = v.iter().map(|s| s.path.as_str()).collect();
    assert_eq!(names, vec!["d", "b", "e", "a", "c"]);
}

#[test]
fn segments_go_to_the_least_loaded_stream() {
    let b = distribute(vec![seg("a", 9), seg("b", 5), seg("c", 4), seg("d", 3)], 2).unwrap();
    let names: Vec<Vec<&str>> =
        b.iter().map(|v| v.iter().map(|s| s.path.as_str()).collect()).collect();
    assert_eq!(names, vec![vec!["a", "d"], vec!["b", "c"]]);
}

#[test]
fn no_stream_is_ahead_by_more_than_a_segment() {
    let segs: Vec<Segment> = (0..40).map(|k| seg("s", (k * 37) % 50)).collect();
    let b = distribute(stable_sort(segs), 7).unwrap();
    let loads: Vec<u64> = b.iter().map(|v| v.iter().map(|s| s.len.max(1)).sum()).collect();
    assert!(loads.iter().max().unwrap() - loads.iter().min().unwrap() <= 49);
    assert_eq!(b.iter().map(|v| v.len()).sum::<usize>(), 40);
}

#[test]
fn empty_segments_weigh_one() {
    let b = distribute(vec![seg("a", 0), seg("b", 0), seg("c", 0)], 3).unwrap();
    assert!(b.iter().all(|v| v.len() == 1));
}

#[test]
fn loads_beyond_64_bits_are_refused() {
    assert!(distribute(vec![seg("a", u64::MAX), seg("b", 0)], 1).is_none());
    assert!(distribute(vec![seg("a", u64::MAX), seg("b", 0)], 2).is_some());
}

#[test]
fn sizes_are_added_up() {
    assert_eq!(sum_sizes(&vec![]), Some(0));
    assert_eq!(sum_sizes(&vec![entry("a", 3), entry("b", 4)]), Some(7));
    assert_eq!(sum_sizes(&vec![entry("a", u64::MAX), entry("b", 1)]), None);
}

#[test]
fn a_plan_sends_every_byte_once() {
    let files = vec![entry("a", 40 * MIN_SEG + 5), entry("b", 3), entry("c", 0), entry("d", 2 * MIN_SEG)];
    let p = plan_transfer(&files, Some(3)).unwrap();
    assert_eq!(p.total, 42 * MIN_SEG + 8);
    assert_eq!(p.streams.len(), 3);
    let all: Vec<&Segment> = p.streams.iter().flatten().collect();
    assert_eq!(all.iter().map(|s| s.len).sum::<u64>(), p.total);
    for f in &files {
        let mut mine: Vec<(u64, u64)> =
            all.iter().filter(|s| s.path == f.path).map(|s| (s.offset, s.len)).collect();
        mine.sort();
        let mut at = 0;
        for (off, len) in mine {
            assert_eq!(off, at);
            at += len;
        }
        assert_eq!(at, f.size);
    }
    for s in &p.streams {
        assert!(!s.is_empty());
        assert!(s.windows(2).all(|w| w[0].len >= w[1].len));
    }
}

#[test]
fn a_plan_uses_no_more_streams_than_segments() {
    let p = plan_transfer(&vec![entry("a", 3)], Some(8)).unwrap();
    assert_eq!(p.streams.len(), 1);
    let p = plan_transfer(&vec![], Some(8)).unwrap();
    assert_eq!(p.streams.len(), 1);
    assert!(p.streams[0].is_empty());
}

#[test]
fn a_plan_that_cannot_be_counted_is_refused() {
    assert!(plan_transfer(&vec![entry("a", u64::MAX), entry("b", 1)], None).is_none());
}
