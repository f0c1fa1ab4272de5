use simplehf::ranges::{
    chunk_ranges, completed_bytes, pending_ranges, read_completed, ByteRange, RangeSet, MAX_CHUNK,
    MIN_CHUNK,
};

const MIB: u64 = 1024 * 1024;

#[test]
fn adaptive_ranges_cover_file_exactly() {
    let size = 257 * 1024 * 1024 + 17;
    let ranges = chunk_ranges(size);
    assert_eq!(ranges.first().unwrap().start, 0);
    assert_eq!(ranges.last().unwrap().end, size - 1);
    for pair in ranges.windows(2) {
        assert_eq!(pair[0].end + 1, pair[1].start);
    }
    assert_eq!(
        ranges
            .iter()
            .map(|range| range.end - range.start + 1)
            .sum::<u64>(),
        size
    );
}

#[test]
fn resume_requires_matching_partial_and_current_ranges() {
    let total = 1024;
    let planned = RangeSet::from_ranges(&chunk_ranges(total));

    let resume = read_completed(Some(total), Some(planned.ranges().clone()), total);
    assert_eq!(resume.completed.ranges(), planned.ranges());
    assert!(!resume.discard);

    let resume = read_completed(None, Some(planned.ranges().clone()), total);
    assert!(resume.completed.is_empty());
    assert!(resume.discard);

    let stale = RangeSet::from_ranges(&vec![ByteRange { start: 1, end: 2 }]);
    let resume = read_completed(Some(total), Some(stale.ranges().clone()), total);
    assert!(resume.completed.is_empty());
    assert!(resume.discard);
}

#[test]
fn an_unreadable_record_is_discarded() {
    let resume = read_completed(Some(1024), None, 1024);
    assert!(resume.completed.is_empty());
    assert!(resume.discard);
}

#[test]
fn a_partial_file_of_another_length_is_not_resumed() {
    let resume = read_completed(Some(1023), Some(chunk_ranges(1024)), 1024);
    assert!(resume.completed.is_empty());
    assert!(resume.discard);
}

#[test]
fn an_empty_file_has_no_ranges() {
    assert!(chunk_ranges(0).is_empty());
    let resume = read_completed(Some(0), Some(vec![]), 0);
    assert!(resume.completed.is_empty());
    assert!(!resume.discard);
}

#[test]
fn small_files_come_in_small_chunks() {
    assert_eq!(chunk_ranges(1), vec![ByteRange { start: 0, end: 0 }]);
    assert_eq!(
        chunk_ranges(8 * MIB),
        vec![ByteRange { start: 0, end: 8 * MIB - 1 }]
    );
    assert_eq!(
        chunk_ranges(8 * MIB + 1),
        vec![
            ByteRange { start: 0, end: 8 * MIB - 1 },
            ByteRange { start: 8 * MIB, end: 8 * MIB },
        ]
    );
    assert_eq!(MIN_CHUNK, 8 * MIB);
}

#[test]
fn medium_files_are_cut_into_the_target_number_of_chunks() {
    let size = 24 * 10 * MIB;
    let ranges = chunk_ranges(size);
    assert_eq!(ranges.len(), 24);
    assert_eq!(ranges[1], ByteRange { start: 10 * MIB, end: 20 * MIB - 1 });
    assert_eq!(chunk_ranges(size + 1).len(), 25);
}

#[test]
fn large_files_come_in_the_largest_chunks() {
    let size = 100 * 1024 * MIB;
    let ranges = chunk_ranges(size);
    assert_eq!(ranges.len(), 800);
    assert_eq!(ranges[0].end - ranges[0].start + 1, MAX_CHUNK);
}

#[test]
fn every_byte_lies_in_one_range() {
    let size = 50 * MIB + 3;
    let ranges = chunk_ranges(size);
    for byte in [0, 1, 8 * MIB - 1, 8 * MIB, 40 * MIB, size - 1] {
        let hits = ranges
            .iter()
            .filter(|range| range.start <= byte && byte <= range.end)
            .count();
        assert_eq!(hits, 1);
    }
}

#[test]
fn a_set_of_ranges_is_sorted_and_holds_each_range_once() {
    let a = ByteRange { start: 0, end: 4 };
    let b = ByteRange { start: 0, end: 9 };
    let c = ByteRange { start: 5, end: 9 };
    let mut set = RangeSet::new();
    assert!(set.is_empty());
    for range in [c, a, b, a, c] {
        set.insert(range);
    }
    assert_eq!(set.ranges(), &vec![a, b, c]);
    assert!(set.contains(b));
    assert!(!set.contains(ByteRange { start: 1, end: 4 }));
    assert_eq!(RangeSet::from_ranges(&vec![c, b, a, b]).ranges(), &vec![a, b, c]);
}

#[test]
fn completed_and_pending_ranges_make_up_the_file() {
    let total = 20 * MIB;
    let plan = chunk_ranges(total);
    assert_eq!(plan.len(), 3);
    let recorded = vec![plan[2], plan[0]];
    let resume = read_completed(Some(total), Some(recorded), total);
    assert_eq!(resume.completed.ranges(), &vec![plan[0], plan[2]]);
    let already = completed_bytes(total, &resume.completed);
    assert_eq!(already, 12 * MIB);
    let pending = pending_ranges(total, &resume.completed);
    assert_eq!(pending, vec![plan[1]]);
    assert_eq!(already + 8 * MIB, total);
}
