//! Scans, driven by reports written out by hand.
use spacesniffer1000::clock::Timestamp;
use spacesniffer1000::paths::OsPath;
use spacesniffer1000::scan::cache::SummaryCache;
use spacesniffer1000::scan::data::{
    append_error_samples, child_batch_stats, disk_size, record_error_message, record_io_error,
    DirectoryScanState, EntryMetadata, IoErrorSample, MetadataFingerprint, ScanEvent, ScanJob,
    ScanOptions, ScanStats, ScannedEntry, Summary, SummaryProgress,
    BACKGROUND_SUMMARIES_PER_LEVEL, CHILD_BATCH_SIZE, MAX_ERROR_SAMPLES, MAX_SCAN_JOBS,
    PROVISIONAL_PENDING_LAYOUT_SIZE, SUMMARY_PROGRESS_INTERVAL,
};
use spacesniffer1000::scan::level::LevelScan;
use spacesniffer1000::scan::listing::{
    apply_pending_layout_weights, children, directory_scan_state, entry_view, is_root_path,
    parent, path_for_node, provisional_pending_layout_size, EntryView,
};
use spacesniffer1000::scan::state::{ActiveScan, ScanReport};
use spacesniffer1000::scan::walk::{descends_into, SummaryWalk, VisitedMetadata};
use std::collections::HashMap;

const OPTIONS: ScanOptions = ScanOptions { apparent_size: true, cross_filesystems: false };

fn metadata(is_dir: bool, len: u64) -> EntryMetadata {
    EntryMetadata {
        len,
        blocks: 8,
        dev: 1,
        ino: 100,
        nlink: 1,
        is_dir,
        modified: Timestamp::from_secs(1_000),
        mtime: 1_000,
        mtime_nsec: 0,
        ctime: 1_000,
        ctime_nsec: 0,
    }
}

fn fingerprint(ino: u64) -> MetadataFingerprint {
    MetadataFingerprint {
        dev: 1,
        ino,
        len: 4096,
        mtime: 1,
        mtime_nsec: 2,
        ctime: 3,
        ctime_nsec: 4,
    }
}

fn found(name: &str, size: u128, is_dir: bool) -> ScannedEntry {
    ScannedEntry {
        name: name.to_string(),
        path: OsPath::from_text(&format!("/root/{name}")),
        size,
        modified: Timestamp::from_secs(1_000),
        is_dir,
        entry_count: None,
        metadata_error: false,
        boundary_dev: Some(1),
    }
}

fn stats_of(entries: u64) -> ScanStats {
    let mut stats = child_batch_stats();
    stats.entries_traversed = entries;
    stats
}

fn batch(parent: usize, entries: Vec<ScannedEntry>, done: bool) -> ScanReport {
    let count = entries.len() as u64;
    ScanReport {
        event: ScanEvent::ChildrenBatch {
            parent,
            children: entries,
            options: OPTIONS,
            stats: stats_of(count),
            done,
        },
        child_probes: Vec::new(),
    }
}

fn summary_of(size: u128, entries: u64) -> Summary {
    Summary {
        size,
        entry_count: entries,
        entries_seen: entries,
        io_errors: 0,
        error_samples: Vec::new(),
        metadata_error: false,
    }
}

fn summary(index: usize, size: u128, entries: u64) -> ScanReport {
    ScanReport {
        event: ScanEvent::Summary { index, options: OPTIONS, summary: summary_of(size, entries) },
        child_probes: Vec::new(),
    }
}

fn start() -> ActiveScan {
    ActiveScan::start(OsPath::from_text("/root"), &metadata(true, 4096), OPTIONS)
}

fn drain(scan: &mut ActiveScan, reports: Vec<ScanReport>) -> bool {
    let mut probes = HashMap::new();
    let mut cache = SummaryCache::new();
    scan.drain_events(reports, &mut probes, &mut cache, Timestamp::from_secs(2_000))
}

fn index_of(scan: &ActiveScan, name: &str) -> usize {
    children(scan, 0).into_iter().find(|entry| entry.name == name).expect("child").index
}

fn scan_with_dirs(names: &[&str]) -> ActiveScan {
    let mut scan = start();
    let entries = names.iter().map(|name| found(name, 4096, true)).collect();
    assert!(drain(&mut scan, vec![batch(0, entries, true)]));
    scan
}

#[test]
fn scans_temp_directory_one_level_and_summarizes_children() {
    let mut scan = scan_with_dirs(&["nested"]);
    let nested = index_of(&scan, "nested");
    drain(&mut scan, vec![summary(nested, 4101, 2)]);
    assert!(scan.progress().finished);
    let entry = entry_view(&scan, nested).expect("nested directory");
    assert!(entry.is_dir);
    assert!(entry.size >= 5);
    assert_eq!(entry_view(&scan, 0).expect("root").size, 4101);
}

#[test]
fn lists_children_before_recursive_summary_finishes() {
    let mut scan = scan_with_dirs(&["nested"]);
    let nested = children(&scan, 0)
        .into_iter()
        .find(|entry| entry.name == "nested")
        .expect("nested directory listed");
    assert!(nested.is_dir);
    assert!(nested.size_pending);
    assert_eq!(nested.entry_count, None);
    assert!(!scan.progress().finished);

    drain(&mut scan, vec![summary(nested.index, 4101, 2)]);
    let nested = entry_view(&scan, nested.index).expect("nested directory summarized");
    assert!(!nested.size_pending);
    assert!(nested.size >= 5);
    assert!(nested.entry_count.is_some_and(|count| count >= 2));
}

#[test]
fn fresh_summary_cache_seeds_rescanned_children_immediately() {
    let mut cache = SummaryCache::new();
    let now = Timestamp::from_secs(2_000);

    let mut first = start();
    let mut report = batch(0, vec![found("nested", 4096, true)], true);
    report.child_probes = vec![Some(fingerprint(7))];
    let mut probes = HashMap::new();
    first.drain_events(vec![report], &mut probes, &mut cache, now);
    let nested = index_of(&first, "nested");
    assert_eq!(probes.get(&nested), Some(&fingerprint(7)));
    first.drain_events(vec![summary(nested, 4101, 2)], &mut probes, &mut cache, now);
    assert!(first.progress().finished);

    let mut second = start();
    let mut report = batch(0, vec![found("nested", 4096, true)], true);
    report.child_probes = vec![Some(fingerprint(7))];
    let mut probes = HashMap::new();
    second.drain_events(vec![report], &mut probes, &mut cache, Timestamp::from_secs(2_003));
    let entry = children(&second, 0).into_iter().next().expect("nested directory");
    assert!(!entry.size_pending);
    assert!(entry.size >= 5);
    assert!(entry.entry_count.is_some_and(|count| count >= 2));

    let mut third = start();
    let mut report = batch(0, vec![found("nested", 4096, true)], true);
    report.child_probes = vec![Some(fingerprint(7))];
    let mut probes = HashMap::new();
    third.drain_events(vec![report], &mut probes, &mut cache, Timestamp::from_secs(2_006));
    let entry = children(&third, 0).into_iter().next().expect("nested directory");
    assert!(entry.size_pending);
    assert_eq!(entry.size, 4101);
    assert_eq!(third.progress().active_jobs, 1);
}

#[test]
fn directory_level_scan_streams_large_directories_in_batches() {
    let mut level = LevelScan::begin(0, OsPath::from_text("/root"), OPTIONS, Some(1));
    let mut batches = Vec::new();
    for index in 0..(CHILD_BATCH_SIZE + 5) {
        let name = format!("file-{index:03}.txt");
        let path = OsPath::from_text(&format!("/root/{name}"));
        let event = level.entry_found(&name.into_bytes(), path, Ok(metadata(false, 1)));
        batches.extend(event);
    }
    batches.push(level.finish());
    assert_eq!(batches.len(), 2);
    let mut lengths = Vec::new();
    let mut last = Vec::new();
    for event in batches {
        match event {
            ScanEvent::ChildrenBatch { children, done, stats, .. } => {
                assert_eq!(stats.entries_traversed, children.len() as u64);
                assert_eq!(stats.active_jobs, 1);
                lengths.push(children.len());
                last.push(done);
            }
            _ => panic!("expected child batch"),
        }
    }
    assert_eq!(lengths, vec![CHILD_BATCH_SIZE, 5]);
    assert_eq!(last, vec![false, true]);
}

#[test]
fn level_scan_keeps_errors_with_their_paths() {
    let denied = || "denied".to_string();
    let root = OsPath::from_text("/root");
    match LevelScan::begin(3, root.clone(), OPTIONS, None).open_failed(denied()) {
        ScanEvent::ChildrenBatch { parent, children, stats, done, .. } => {
            assert_eq!(parent, 3);
            assert!(children.is_empty());
            assert!(done);
            assert_eq!(stats.io_errors, 1);
            assert_eq!(stats.entries_traversed, 0);
            assert_eq!(stats.error_samples[0].path, root);
            assert_eq!(stats.error_samples[0].message, "denied");
        }
        _ => panic!("expected child batch"),
    }

    let mut level = LevelScan::begin(0, root.clone(), OPTIONS, Some(9));
    level.entry_failed(denied());
    let lost = OsPath::from_text("/root/lost");
    assert!(level.entry_found(&b"lost".to_vec(), lost.clone(), Err(denied())).is_none());
    match level.finish() {
        ScanEvent::ChildrenBatch { children, stats, .. } => {
            assert_eq!(stats.entries_traversed, 2);
            assert_eq!(stats.io_errors, 2);
            assert_eq!(stats.error_samples[0].path, root);
            assert_eq!(stats.error_samples[1].path, lost);
            assert_eq!(stats.error_samples[1].message, "denied");
            assert_eq!(children[0].name, "lost");
            assert_eq!(children[0].size, 0);
            assert!(children[0].metadata_error);
            assert!(!children[0].is_dir);
            assert_eq!(children[0].boundary_dev, Some(9));
        }
        _ => panic!("expected child batch"),
    }
}

#[test]
fn batches_count_everything_that_was_read_once() {
    let mut level = LevelScan::begin(4, OsPath::from_text("/root"), OPTIONS, None);
    let mut batches = Vec::new();
    let mut failures = 0;
    for index in 0..(3 * CHILD_BATCH_SIZE) {
        let name = format!("file-{index:03}.txt");
        let path = OsPath::from_text(&format!("/root/{name}"));
        match index % 3 {
            0 => level.entry_failed("lost".to_string()),
            1 => batches.extend(level.entry_found(&name.into_bytes(), path, Err("no".to_string()))),
            _ => batches.extend(level.entry_found(
                &name.into_bytes(),
                path,
                Ok(metadata(false, 1)),
            )),
        }
        failures += u64::from(index % 3 < 2);
    }
    batches.push(level.finish());
    assert_eq!(batches.len(), 3);
    let (mut entries, mut errors) = (0, 0);
    for event in batches {
        match event {
            ScanEvent::ChildrenBatch { parent, options, stats, .. } => {
                assert_eq!((parent, options), (4, OPTIONS));
                entries += stats.entries_traversed;
                errors += stats.io_errors;
            }
            _ => panic!("expected child batch"),
        }
    }
    assert_eq!(entries, 3 * CHILD_BATCH_SIZE as u64);
    assert_eq!(errors, failures);
}

#[test]
fn names_that_are_not_utf8_are_shown_with_replacements() {
    let mut level = LevelScan::begin(0, OsPath::from_text("/root"), OPTIONS, None);
    let path = OsPath::from_bytes(b"/root/a\xff".to_vec());
    level.entry_found(&b"a\xff".to_vec(), path, Ok(metadata(false, 1)));
    match level.finish() {
        ScanEvent::ChildrenBatch { children, .. } => assert_eq!(children[0].name, "a\u{fffd}"),
        _ => panic!("expected child batch"),
    }
}

#[test]
fn summary_scan_reports_progress_before_completion() {
    let root = metadata(true, 4096);
    let (mut walk, descends) =
        SummaryWalk::begin(7, OsPath::from_text("/root/nested"), &root, None, OPTIONS);
    assert!(descends);
    let mut reported = Vec::new();
    for index in 0..(SUMMARY_PROGRESS_INTERVAL + 8) {
        let mut file = metadata(false, 1);
        file.ino = 1_000 + index;
        reported.extend(walk.visit(None, VisitedMetadata::Known(file)));
    }
    let summary = walk.into_summary();
    assert!(summary.entries_seen > SUMMARY_PROGRESS_INTERVAL);
    assert_eq!(summary.entries_seen, SUMMARY_PROGRESS_INTERVAL + 9);
    assert_eq!(summary.size, 4096 + SUMMARY_PROGRESS_INTERVAL as u128 + 8);
    assert_eq!(reported.len(), 1);
    match &reported[0] {
        ScanEvent::SummaryProgress { index, progress } => {
            assert_eq!(*index, 7);
            assert_eq!(progress.entries_seen, SUMMARY_PROGRESS_INTERVAL);
            assert!(progress.size > 0);
        }
        _ => panic!("expected progress"),
    }
}

#[test]
fn summary_scan_counts_hardlinked_files_once() {
    let (mut walk, _) =
        SummaryWalk::begin(0, OsPath::from_text("/root"), &metadata(true, 40), None, OPTIONS);
    let mut linked = metadata(false, 16);
    linked.nlink = 2;
    linked.ino = 55;
    walk.visit(None, VisitedMetadata::Known(linked));
    walk.visit(None, VisitedMetadata::Known(linked));
    let summary = walk.into_summary();
    assert_eq!(summary.entry_count, 2);
    assert_eq!(summary.entries_seen, 3);
    assert_eq!(summary.size, 56);
}

#[test]
fn files_with_one_name_are_counted_each() {
    let (mut walk, _) =
        SummaryWalk::begin(0, OsPath::from_text("/root"), &metadata(true, 40), None, OPTIONS);
    let single = metadata(false, 16);
    walk.visit(None, VisitedMetadata::Known(single));
    walk.visit(None, VisitedMetadata::Known(single));
    let summary = walk.into_summary();
    assert_eq!(summary.entry_count, 3);
    assert_eq!(summary.size, 72);
}

#[test]
fn walks_stay_on_their_file_system() {
    let mut other = metadata(true, 10);
    other.dev = 2;
    let crossing = ScanOptions { apparent_size: true, cross_filesystems: true };
    assert!(!descends_into(true, &other, Some(1), OPTIONS));
    assert!(descends_into(true, &other, Some(1), crossing));
    assert!(descends_into(true, &other, None, OPTIONS));
    assert!(descends_into(false, &other, Some(1), OPTIONS));

    let path = OsPath::from_text("/mnt");
    let (walk, descends) = SummaryWalk::begin(0, path.clone(), &other, Some(1), OPTIONS);
    assert!(!descends);
    assert_eq!(walk.into_summary().size, 10);

    let (mut walk, descends) =
        SummaryWalk::begin(0, path.clone(), &metadata(true, 10), Some(1), OPTIONS);
    assert!(descends);
    walk.visit(None, VisitedMetadata::Known(other));
    let summary = walk.into_summary();
    assert_eq!(summary.entry_count, 1);
    assert_eq!(summary.entries_seen, 2);

    let (_, descends) = SummaryWalk::begin(0, path, &metadata(false, 10), Some(1), OPTIONS);
    assert!(!descends);
}

#[test]
fn walks_keep_errors_with_their_paths() {
    let path = OsPath::from_text("/root");
    let (mut walk, _) = SummaryWalk::begin(0, path.clone(), &metadata(true, 1), None, OPTIONS);
    let inner = OsPath::from_text("/root/inner");
    let sample =
        |text: &str| IoErrorSample { path: inner.clone(), message: text.to_string() };
    walk.entry_failed("gone".to_string());
    walk.visit(Some(sample("closed")), VisitedMetadata::Unknown);
    walk.visit(None, VisitedMetadata::Failed(sample("lost")));
    let summary = walk.into_summary();
    assert_eq!(summary.io_errors, 3);
    assert_eq!(summary.entries_seen, 4);
    assert!(summary.metadata_error);
    let kept: Vec<(bool, String)> = summary
        .error_samples
        .iter()
        .map(|sample| (sample.path == path, sample.message.clone()))
        .collect();
    assert_eq!(
        kept,
        vec![
            (true, "gone".to_string()),
            (false, "closed".to_string()),
            (false, "lost".to_string()),
        ]
    );

    let (mut walk, _) = SummaryWalk::begin(0, path.clone(), &metadata(true, 1), None, OPTIONS);
    walk.walk_failed("cannot walk".to_string());
    let summary = walk.into_summary();
    assert_eq!((summary.io_errors, summary.entries_seen), (1, 1));

    let summary = Summary::unreadable(&path, "not found".to_string());
    assert_eq!((summary.io_errors, summary.entry_count), (1, 0));
    assert!(summary.metadata_error);
    assert_eq!(summary.error_samples[0].message, "not found");
}

#[test]
fn background_summary_queue_is_bounded_per_level() {
    let names: Vec<String> =
        (0..(BACKGROUND_SUMMARIES_PER_LEVEL + 8)).map(|index| format!("dir-{index:02}")).collect();
    let refs: Vec<&str> = names.iter().map(|name| name.as_str()).collect();
    let scan = scan_with_dirs(&refs);
    let estimating = children(&scan, 0).iter().filter(|entry| entry.estimating).count();
    assert_eq!(estimating, BACKGROUND_SUMMARIES_PER_LEVEL);
}

#[test]
fn queued_summary_is_reported_as_estimating() {
    let scan = scan_with_dirs(&["a", "b", "c", "d"]);
    let queued = scan.next_background_nodes(10)[0];
    assert_eq!(directory_scan_state(&scan, queued), Some(DirectoryScanState::Estimating));
    assert!(entry_view(&scan, queued).is_some_and(|entry| entry.estimating));
}

#[test]
fn interactive_scan_removes_redundant_background_summary() {
    let mut scan = scan_with_dirs(&["a", "b", "c", "d"]);
    let nested = scan.next_background_nodes(1)[0];
    scan.take_started_jobs();
    scan.ensure_scanned(nested, OPTIONS);
    assert!(!scan.next_background_nodes(10).contains(&nested));
    assert_eq!(scan.take_started_jobs(), vec![ScanJob::Children(nested, OPTIONS)]);
    assert_eq!(directory_scan_state(&scan, nested), Some(DirectoryScanState::Scanning));
}

fn entry_for_layout(name: &str, size: u128, is_dir: bool, size_pending: bool) -> EntryView {
    EntryView {
        index: 0,
        name: name.to_string(),
        path: OsPath::from_text(name),
        size,
        layout_size: size,
        modified: Timestamp::epoch(),
        is_dir,
        entry_count: None,
        metadata_error: false,
        size_pending,
        estimating: false,
        estimate_entries_seen: 0,
    }
}

#[test]
fn pending_directories_get_provisional_layout_weight() {
    let mut entries = vec![
        entry_for_layout("known-large", 12 * 1024 * 1024 * 1024, true, false),
        entry_for_layout("workspace", 4096, true, true),
        entry_for_layout("tiny-file", 512, false, false),
    ];

    apply_pending_layout_weights(&mut entries);

    let workspace =
        entries.iter().find(|entry| entry.name == "workspace").expect("workspace entry");
    assert_eq!(workspace.size, 4096);
    assert!(workspace.layout_size >= PROVISIONAL_PENDING_LAYOUT_SIZE);
    assert!(workspace.layout_size > workspace.size);
}

#[test]
fn all_pending_directories_get_visible_floor() {
    let mut entries = vec![
        entry_for_layout("workspace", 4096, true, true),
        entry_for_layout("src", 4096, true, true),
        entry_for_layout("small-file", 512, false, false),
    ];

    apply_pending_layout_weights(&mut entries);

    assert!(entries
        .iter()
        .filter(|entry| entry.is_dir)
        .all(|entry| entry.layout_size >= PROVISIONAL_PENDING_LAYOUT_SIZE));
}

#[test]
fn provisional_room_follows_known_sizes() {
    let mib = 1024 * 1024;
    let sized = |sizes: &[u128]| {
        let mut entries: Vec<EntryView> =
            sizes.iter().map(|size| entry_for_layout("known", *size, false, false)).collect();
        entries.push(entry_for_layout("pending", 1, true, true));
        provisional_pending_layout_size(&entries)
    };
    // The median.
    assert_eq!(sized(&[4 * mib, 2 * mib, 3 * mib]), 3 * mib);
    assert_eq!(sized(&[4 * mib, 2 * mib]), 4 * mib);
    // Half the average.
    assert_eq!(sized(&[mib, mib, 2 * mib, 60 * mib, 60 * mib]), 62 * mib / 5);
    // A sixth of the largest.
    assert_eq!(sized(&[1, 1, 1, 1, 1, 60 * mib, 1]), 10 * mib);
    // The floor, and the largest of all where nothing is known.
    assert_eq!(sized(&[5]), mib);
    let pending = vec![
        entry_for_layout("a", 9 * mib, true, true),
        entry_for_layout("b", 0, false, false),
    ];
    assert_eq!(provisional_pending_layout_size(&pending), 9 * mib);
    assert_eq!(provisional_pending_layout_size(&Vec::new()), mib);
    // What is pending itself does not count where sizes are known.
    let mixed = vec![
        entry_for_layout("a", 9 * mib, true, true),
        entry_for_layout("b", 2 * mib, false, false),
    ];
    assert_eq!(provisional_pending_layout_size(&mixed), 2 * mib);
    // Sums that are too large for a size do no harm.
    assert_eq!(sized(&[u128::MAX, u128::MAX]), u128::MAX);
}

#[test]
fn prefetch_respects_worker_limit() {
    let mut scan = scan_with_dirs(&["a", "b", "c", "d"]);
    scan.prefetch_children(0, OPTIONS);
    let progress = scan.progress();
    assert!(progress.active_jobs <= MAX_SCAN_JOBS);
    assert!(progress.active_jobs + progress.queued_jobs <= MAX_SCAN_JOBS);
}

fn finished_scan_with_sizes() -> ActiveScan {
    let mut scan = scan_with_dirs(&["small", "medium", "large"]);
    let sizes = [("small", 100), ("medium", 200), ("large", 300)];
    for (name, size) in sizes {
        let index = index_of(&scan, name);
        drain(&mut scan, vec![summary(index, size, 1)]);
    }
    assert!(scan.progress().finished);
    scan.take_started_jobs();
    scan
}

#[test]
fn warm_visible_children_prefetches_largest_visible_dirs_within_limit() {
    let mut scan = finished_scan_with_sizes();
    let (small, medium, large) =
        (index_of(&scan, "small"), index_of(&scan, "medium"), index_of(&scan, "large"));

    let scheduled = scan.warm_visible_children(&[0], OPTIONS, 2);

    assert_eq!(scheduled, 2);
    assert_eq!(
        scan.take_started_jobs(),
        vec![ScanJob::Children(large, OPTIONS), ScanJob::Children(medium, OPTIONS)]
    );
    assert_eq!(directory_scan_state(&scan, small), Some(DirectoryScanState::Pending));
    let progress = scan.progress();
    assert!(progress.active_jobs + progress.queued_jobs <= MAX_SCAN_JOBS);
    assert_eq!(scan.warm_visible_children(&[0], OPTIONS, 2), 0);
}

#[test]
fn warm_visible_children_advances_past_already_known_large_dirs() {
    let mut scan = finished_scan_with_sizes();
    let (small, medium, large) =
        (index_of(&scan, "small"), index_of(&scan, "medium"), index_of(&scan, "large"));
    scan.ensure_scanned(large, OPTIONS);
    drain(&mut scan, vec![batch(large, Vec::new(), true)]);
    scan.take_started_jobs();

    let scheduled = scan.warm_visible_children(&[0], OPTIONS, 2);

    assert_eq!(scheduled, 2);
    assert_eq!(
        scan.take_started_jobs(),
        vec![ScanJob::Children(medium, OPTIONS), ScanJob::Children(small, OPTIONS)]
    );
    assert_eq!(scan.warm_visible_children(&[0], OPTIONS, 0), 0);
}

#[test]
fn background_summaries_do_not_fill_interactive_capacity() {
    let mut scan = scan_with_dirs(&["a", "b", "c", "d"]);
    let progress = scan.progress();
    assert!(progress.active_jobs <= 1);
    assert_eq!(progress.queued_jobs, 0);
    assert!(progress.background_jobs >= 3);

    let child = children(&scan, 0)[0].index;
    scan.ensure_scanned(child, OPTIONS);
    let progress = scan.progress();
    assert_eq!(progress.queued_jobs, 0);
    assert!(scan.node(child).is_some_and(|node| node.scanning || node.scanned));
    assert!(progress.active_jobs <= MAX_SCAN_JOBS);
}

#[test]
fn already_scanned_subtree_is_not_rescanned() {
    let mut scan = scan_with_dirs(&["nested"]);
    let nested = index_of(&scan, "nested");
    scan.ensure_scanned(nested, OPTIONS);
    drain(&mut scan, vec![batch(nested, vec![found("child", 5, true)], true)]);
    assert!(scan.node(nested).is_some_and(|node| node.scanned));

    let before = scan.progress();
    scan.take_started_jobs();
    scan.ensure_scanned(nested, OPTIONS);
    scan.ensure_scanned(nested, OPTIONS);
    assert_eq!(scan.progress(), before);
    assert!(scan.take_started_jobs().is_empty());
}

#[test]
fn listed_directories_let_no_summary_wait() {
    let mut scan = scan_with_dirs(&["a", "b", "c", "d"]);
    let nested = scan.next_background_nodes(1)[0];
    scan.ensure_scanned(nested, OPTIONS);
    drain(&mut scan, vec![batch(nested, vec![found("inner", 5, true)], true)]);
    scan.take_started_jobs();
    let waiting = scan.next_background_nodes(10);
    assert!(!waiting.is_empty());
    assert!(!waiting.contains(&nested));
    let before = scan.progress();
    scan.ensure_scanned(nested, OPTIONS);
    scan.ensure_scanned(0, OPTIONS);
    assert_eq!(scan.next_background_nodes(10), waiting);
    assert_eq!(scan.progress(), before);
    assert!(scan.take_started_jobs().is_empty());
}

#[test]
fn listing_ahead_adds_no_background_work() {
    let names: Vec<String> =
        (0..(BACKGROUND_SUMMARIES_PER_LEVEL + 8)).map(|index| format!("dir-{index:02}")).collect();
    let refs: Vec<&str> = names.iter().map(|name| name.as_str()).collect();
    let mut scan = scan_with_dirs(&refs);
    scan.prefetch_children(0, OPTIONS);
    scan.warm_visible_children(&vec![0], OPTIONS, 4);
    let estimating = children(&scan, 0).iter().filter(|entry| entry.estimating).count();
    assert!(estimating <= BACKGROUND_SUMMARIES_PER_LEVEL);
    assert!(estimating > 0);
}

#[test]
fn summaries_complete_pending_directories() {
    let mut scan = scan_with_dirs(&["first", "second"]);
    let (first, second) = (index_of(&scan, "first"), index_of(&scan, "second"));
    for index in [first, second] {
        let entry = entry_view(&scan, index).expect("directory");
        assert!(entry.is_dir && entry.size_pending);
        assert_eq!((entry.size, entry.entry_count), (4096, None));
    }
    drain(&mut scan, vec![summary(first, 8200, 3)]);
    let entry = entry_view(&scan, first).expect("directory");
    assert!(!entry.size_pending);
    assert_eq!((entry.size, entry.entry_count), (8200, Some(3)));
    let entry = entry_view(&scan, second).expect("directory");
    assert!(entry.size_pending);
    assert_eq!((entry.size, entry.entry_count), (4096, None));
}

#[test]
fn directories_are_pending_whatever_happens_elsewhere() {
    let mut scan = scan_with_dirs(&["first", "second"]);
    let (first, second) = (index_of(&scan, "first"), index_of(&scan, "second"));
    let pending = |scan: &ActiveScan| {
        let entry = entry_view(scan, second).expect("directory");
        assert!(entry.is_dir && entry.size_pending);
        assert_eq!((entry.size, entry.entry_count), (4096, None));
    };
    pending(&scan);
    scan.ensure_scanned(second, OPTIONS);
    pending(&scan);
    drain(&mut scan, vec![summary(first, 8200, 3)]);
    pending(&scan);
    scan.prefetch_children(0, OPTIONS);
    scan.warm_visible_children(&[0], OPTIONS, 4);
    drain(&mut scan, vec![batch(first, vec![found("inner", 7, true)], true)]);
    pending(&scan);
    drain(&mut scan, vec![summary(second, 5000, 9)]);
    let entry = entry_view(&scan, second).expect("directory");
    assert!(!entry.size_pending);
    assert_eq!((entry.size, entry.entry_count), (5000, Some(9)));
}

#[test]
fn summaries_count_while_something_below_waits() {
    let mut scan = scan_with_dirs(&["first", "second"]);
    let first = index_of(&scan, "first");
    scan.ensure_scanned(first, OPTIONS);
    drain(&mut scan, vec![batch(first, vec![found("inner", 70, true)], true)]);
    let inner = children(&scan, first)[0].index;
    assert!(scan.next_background_nodes(10).contains(&inner));
    drain(&mut scan, vec![summary(first, 9000, 5)]);
    assert!(scan.next_background_nodes(10).contains(&inner));
    let entry = entry_view(&scan, first).expect("directory");
    assert!(!entry.size_pending);
    assert_eq!((entry.size, entry.entry_count), (9000, Some(5)));
}

#[test]
fn background_work_is_bounded_over_several_batches() {
    let entries = |from: usize| -> Vec<ScannedEntry> {
        (from..from + 9).map(|index| found(&format!("dir-{index:02}"), 4096, true)).collect()
    };
    let mut scan = start();
    drain(&mut scan, vec![batch(0, entries(0), false), batch(0, entries(9), false)]);
    drain(&mut scan, vec![batch(0, entries(18), true)]);
    assert_eq!(scan.node_count(), 28);
    let estimating = children(&scan, 0).iter().filter(|entry| entry.estimating).count();
    assert_eq!(estimating, BACKGROUND_SUMMARIES_PER_LEVEL);
}

#[test]
fn cancel_stops_accepting_scan_results() {
    let names: Vec<String> = (0..8).map(|index| format!("dir-{index}")).collect();
    let refs: Vec<&str> = names.iter().map(|name| name.as_str()).collect();
    let mut scan = scan_with_dirs(&refs);
    scan.prefetch_children(0, OPTIONS);

    scan.cancel();
    let entries_before = scan.progress().entries_traversed;
    let count_before = scan.node_count();
    assert!(!drain(&mut scan, vec![batch(1, vec![found("late", 5, false)], true)]));

    let progress = scan.progress();
    assert!(progress.canceled);
    assert!(progress.finished);
    assert_eq!(progress.active_jobs, 0);
    assert_eq!(progress.queued_jobs, 0);
    assert_eq!(progress.background_jobs, 0);
    assert_eq!(progress.entries_traversed, entries_before);
    assert_eq!(scan.node_count(), count_before);
    for index in 0..scan.node_count() {
        assert!(scan.node(index).is_some_and(|node| !node.scanning && !node.summarizing));
    }
    assert!(scan.take_started_jobs().is_empty());
}

#[test]
fn progress_reports_interactive_and_background_work() {
    let scan = scan_with_dirs(&["a", "b", "c"]);
    let progress = scan.progress();
    assert!(progress.active_jobs <= MAX_SCAN_JOBS);
    assert!(progress.background_jobs > 0 || progress.active_jobs > 0);
    assert!(!progress.canceled);
    assert_eq!(progress.entries_traversed, 3);
}

#[test]
fn io_errors_keep_user_visible_samples() {
    let mut count = 0;
    let mut samples = Vec::new();

    record_io_error(
        &mut count,
        &mut samples,
        &OsPath::from_text("/tmp/not-readable"),
        std::io::Error::new(std::io::ErrorKind::PermissionDenied, "permission denied"),
    );

    assert_eq!(count, 1);
    assert_eq!(samples.len(), 1);
    assert_eq!(samples[0].path, OsPath::from_text("/tmp/not-readable"));
    assert!(samples[0].message.contains("permission denied"));
}

#[test]
fn only_the_first_error_samples_are_kept() {
    let mut count = 0;
    let mut samples = Vec::new();
    let path = OsPath::from_text("/tmp");
    for number in 0..MAX_ERROR_SAMPLES + 3 {
        record_error_message(&mut count, &mut samples, &path, format!("error {number}"));
    }
    assert_eq!(count, 11);
    assert_eq!(samples.len(), 8);
    assert_eq!(samples[7].message, "error 7");

    let mut few: Vec<IoErrorSample> = samples.iter().take(6).cloned().collect();
    append_error_samples(&mut few, samples.clone());
    let words: Vec<&str> = few.iter().map(|sample| sample.message.as_str()).collect();
    assert_eq!(words[5..].to_vec(), vec!["error 5", "error 0", "error 1"]);
    append_error_samples(&mut few, samples);
    assert_eq!(few.len(), 8);
}

#[test]
fn sizes_are_lengths_or_blocks() {
    let entry = metadata(false, 1_000);
    assert_eq!(disk_size(&entry, true), 1_000);
    assert_eq!(disk_size(&entry, false), 8 * 512);
}

#[test]
fn size_changes_reach_every_directory_above() {
    let mut scan = start();
    drain(
        &mut scan,
        vec![batch(0, vec![found("a", 10, true), found("file", 7, false)], false)],
    );
    assert_eq!(entry_view(&scan, 0).expect("root").size, 17);
    drain(&mut scan, vec![batch(0, vec![found("b", 3, false)], true)]);
    assert_eq!(entry_view(&scan, 0).expect("root").size, 20);
    assert_eq!(entry_view(&scan, 0).expect("root").entry_count, Some(3));

    let a = index_of(&scan, "a");
    scan.ensure_scanned(a, OPTIONS);
    drain(&mut scan, vec![batch(a, vec![found("deep", 40, true)], true)]);
    assert_eq!(entry_view(&scan, a).expect("a").size, 40);
    assert_eq!(entry_view(&scan, 0).expect("root").size, 50);

    let deep = children(&scan, a)[0].index;
    assert_eq!(parent(&scan, deep), Some(a));
    drain(&mut scan, vec![summary(deep, 25, 4)]);
    assert_eq!(entry_view(&scan, a).expect("a").size, 25);
    assert_eq!(entry_view(&scan, 0).expect("root").size, 35);
    assert_eq!(scan.stats().total_bytes, Some(35));
}

#[test]
fn progress_of_a_summary_lets_sizes_only_grow() {
    let mut scan = scan_with_dirs(&["nested"]);
    let nested = index_of(&scan, "nested");
    let progress = |size: u128, seen: u64| ScanReport {
        event: ScanEvent::SummaryProgress {
            index: nested,
            progress: SummaryProgress { size, entry_count: seen, entries_seen: seen },
        },
        child_probes: Vec::new(),
    };
    drain(&mut scan, vec![progress(9_000, 1_024)]);
    assert_eq!(entry_view(&scan, nested).expect("nested").size, 9_000);
    drain(&mut scan, vec![progress(5_000, 2_048)]);
    let entry = entry_view(&scan, nested).expect("nested");
    assert_eq!((entry.size, entry.estimate_entries_seen), (9_000, 2_048));
    drain(&mut scan, vec![summary(nested, 6_000, 3_000), progress(99_000, 4_000)]);
    assert_eq!(entry_view(&scan, nested).expect("nested").size, 6_000);
    assert_eq!(entry_view(&scan, 0).expect("root").size, 6_000);
}

#[test]
fn reports_about_unknown_nodes_end_their_jobs_only() {
    let mut scan = start();
    assert_eq!(scan.progress().active_jobs, 1);
    drain(&mut scan, vec![batch(77, vec![found("lost", 5, false)], true)]);
    assert_eq!(scan.progress().active_jobs, 0);
    assert_eq!(scan.node_count(), 1);
    drain(&mut scan, vec![summary(78, 5, 5)]);
    assert_eq!(scan.progress().active_jobs, 0);
    assert_eq!(scan.progress().entries_traversed, 0);
}

#[test]
fn interactive_jobs_wait_for_room_and_start_in_order() {
    let mut scan = scan_with_dirs(&["a", "b", "c", "d"]);
    let indices: Vec<usize> =
        ["a", "b", "c", "d"].iter().map(|name| index_of(&scan, name)).collect();
    for index in indices.iter() {
        scan.ensure_scanned(*index, OPTIONS);
    }
    // One summary runs, so one listing starts and the others wait.
    let progress = scan.progress();
    assert_eq!((progress.active_jobs, progress.queued_jobs), (2, 3));
    scan.take_started_jobs();
    drain(&mut scan, vec![batch(indices[0], Vec::new(), true)]);
    assert_eq!(scan.take_started_jobs(), vec![ScanJob::Children(indices[1], OPTIONS)]);
}

#[test]
fn children_are_listed_by_room_then_size_then_name() {
    let mut scan = start();
    let entries = vec![
        found("b", 5, false),
        found("a", 5, false),
        found("big", 900, false),
        found("none", 0, false),
    ];
    drain(&mut scan, vec![batch(0, entries, true)]);
    let names: Vec<String> = children(&scan, 0).into_iter().map(|entry| entry.name).collect();
    assert_eq!(names, vec!["big", "a", "b", "none"]);
    assert!(children(&scan, 99).is_empty());
}

#[test]
fn nodes_answer_for_their_paths_and_states() {
    let scan = scan_with_dirs(&["nested"]);
    let nested = index_of(&scan, "nested");
    assert_eq!(path_for_node(&scan, nested), Some(OsPath::from_text("/root/nested")));
    assert_eq!(path_for_node(&scan, 42), None);
    assert_eq!(parent(&scan, 0), None);
    assert_eq!(directory_scan_state(&scan, 0), Some(DirectoryScanState::Scanned));
    assert_eq!(directory_scan_state(&scan, 42), None);
    assert_eq!(entry_view(&scan, 0).expect("root").name, "/root");
    assert!(entry_view(&scan, 42).is_none());
    assert!(is_root_path(&OsPath::from_text("/")));
    assert!(is_root_path(&OsPath::from_text("")));
    assert!(!is_root_path(&OsPath::from_text("/home")));
    assert!(!is_root_path(&OsPath::from_text("home")));
}

#[test]
fn a_file_as_root_is_not_listed() {
    let scan = ActiveScan::start(OsPath::from_text("/file"), &metadata(false, 9), OPTIONS);
    assert_eq!(scan.progress().active_jobs, 0);
    assert_eq!(directory_scan_state(&scan, 0), Some(DirectoryScanState::NotDirectory));
    assert!(!entry_view(&scan, 0).expect("root").size_pending);
}

#[test]
fn finished_scans_complete_directories_from_below() {
    let mut scan = scan_with_dirs(&["nested"]);
    let nested = index_of(&scan, "nested");
    scan.ensure_scanned(nested, OPTIONS);
    drain(&mut scan, vec![batch(nested, vec![found("file", 5, false)], true)]);
    assert!(entry_view(&scan, 0).expect("root").size_pending);
    drain(&mut scan, vec![summary(nested, 5, 2)]);
    assert!(scan.progress().finished);
    assert!(!entry_view(&scan, 0).expect("root").size_pending);
}

#[test]
fn summary_caches_tell_paths_options_and_states_apart() {
    let mut cache = SummaryCache::new();
    let path = OsPath::from_text("/data/one");
    let now = Timestamp::from_secs(100);
    cache.insert(&path, OPTIONS, fingerprint(1), &summary_of(10, 1), now);
    cache.insert(&path, OPTIONS, fingerprint(2), &summary_of(20, 1), now);
    let same = OsPath::from_text("/data//./one/");
    assert_eq!(cache.get(&same, OPTIONS, fingerprint(1)).expect("hit").summary.size, 10);
    assert_eq!(cache.get(&path, OPTIONS, fingerprint(2)).expect("hit").summary.size, 20);
    assert!(cache.get(&path, OPTIONS, fingerprint(3)).is_none());
    assert!(cache.get(&path, ScanOptions::default(), fingerprint(1)).is_none());

    cache.insert(&same, OPTIONS, fingerprint(1), &summary_of(11, 1), now);
    let hit = cache.get(&path, OPTIONS, fingerprint(1)).expect("hit");
    assert_eq!(hit.summary.size, 11);
    assert!(hit.is_fresh(Timestamp::from_secs(100)));
    assert!(hit.is_fresh(Timestamp::from_secs(105)));
    assert!(!hit.is_fresh(Timestamp::from_secs(106)));
    assert!(!hit.is_fresh(Timestamp::from_secs(99)));
}

#[test]
fn invalidating_a_prefix_forgets_what_lies_below() {
    let mut cache = SummaryCache::new();
    let now = Timestamp::from_secs(100);
    for text in ["/data/one", "/data/one/two", "/data/oneself", "/data"] {
        let path = OsPath::from_text(text);
        cache.insert(&path, OPTIONS, fingerprint(1), &summary_of(10, 1), now);
    }
    cache.invalidate_prefix(&OsPath::from_text("/data/one"));
    let known = |text: &str| cache.get(&OsPath::from_text(text), OPTIONS, fingerprint(1)).is_some();
    assert!(!known("/data/one"));
    assert!(!known("/data/one/two"));
    assert!(known("/data/oneself"));
    assert!(known("/data"));
}

#[test]
fn one_summary_runs_at_a_time() {
    let mut scan = scan_with_dirs(&["a", "b", "c"]);
    let running = |scan: &ActiveScan| {
        (0..scan.node_count())
            .filter(|index| scan.node(*index).is_some_and(|node| node.summarizing))
            .collect::<Vec<usize>>()
    };
    let first = running(&scan);
    assert_eq!(first.len(), 1);
    assert_eq!(scan.progress().active_jobs, 1);
    drain(&mut scan, vec![summary(first[0], 10, 1)]);
    let second = running(&scan);
    assert_eq!(second.len(), 1);
    assert_ne!(second, first);
    let waiting = scan.next_background_nodes(5);
    assert_eq!(waiting.len(), 1);
    scan.ensure_scanned(waiting[0], OPTIONS);
    assert_eq!(running(&scan), second);
    assert_eq!(scan.progress().active_jobs, 2);
}

#[test]
fn a_batch_counts_with_what_is_remembered() {
    let mut cache = SummaryCache::new();
    let now = Timestamp::from_secs(2_000);
    let nested = OsPath::from_text("/root/nested");
    cache.insert(&nested, OPTIONS, fingerprint(7), &summary_of(700, 3), Timestamp::from_secs(1));
    let mut scan = start();
    let entries = vec![found("nested", 4096, true), found("file", 40, false)];
    let mut report = batch(0, entries, true);
    report.child_probes = vec![Some(fingerprint(7)), Some(fingerprint(8))];
    let mut probes = HashMap::new();
    scan.drain_events(vec![report], &mut probes, &mut cache, now);
    assert_eq!(entry_view(&scan, 0).expect("root").size, 740);
    assert_eq!(probes.len(), 1);
    // What is remembered is too old, so it is counted and summed up anew.
    assert_eq!(scan.take_started_jobs().last(), Some(&ScanJob::Summary(1, OPTIONS)));
}

#[test]
fn equal_requests_are_made_once() {
    let mut scan = scan_with_dirs(&["a", "b", "c"]);
    for index in [1, 2, 3] {
        scan.ensure_scanned(index, OPTIONS);
    }
    let before = scan.progress();
    for index in [3, 2, 1, 3] {
        scan.ensure_scanned(index, OPTIONS);
    }
    scan.ensure_scanned(99, OPTIONS);
    assert_eq!(scan.progress(), before);
}
