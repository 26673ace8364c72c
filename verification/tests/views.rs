//! What is shown: treemap, texts, colors, and moving about.
use spacesniffer1000::clock::Timestamp;
use spacesniffer1000::deletion::DeleteMode;
use spacesniffer1000::filters::Filters;
use spacesniffer1000::labels::{
    active_filter_summary, age_summary, bool_text, child_limit_text, decimal, delete_button,
    delete_question, delete_title, entry_count_text, entry_detail, entry_detail_for, filter_chips,
    filter_chips_for, filter_window_title, filters_active, fit_text, focus_summary,
    focus_summary_for, hidden_ancestors_text, hidden_entries_text, human_bytes, kind_word,
    mount_source_text, scan_activity_text, scan_mode_text, scan_status, scan_status_for,
    size_floor, size_note, stored_bool, SizeNote,
};
use spacesniffer1000::navigation::{
    hidden_breadcrumbs, shows_breadcrumb, Explorer, ParentShare,
};
use spacesniffer1000::paths::OsPath;
use spacesniffer1000::scan::cache::SummaryCache;
use spacesniffer1000::scan::data::{
    child_batch_stats, EntryMetadata, ScanEvent, ScanOptions, ScannedEntry,
};
use spacesniffer1000::scan::listing::{apply_pending_layout_weights, EntryView};
use spacesniffer1000::scan::state::{ActiveScan, ScanReport};
use spacesniffer1000::session::{
    child_total, confirms_deletion, empty_text, key_actions, largest_tile, path_dirty, path_text,
    rescan_label, scan_options_dirty, scan_path, status_text, treemap_items, DeleteRequest,
    KeyAction, Keys,
};
use spacesniffer1000::theme::{
    color_with_alpha, overlay_color, themed_effect_color, Rgb, Rgba, UiTheme,
};
use spacesniffer1000::treemap::{
    balanced_grid_row_lengths, best_grid_shape, cap_dominant_layout_weight, decide_row_step,
    folds_tail, grids_final_row, may_fold_tail, rows_for_columns, weigh_items, RowPlan, RowScores,
    RowStep, TreemapItem, WeightedItem, INFINITE_SCORE, STRIP_SCORE,
};
use std::collections::HashMap;

#[test]
fn summarizes_active_filters() {
    assert_eq!(active_filter_summary(&Filters::default()), "no active filters");
    assert_eq!(
        active_filter_summary(&Filters { name_substring: "target".into(), ..Filters::default() }),
        "1 active filter"
    );
    assert_eq!(
        active_filter_summary(&Filters {
            name_substring: "target".into(),
            min_size_bytes: 1024,
            max_age_days: 7,
        }),
        "3 active filters"
    );
}

#[test]
fn white_space_is_no_filter() {
    let filters = Filters { name_substring: " \t".into(), ..Filters::default() };
    assert!(!filters_active(&filters));
    assert_eq!(filter_window_title(&filters), "Filters");
    let filters = Filters { max_age_days: 1, ..Filters::default() };
    assert!(filters_active(&filters));
    assert_eq!(filter_window_title(&filters), "Filters - active");
}

#[test]
fn chips_are_shown_for_active_filters() {
    let filters =
        Filters { name_substring: " log ".into(), min_size_bytes: 2048, max_age_days: 3 };
    assert_eq!(filter_chips(&filters), vec!["name: log", "minimum 2 KiB", "modified 3 days"]);
    assert_eq!(filter_chips_for(&filters, "X")[1], "minimum X");
    assert!(filter_chips(&Filters::default()).is_empty());
}

#[test]
fn sizes_are_shown_in_binary_units() {
    assert_eq!(human_bytes(0), "0 B");
    assert_eq!(human_bytes(1536), "1.50 KiB");
    assert_eq!(human_bytes(u128::MAX), human_bytes(u64::MAX as u128));
    assert_eq!(entry_detail(2048, false), "2 KiB  |  file");
    assert_eq!(entry_detail_for("x", true), "x  |  folder");
    assert_eq!(focus_summary(2048, 3, false, true), "2 KiB  |  3 visible  |  folder");
    assert_eq!(focus_summary_for("x", 0, true, false), "x  |  0 visible filtered  |  file");
    assert_eq!(scan_status(true, 7, Some(2048), 1), "7 entries, 2 KiB, 1 I/O errors");
    assert_eq!(scan_status(true, 7, None, 0), "7 entries, 0 B, 0 I/O errors");
    assert_eq!(scan_status(false, 7, None, 0), "Scanning 7 entries...");
    assert_eq!(scan_status_for(true, 1, "y", 2), "1 entries, y, 2 I/O errors");
}

#[test]
fn numbers_are_written_in_decimal_digits() {
    for number in [0, 1, 9, 10, 99, 100, 101, 1_234_567_890, u64::MAX] {
        assert_eq!(decimal(number), number.to_string());
    }
    assert_eq!(scan_activity_text(12, 2), "scanning  12 entries  2 jobs");
    assert_eq!(entry_count_text(Some(5)), "5 entries");
    assert_eq!(entry_count_text(None), "not scanned");
    assert_eq!(child_limit_text(100, 80), "showing first 80 of 100 visible");
    assert_eq!(
        hidden_entries_text(100, 80),
        "20 additional entries are hidden in this inspector list"
    );
    assert_eq!(
        hidden_entries_text(1, 80),
        "0 additional entries are hidden in this inspector list"
    );
    assert_eq!(hidden_ancestors_text(3), "3 hidden ancestor folders");
    assert_eq!(age_summary(0), "Any modified date");
    assert_eq!(age_summary(14), "Modified within 14 days");
}

#[test]
fn words_follow_choices() {
    let options = ScanOptions { apparent_size: true, cross_filesystems: false };
    assert_eq!(scan_mode_text(options), "Apparent size / Same filesystem");
    let options = ScanOptions { apparent_size: false, cross_filesystems: true };
    assert_eq!(scan_mode_text(options), "Allocated size / All filesystems");
    assert_eq!((kind_word(true), kind_word(false)), ("folder", "file"));
    assert_eq!(mount_source_text(""), "unknown source");
    assert_eq!(mount_source_text("/dev/sda"), "/dev/sda");
    assert_eq!(delete_title(DeleteMode::Trash), "Move to Trash");
    assert_eq!(delete_title(DeleteMode::Permanent), "Permanent Delete");
    assert_eq!(delete_button(DeleteMode::Trash), "Move to Trash");
    assert_eq!(delete_button(DeleteMode::Permanent), "Delete Forever");
    assert_eq!(delete_question(DeleteMode::Trash), "Move this path to the trash?");
    assert_eq!(delete_question(DeleteMode::Permanent), "Permanently delete this path?");
    assert_eq!(status_text(true, "idle"), "Path changed; scan to update.");
    assert_eq!(status_text(false, "idle"), "idle");
    assert_eq!((rescan_label(true), rescan_label(false)), ("scan path", "rescan to apply"));
    assert_eq!(empty_text(true, &Filters::default()), "Loading this folder...");
    assert_eq!(empty_text(false, &Filters::default()), "No visible children");
    let filters = Filters { min_size_bytes: 1, ..Filters::default() };
    assert_eq!(empty_text(false, &filters), "No matching children");
}

#[test]
fn typed_sizes_are_explained() {
    assert_eq!(size_note(" "), SizeNote::NoFloor);
    assert_eq!(size_note("0.2"), SizeNote::NoFloor);
    assert_eq!(size_note("2K"), SizeNote::Parsed(2048));
    assert_eq!(size_note("2X"), SizeNote::Paused);
    assert_eq!((size_floor("2K"), size_floor("2X")), (2048, 0));
}

#[test]
fn long_texts_are_cut() {
    assert_eq!(fit_text("hello", 5), "hello");
    assert_eq!(fit_text("hello!", 5), "he...");
    assert_eq!(fit_text("héllo!", 4), "h...");
    assert_eq!(fit_text("hello", 3), "...");
    assert_eq!(fit_text("hello", 1), ".");
    assert_eq!(fit_text("hello", 0), "");
}

#[test]
fn stored_values_are_found_again() {
    for value in [true, false] {
        assert_eq!(stored_bool(bool_text(value)), Some(value));
        assert_eq!(bool_text(value), value.to_string());
    }
    assert_eq!(stored_bool("True"), None);
    for theme in UiTheme::all() {
        assert_eq!(UiTheme::from_storage(theme.storage_value()), theme);
    }
    assert_eq!(UiTheme::from_storage("anything"), UiTheme::Graphite);
    assert_eq!(UiTheme::Frost.label(), "Frost");
    assert_eq!(UiTheme::Retrowave.description(), "Neon arcade contrast");
}

#[test]
fn colors_are_let_through_by_their_opacity() {
    for channel in 0..=255u8 {
        for alpha in 0..=255u8 {
            let seen = color_with_alpha(Rgb { r: channel, g: 0, b: 255 }, alpha);
            let nearest = (channel as f64 * alpha as f64 / 255.0).round() as u8;
            assert_eq!(seen, Rgba { r: nearest, g: 0, b: alpha, a: alpha });
        }
    }
    assert_eq!(
        themed_effect_color(UiTheme::Frost, 128),
        Rgba { r: 18, g: 50, b: 75, a: 128 }
    );
    assert_eq!(overlay_color(UiTheme::Frost, 54), Rgba { r: 54, g: 54, b: 54, a: 54 });
    assert_eq!(
        overlay_color(UiTheme::Graphite, 255),
        Rgba { r: 18, g: 19, b: 21, a: 255 }
    );
}

#[test]
fn layout_leaves_out_nothing_that_takes_room() {
    let items = vec![
        TreemapItem { item: "a", size: 0 },
        TreemapItem { item: "b", size: 10 },
        TreemapItem { item: "c", size: 900 },
        TreemapItem { item: "d", size: 10 },
        TreemapItem { item: "e", size: 80 },
    ];
    let shown: Vec<(&str, u128, u128)> = weigh_items(items)
        .into_iter()
        .map(|item| (item.item, item.size, item.layout_size))
        .collect();
    assert_eq!(
        shown,
        vec![("c", 900, 100), ("e", 80, 80), ("b", 10, 10), ("d", 10, 10)]
    );
}

#[test]
fn tiles_are_measured_by_their_room() {
    let entry = |index: usize, size: u128, size_pending: bool| EntryView {
        index,
        name: index.to_string(),
        path: OsPath::from_text("/root/entry"),
        size,
        layout_size: size,
        modified: Timestamp::epoch(),
        is_dir: true,
        entry_count: None,
        metadata_error: false,
        size_pending,
        estimating: false,
        estimate_entries_seen: 0,
    };
    let mut entries = vec![entry(3, 5_000_000, false), entry(1, 0, true), entry(2, 0, false)];
    apply_pending_layout_weights(&mut entries);
    let items: Vec<(usize, u128)> =
        treemap_items(&entries).into_iter().map(|item| (item.item, item.size)).collect();
    assert_eq!(items, vec![(3, 5_000_000), (1, 5_000_000), (2, 0)]);
    let shown: Vec<usize> =
        weigh_items(treemap_items(&entries)).into_iter().map(|item| item.item).collect();
    assert_eq!(shown, vec![3, 1]);
}

#[test]
fn the_first_item_is_cut_back_in_single_precision() {
    let item = |size: u128| WeightedItem { item: (), size, layout_size: size };
    let mut items = vec![item(1 << 60), item(33_554_433), item(2)];
    cap_dominant_layout_weight(&mut items);
    assert_eq!(items[0].layout_size, (33_554_435_u128 as f32) as u128);
    assert_eq!(items[0].size, 1 << 60);
    let mut alone = vec![item(7)];
    cap_dominant_layout_weight(&mut alone);
    assert_eq!(alone[0].layout_size, 7);
    let mut even = vec![item(7), item(7)];
    cap_dominant_layout_weight(&mut even);
    assert_eq!(even[0].layout_size, 7);
}

#[test]
fn grids_share_items_evenly() {
    assert_eq!(balanced_grid_row_lengths(7, 3, 3), vec![3, 2, 2]);
    assert_eq!(balanced_grid_row_lengths(5, 5, 1), vec![5]);
    assert_eq!(balanced_grid_row_lengths(4, 1, 4), vec![1, 1, 1, 1]);
    assert_eq!(balanced_grid_row_lengths(9, 2, 3), vec![2, 2, 2]);
    assert_eq!(balanced_grid_row_lengths(0, 2, 2), vec![0, 0]);
    for count in 1..40usize {
        for columns in 1..=count {
            let rows = rows_for_columns(count, columns);
            assert_eq!(rows, count.div_ceil(columns));
            let lengths = balanced_grid_row_lengths(count, columns, rows);
            assert_eq!(lengths.iter().sum::<usize>(), count);
            assert!(lengths.iter().max().expect("rows") - lengths.iter().min().expect("rows") <= 1);
        }
    }
}

#[test]
fn the_first_of_the_best_grids_is_chosen() {
    let scores = |values: &[f32]| values.iter().map(|value| value.to_bits()).collect::<Vec<u32>>();
    assert_eq!(best_grid_shape(&scores(&[3.0, 1.5, 1.5, 2.0])), (2, 2));
    assert_eq!(best_grid_shape(&scores(&[1.0, 1.0])), (1, 2));
    assert_eq!(best_grid_shape(&scores(&[f32::INFINITY, f32::INFINITY, f32::INFINITY])), (1, 3));
    assert_eq!(STRIP_SCORE, 2.13_f32.to_bits());
    assert_eq!(INFINITE_SCORE, f32::INFINITY.to_bits());
}

#[test]
fn rows_grow_while_they_stay_square() {
    let scores = |row: f32, longer: f32, row_painted: f32, longer_painted: f32, split: f32| {
        RowScores {
            row_worst: row.to_bits(),
            longer_worst: longer.to_bits(),
            row_painted: row_painted.to_bits(),
            longer_painted: longer_painted.to_bits(),
            split_painted: split.to_bits(),
        }
    };
    let square = scores(2.0, 1.5, 1.2, 1.1, 1.0);
    assert_eq!(decide_row_step(&square, false, false), RowStep::Extend);
    assert_eq!(decide_row_step(&square, false, true), RowStep::Fold);
    let worse = scores(1.5, 2.0, 1.2, 1.3, 1.0);
    assert_eq!(decide_row_step(&worse, false, false), RowStep::Close);
    assert_eq!(decide_row_step(&worse, true, false), RowStep::Close);
    let lonely = scores(1.5, 2.0, 1.2, 1.3, 1.4);
    assert_eq!(decide_row_step(&lonely, true, false), RowStep::Extend);
    assert_eq!(decide_row_step(&lonely, false, false), RowStep::Close);
    let strip = scores(1.5, 2.0, 3.0, 2.9, 1.0);
    assert_eq!(decide_row_step(&strip, false, false), RowStep::Extend);
}

#[test]
fn short_tails_are_folded_where_that_looks_better() {
    assert!(may_fold_tail(2, 8));
    assert!(!may_fold_tail(2, 2));
    assert!(!may_fold_tail(1, 9));
    assert!(!may_fold_tail(3, 8));
    let bits = |value: f32| value.to_bits();
    assert!(folds_tail(2, 3, true, bits(1.0), bits(3.0), bits(2.0)));
    assert!(folds_tail(2, 3, true, bits(3.0), bits(1.5), bits(1.4)));
    assert!(!folds_tail(2, 3, true, bits(1.0), bits(1.5), bits(1.4)));
    assert!(!folds_tail(2, 3, false, bits(3.0), bits(3.0), bits(1.0)));
    assert!(!folds_tail(2, 3, true, bits(3.0), bits(3.0), bits(3.0)));
    assert!(grids_final_row(2, true, bits(3.0), bits(2.0)));
    assert!(!grids_final_row(1, true, bits(3.0), bits(2.0)));
    assert!(!grids_final_row(2, true, bits(2.0), bits(1.0)));
    assert!(!grids_final_row(2, false, bits(3.0), bits(2.0)));
}

#[test]
fn rows_hold_every_item_once() {
    let mut plan = RowPlan::begin(7);
    let steps =
        [RowStep::Extend, RowStep::Close, RowStep::Close, RowStep::Extend, RowStep::Fold];
    let mut rows = Vec::new();
    for step in steps {
        assert!(plan.next().is_some());
        if let Some(row) = plan.step(step) {
            rows.push((row.start, row.end));
        }
    }
    rows.push((plan.row().start, plan.row().end));
    assert_eq!(rows, vec![(0, 2), (2, 3), (3, 7)]);
    assert_eq!(plan.next(), None);
    assert_eq!(RowPlan::begin(0).next(), None);
}

const OPTIONS: ScanOptions = ScanOptions { apparent_size: true, cross_filesystems: false };

fn drain(explorer: &mut Explorer, parent: usize, entries: &[(&str, u128, bool)]) {
    let children = entries
        .iter()
        .map(|(name, size, is_dir)| ScannedEntry {
            name: name.to_string(),
            path: OsPath::from_text(&format!("/top/{name}")),
            size: *size,
            modified: Timestamp::from_secs(50),
            is_dir: *is_dir,
            entry_count: None,
            metadata_error: false,
            boundary_dev: None,
        })
        .collect();
    let report = ScanReport {
        event: ScanEvent::ChildrenBatch {
            parent,
            children,
            options: OPTIONS,
            stats: child_batch_stats(),
            done: true,
        },
        child_probes: Vec::new(),
    };
    let mut probes = HashMap::new();
    let mut cache = SummaryCache::new();
    let now = Timestamp::from_secs(100);
    let scan = explorer.scan.as_mut().expect("scan");
    assert!(scan.drain_events(vec![report], &mut probes, &mut cache, now));
}

fn explorer() -> Explorer {
    let metadata = EntryMetadata {
        len: 10,
        blocks: 1,
        dev: 1,
        ino: 1,
        nlink: 1,
        is_dir: true,
        modified: Timestamp::epoch(),
        mtime: 0,
        mtime_nsec: 0,
        ctime: 0,
        ctime_nsec: 0,
    };
    let mut explorer = Explorer::new();
    assert!(!explorer.can_go_up());
    assert!(explorer.selected_entry().is_none());
    explorer.begin(ActiveScan::start(OsPath::from_text("/top"), &metadata, OPTIONS));
    assert!(explorer.is_loading_focus());
    drain(
        &mut explorer,
        0,
        &[("dir", 2_000_000, true), ("big", 3_000_000, false), ("small", 5, false)],
    );
    explorer
}

#[test]
fn going_up_undoes_expanding_and_focusing() {
    let mut explorer = explorer();
    assert!(!explorer.is_loading_focus());
    assert_eq!(explorer.selected, Some(0));
    explorer.expand_directory(1, OPTIONS, 77);
    assert_eq!(explorer.selected, Some(1));
    assert!(explorer.expansion.contains(1));
    assert_eq!(explorer.expansion.started_at(1), Some(77));
    explorer.expand_directory(1, OPTIONS, 99);
    assert_eq!(explorer.expansion.started_at(1), Some(77));
    assert_eq!(explorer.expansion.stack().len(), 1);
    assert!(explorer.can_go_up());
    explorer.selected = Some(2);
    assert!(explorer.go_up());
    assert_eq!(explorer.selected, Some(1));
    assert!(!explorer.expansion.contains(1));
    assert_eq!(explorer.expansion.started_at(1), None);
    assert!(!explorer.can_go_up());
    assert!(!explorer.go_up());

    explorer.expand_directory(1, OPTIONS, 5);
    explorer.focus_directory(1, OPTIONS);
    assert_eq!((explorer.focus, explorer.selected), (Some(1), Some(1)));
    assert!(explorer.expansion.stack().is_empty());
    assert_eq!(explorer.breadcrumbs(), vec![0, 1]);
    assert!(explorer.go_up());
    assert_eq!((explorer.focus, explorer.selected), (Some(0), Some(0)));
}

#[test]
fn selection_moves_within_what_is_shown() {
    let mut explorer = explorer();
    let now = Timestamp::from_secs(100);
    let filters = Filters::default();
    let entries = explorer.focused_entries(&filters, now);
    let order: Vec<usize> = entries.iter().map(|entry| entry.index).collect();
    assert_eq!(order, vec![2, 1, 3]);
    explorer.select_sibling(&entries, true);
    assert_eq!(explorer.selected, Some(1));
    explorer.select_sibling(&entries, true);
    explorer.select_sibling(&entries, true);
    assert_eq!(explorer.selected, Some(3));
    explorer.select_sibling(&entries, false);
    assert_eq!(explorer.selected, Some(1));
    explorer.select_boundary_sibling(&entries, false);
    assert_eq!(explorer.selected, Some(3));
    explorer.select_boundary_sibling(&entries, true);
    assert_eq!(explorer.selected, Some(2));
    explorer.select_sibling(&entries, false);
    assert_eq!(explorer.selected, Some(2));

    let narrow = Filters { min_size_bytes: 10, ..Filters::default() };
    explorer.selected = Some(3);
    let visible = explorer.focused_entries(&narrow, now);
    assert_eq!(visible.len(), 2);
    explorer.normalize_selection(&visible);
    assert_eq!(explorer.selected, Some(2));
    explorer.selected = Some(1);
    explorer.normalize_selection(&visible);
    assert_eq!(explorer.selected, Some(1));
    explorer.selected = Some(9);
    explorer.normalize_selection(&Vec::new());
    assert_eq!(explorer.selected, Some(0));
    explorer.focus = None;
    explorer.normalize_selection(&visible);
    assert_eq!(explorer.selected, None);
    assert!(explorer.focused_entries(&filters, now).is_empty());
}

#[test]
fn directories_are_activated_and_files_are_not() {
    let mut explorer = explorer();
    explorer.selected = Some(2);
    assert!(!explorer.activate_selected_directory(true, OPTIONS, 1));
    assert_eq!(explorer.focus, Some(0));
    explorer.selected = Some(1);
    assert!(explorer.activate_selected_directory(false, OPTIONS, 1));
    assert!(explorer.expansion.contains(1));
    assert!(explorer.activate_selected_directory(true, OPTIONS, 1));
    assert_eq!(explorer.focus, Some(1));

    explorer.click_tile(2, false, OPTIONS, 3);
    assert_eq!(explorer.selected, Some(2));
    assert!(!explorer.expansion.contains(2));
    explorer.click_tile(1, true, OPTIONS, 3);
    assert!(explorer.expansion.contains(1));
    explorer.hover_directory(0, OPTIONS);
    assert_eq!(explorer.selected, Some(1));
}

#[test]
fn shares_are_measured_by_the_parent() {
    let explorer = explorer();
    assert_eq!(explorer.selected_parent_share(0, 5), ParentShare::Whole);
    assert_eq!(
        explorer.selected_parent_share(3, 5),
        ParentShare::Part(5, 5_000_005)
    );
    assert_eq!(Explorer::new().selected_parent_share(3, 5), ParentShare::Unknown);
    let entries = explorer.focused_entries(&Filters::default(), Timestamp::from_secs(100));
    assert_eq!(child_total(&entries), 5_000_005);
    assert_eq!(child_total(&Vec::new()), 1);
    assert_eq!(largest_tile(&entries), 3_000_000);
    assert_eq!(largest_tile(&Vec::new()), 1);
}

#[test]
fn long_paths_hide_their_middle() {
    assert_eq!(hidden_breadcrumbs(5), 0);
    assert_eq!(hidden_breadcrumbs(8), 3);
    let shown: Vec<usize> = (0..8).filter(|place| shows_breadcrumb(8, *place)).collect();
    assert_eq!(shown, vec![0, 4, 5, 6, 7]);
    assert!((0..5).all(|place| shows_breadcrumb(5, place)));
}

#[test]
fn paths_and_options_out_of_date_are_noticed() {
    let explorer = explorer();
    let scan = explorer.scan.as_ref();
    assert!(!path_dirty(scan, "  /top/ "));
    assert!(path_dirty(scan, "/other"));
    assert!(!path_dirty(None, "/other"));
    assert_eq!(scan_path(" /a b\n"), OsPath::from_text("/a b"));
    assert!(scan_options_dirty(true, OPTIONS, ScanOptions::default()));
    assert!(!scan_options_dirty(true, OPTIONS, OPTIONS));
    assert!(!scan_options_dirty(false, OPTIONS, ScanOptions::default()));
}

#[test]
fn permanent_deletion_asks_for_the_exact_path() {
    let path = OsPath::from_bytes(b"/top/a\xff".to_vec());
    assert_eq!(path_text(&path), "/top/a\u{fffd}");
    let request = DeleteRequest { path: path.clone(), mode: DeleteMode::Permanent };
    assert!(request.is_confirmed("/top/a\u{fffd}"));
    assert!(!request.is_confirmed("/top/a"));
    let request = DeleteRequest { path, mode: DeleteMode::Trash };
    assert!(request.is_confirmed(""));
    assert!(confirms_deletion(DeleteMode::Permanent, "x", "x"));
    assert!(!confirms_deletion(DeleteMode::Permanent, "x", "x "));
}

#[test]
fn keys_act_in_order_and_not_while_typing() {
    let none = Keys {
        back_button: false,
        refresh: false,
        escape: false,
        up: false,
        down: false,
        home: false,
        end: false,
        enter: false,
        backspace: false,
        ctrl: false,
    };
    assert!(key_actions(&none, false).is_empty());
    let all = Keys {
        back_button: true,
        refresh: true,
        escape: true,
        up: true,
        down: true,
        home: true,
        end: true,
        enter: true,
        backspace: true,
        ctrl: true,
    };
    let always = vec![KeyAction::GoUp, KeyAction::Rescan, KeyAction::CloseWindows];
    assert_eq!(key_actions(&all, true), always);
    let mut expected = always;
    expected.extend([
        KeyAction::SelectPrevious,
        KeyAction::SelectNext,
        KeyAction::SelectFirst,
        KeyAction::SelectLast,
        KeyAction::FocusSelected,
        KeyAction::GoUp,
    ]);
    assert_eq!(key_actions(&all, false), expected);
    let enter = Keys { enter: true, ..none };
    assert_eq!(key_actions(&enter, false), vec![KeyAction::ExpandSelected]);
}
