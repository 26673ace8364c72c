//! Paths, mounts and what may be deleted.
use spacesniffer1000::clock::Timestamp;
use spacesniffer1000::deletion::{
    ensure_deletable, plan_deletion, DeleteAction, DeleteError, DeleteMode,
};
use spacesniffer1000::mounts::parse_mountinfo;
use spacesniffer1000::paths::OsPath;
use std::path::Path;

#[test]
fn rejects_roots_and_empty_paths() {
    assert!(ensure_deletable(&OsPath::from_text("")).is_err());
    assert!(ensure_deletable(&OsPath::from_text("/")).is_err());
}

#[test]
fn refusals_say_why() {
    assert_eq!(ensure_deletable(&OsPath::from_text("")), Err(DeleteError::EmptyPath));
    assert_eq!(ensure_deletable(&OsPath::from_text("//")), Err(DeleteError::FilesystemRoot));
    assert_eq!(ensure_deletable(&OsPath::from_text("/.")), Err(DeleteError::FilesystemRoot));
    assert_eq!(ensure_deletable(&OsPath::from_text("/tmp")), Ok(()));
    assert_eq!(ensure_deletable(&OsPath::from_text("file")), Ok(()));
    assert_eq!(DeleteError::EmptyPath.message(), "empty paths cannot be deleted");
    assert_eq!(DeleteError::FilesystemRoot.message(), "filesystem roots cannot be deleted");
}

#[test]
fn deletions_are_planned_by_mode_and_kind() {
    let path = OsPath::from_text("/tmp/victim");
    let plan = |mode, is_dir| plan_deletion(&path, mode, is_dir);
    assert_eq!(plan(DeleteMode::Trash, true), Ok(DeleteAction::MoveToTrash));
    assert_eq!(plan(DeleteMode::Permanent, true), Ok(DeleteAction::RemoveDirectory));
    assert_eq!(plan(DeleteMode::Permanent, false), Ok(DeleteAction::RemoveFile));
    let root = OsPath::from_text("/");
    assert_eq!(
        plan_deletion(&root, DeleteMode::Trash, true),
        Err(DeleteError::FilesystemRoot)
    );
}

#[test]
fn parses_real_mounts_and_omits_pseudo_filesystems() {
    let input = "\
25 1 0:21 / /proc rw,nosuid,nodev,noexec,relatime - proc proc rw
26 1 8:2 / / rw,relatime - ext4 /dev/sda2 rw
27 1 8:3 / /home/trev/My\\040Disk rw,relatime - btrfs /dev/sda3 rw
";

    let mounts = parse_mountinfo(input);

    assert_eq!(mounts.len(), 2);
    assert_eq!(mounts[0].target, OsPath::from_text("/"));
    assert_eq!(mounts[1].target, OsPath::from_text("/home/trev/My Disk"));
}

#[test]
fn mounts_are_sorted_and_each_place_is_listed_once() {
    let input = "1 1 8:1 / /b rw - ext4 first rw\r\n\
        2 1 8:1 / /a/b rw shared:1 - xfs second rw\n\
        3 1 8:1 / /b/ rw - ext4 third rw\n\
        4 1 8:1 / /a rw - ext4\n\
        5 1 8:1 / /c rw ext4 nothing\n\
        6 1 8:1 / - ext4 short\n\
        7 1 8:1 / /d rw - cgroup2 none rw\n\
        8 1 8:1 / /e rw -  \n\
        9 1 8:1 / /t\\011n\\012b\\134x\\134040 rw - vfat disk rw";
    let mounts = parse_mountinfo(input);
    let shown: Vec<(String, String, String)> = mounts
        .iter()
        .map(|mount| {
            (
                String::from_utf8(mount.target.bytes.clone()).expect("text"),
                mount.source.clone(),
                mount.fs_type.clone(),
            )
        })
        .collect();
    let row = |a: &str, b: &str, c: &str| (a.to_string(), b.to_string(), c.to_string());
    assert_eq!(
        shown,
        vec![
            row("/a", "", "ext4"),
            row("/a/b", "second", "xfs"),
            row("/b", "first", "ext4"),
            row("/t\tn\nb\\x\\040", "disk", "vfat"),
        ]
    );
    assert!(parse_mountinfo("").is_empty());
}

#[test]
fn places_come_back_from_the_way_they_are_written() {
    let escape = |path: &str| {
        path.chars()
            .map(|c| match c {
                ' ' | '\t' | '\n' | '\\' => format!("\\{:03o}", c as u32),
                _ => c.to_string(),
            })
            .collect::<String>()
    };
    assert_eq!(escape("/a \\040"), "/a\\040\\134040");
    for path in ["/a b", "/\\040", "/\\134", "/\\\t\n \\", "/134\\011 012", "/é\\0"] {
        let mounts = parse_mountinfo(&format!("1 1 8:1 / {} rw - ext4 disk rw", escape(path)));
        assert_eq!(mounts.len(), 1);
        assert_eq!(mounts[0].target, OsPath::from_text(path));
    }
}

#[test]
fn paths_agree_with_the_standard_library() {
    let texts = [
        "", "/", "//", "///a", "a", "./a", "a/.", "a/./b", "a//b", "a/b/", "/a", "/a/b", "/a/b/.",
        "..", "../a", "/..", "a/..", ".", "./", "./.", "/.", "/./a", "aa", "a.b", "a-b", "a!b",
        "a/b!", "A", "é", "a/é", ".a", "..a", "/a/../b", "/ab", "/a/b/c",
    ];
    for one in texts {
        let left = OsPath::from_text(one);
        assert_eq!(left.has_parent(), Path::new(one).parent().is_some(), "{one:?}");
        assert_eq!(left.parts().len(), Path::new(one).components().count(), "{one:?}");
        for two in texts {
            let right = OsPath::from_text(two);
            let (a, b) = (Path::new(one), Path::new(two));
            assert_eq!(left == right, a == b, "{one:?} {two:?}");
            assert_eq!(left.starts_with(&right), a.starts_with(b), "{one:?} {two:?}");
            assert_eq!(left.comes_before(&right), a < b, "{one:?} {two:?}");
        }
    }
}

#[test]
fn times_are_told_apart_by_nanoseconds() {
    let early = Timestamp { secs: -1, nanos: 999_999_999 };
    let late = Timestamp { secs: 1, nanos: 1 };
    assert_eq!(late.nanos_since(early), Some(1_000_000_002));
    assert_eq!(early.nanos_since(late), None);
    assert_eq!(early.nanos_since(early), Some(0));
}
