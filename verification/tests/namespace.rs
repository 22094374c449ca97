use std::time::{Duration, SystemTime};

use simple_file_transfer_v2::fs::mapped_fs::{
    finish_list, parse_path, root_listing, ListPlan, MappedFS, MappedFSError, Mount, ParsedPath,
};
use simple_file_transfer_v2::fs::metadata::HostMetadata;
use simple_file_transfer_v2::fs::FSElement;

fn mount(name: &[u8], path: &[u8]) -> Mount {
    Mount { name: name.to_vec(), path: path.to_vec() }
}

fn file(name: &[u8], size: u64) -> FSElement {
    FSElement { name: name.to_vec(), created: None, modified: None, size, is_file: true }
}

fn mounts(fs: &MappedFS) -> Vec<Mount> {
    match fs.list(b"") {
        Ok(ListPlan::Mounts(mounts)) => mounts,
        other => panic!("the root lists the mounts, not {:?}", other),
    }
}

#[test]
fn add_numbers_a_name_that_is_taken() {
    let mut fs = MappedFS::new();
    assert_eq!(fs.add(b"/a/b/foo.txt"), Ok(()));
    assert_eq!(fs.add(b"/c/d/foo.txt"), Ok(()));
    assert_eq!(
        mounts(&fs),
        vec![mount(b"foo.txt", b"/a/b/foo.txt"), mount(b"foo.txt (1)", b"/c/d/foo.txt")]
    );
}

#[test]
fn add_counts_up_until_a_name_is_free() {
    let mut fs = MappedFS::new();
    assert_eq!(fs.add(b"/a/x"), Ok(()));
    assert_eq!(fs.add(b"/b/x"), Ok(()));
    assert_eq!(fs.add(b"/c/x"), Ok(()));
    assert_eq!(
        mounts(&fs),
        vec![mount(b"x", b"/a/x"), mount(b"x (1)", b"/b/x"), mount(b"x (2)", b"/c/x")]
    );
}

#[test]
fn add_of_a_mounted_path_changes_nothing() {
    let mut fs = MappedFS::new();
    assert_eq!(fs.add(b"/a/x"), Ok(()));
    assert_eq!(fs.add(b"/b/x"), Ok(()));
    let before = mounts(&fs);
    assert_eq!(fs.add(b"/b/x"), Ok(()));
    assert_eq!(fs.add(b"/a/x"), Ok(()));
    assert_eq!(mounts(&fs), before);
    assert_eq!(fs.registered().len(), 2);
}

#[test]
fn add_knows_a_path_by_its_steps() {
    let mut fs = MappedFS::new();
    assert_eq!(fs.add(b"/a/x"), Ok(()));
    assert_eq!(fs.add(b"/a//x/"), Ok(()));
    assert_eq!(fs.add(b"/a/./x"), Ok(()));
    assert_eq!(mounts(&fs), vec![mount(b"x", b"/a/x")]);
}

#[test]
fn add_keeps_names_distinct() {
    let mut fs = MappedFS::new();
    for path in [&b"/a/n"[..], b"/b/n", b"/c/n (1)", b"/d/n", b"/e/n (1)", b"/a/n"] {
        assert_eq!(fs.add(path), Ok(()));
    }
    let shown = mounts(&fs);
    assert_eq!(shown.len(), 5);
    for i in 0..shown.len() {
        for j in 0..i {
            assert_ne!(shown[i].name, shown[j].name);
        }
    }
    assert_eq!(
        shown,
        vec![
            mount(b"n", b"/a/n"),
            mount(b"n (1)", b"/b/n"),
            mount(b"n (1) (1)", b"/c/n (1)"),
            mount(b"n (2)", b"/d/n"),
            mount(b"n (1) (2)", b"/e/n (1)"),
        ]
    );
}

#[test]
fn add_refuses_a_relative_path() {
    let mut fs = MappedFS::new();
    assert_eq!(
        fs.add(b"tmp/demo"),
        Err(MappedFSError::PathNotAbsolute(b"tmp/demo".to_vec()))
    );
    assert_eq!(fs.add(b""), Err(MappedFSError::PathNotAbsolute(b"".to_vec())));
    assert_eq!(fs.registered(), Vec::<Vec<u8>>::new());
}

#[test]
fn add_refuses_an_absolute_path_without_a_name() {
    let mut fs = MappedFS::new();
    assert_eq!(fs.add(b"/a/x"), Ok(()));
    for path in [&b"/"[..], b"/a/..", b"/..", b"/.", b"//", b"/a/b/../.."] {
        assert_eq!(fs.add(path), Err(MappedFSError::PathNotFound(path.to_vec())));
    }
    assert_eq!(mounts(&fs), vec![mount(b"x", b"/a/x")]);
    assert_eq!(fs.add(b"a/.."), Err(MappedFSError::PathNotAbsolute(b"a/..".to_vec())));
    assert_eq!(fs.add(b".."), Err(MappedFSError::PathNotAbsolute(b"..".to_vec())));
    assert_eq!(fs.registered(), vec![b"/a/x".to_vec()]);
}

#[test]
fn add_after_remove_takes_the_freed_name() {
    let mut fs = MappedFS::new();
    assert_eq!(fs.add(b"/a/x"), Ok(()));
    assert_eq!(fs.add(b"/b/x"), Ok(()));
    fs.remove(b"/a/x");
    assert_eq!(fs.add(b"/c/x"), Ok(()));
    assert_eq!(mounts(&fs), vec![mount(b"x (1)", b"/b/x"), mount(b"x", b"/c/x")]);
}

#[test]
fn registered_gives_the_real_paths() {
    let mut fs = MappedFS::new();
    assert_eq!(fs.registered(), Vec::<Vec<u8>>::new());
    assert_eq!(fs.add(b"/tmp/demo"), Ok(()));
    assert_eq!(fs.add(b"/srv/files/"), Ok(()));
    assert_eq!(fs.registered(), vec![b"/tmp/demo".to_vec(), b"/srv/files/".to_vec()]);
}

#[test]
fn remove_takes_every_mount_of_the_path() {
    let mut fs = MappedFS::new();
    assert_eq!(fs.add(b"/a/x"), Ok(()));
    assert_eq!(fs.add(b"/b/x"), Ok(()));
    fs.remove(b"/a/x");
    assert_eq!(fs.add(b"/b/x"), Ok(()));
    assert_eq!(mounts(&fs), vec![mount(b"x (1)", b"/b/x"), mount(b"x", b"/b/x")]);
    fs.remove(b"/b//x");
    assert_eq!(mounts(&fs), vec![]);
}

#[test]
fn remove_of_an_unknown_path_changes_nothing() {
    let mut fs = MappedFS::new();
    assert_eq!(fs.add(b"/a/x"), Ok(()));
    fs.remove(b"/a/y");
    fs.remove(b"a/x");
    assert_eq!(mounts(&fs), vec![mount(b"x", b"/a/x")]);
}

#[test]
fn parse_path_finds_the_root() {
    assert_eq!(parse_path(b""), Ok(ParsedPath::Root));
    assert_eq!(parse_path(b"/"), Ok(ParsedPath::Root));
    assert_eq!(parse_path(b"."), Ok(ParsedPath::Root));
    assert_eq!(parse_path(b"/./"), Ok(ParsedPath::Root));
}

#[test]
fn parse_path_splits_off_the_first_step() {
    assert_eq!(
        parse_path(b"demo"),
        Ok(ParsedPath::Extended { root_element: b"demo".to_vec(), extension: b"".to_vec() })
    );
    assert_eq!(
        parse_path(b"/demo/sub/a.txt"),
        Ok(ParsedPath::Extended {
            root_element: b"demo".to_vec(),
            extension: b"sub/a.txt".to_vec()
        })
    );
    assert_eq!(
        parse_path(b"./demo//sub/./a.txt/"),
        Ok(ParsedPath::Extended {
            root_element: b"demo".to_vec(),
            extension: b"sub/a.txt".to_vec()
        })
    );
}

#[test]
fn parse_path_refuses_a_climbing_path() {
    for path in [&b".."[..], b"../demo", b"demo/..", b"demo/../other", b"/demo/a/../../.."] {
        assert_eq!(parse_path(path), Err(MappedFSError::PathNotFound(path.to_vec())));
    }
}

#[test]
fn unmap_appends_the_remaining_steps() {
    let mut fs = MappedFS::new();
    assert_eq!(fs.add(b"/tmp/demo"), Ok(()));
    assert_eq!(fs.unmap(b"demo"), Ok(b"/tmp/demo/".to_vec()));
    assert_eq!(fs.unmap(b"demo/a.txt"), Ok(b"/tmp/demo/a.txt".to_vec()));
    assert_eq!(fs.unmap(b"/demo//sub/./a.txt"), Ok(b"/tmp/demo/sub/a.txt".to_vec()));
    assert_eq!(fs.unmap(b"demo/..."), Ok(b"/tmp/demo/...".to_vec()));
}

#[test]
fn unmap_refuses_dot_dot_whether_or_not_the_mount_exists() {
    let mut fs = MappedFS::new();
    assert_eq!(fs.add(b"/tmp/demo"), Ok(()));
    for path in [&b"demo/.."[..], b"demo/../demo", b"../demo", b"nothing/..", b"demo/a/../b", b".."]
    {
        assert_eq!(fs.unmap(path), Err(MappedFSError::PathNotFound(path.to_vec())));
    }
}

#[test]
fn unmap_refuses_the_root_and_unknown_mounts() {
    let mut fs = MappedFS::new();
    assert_eq!(fs.unmap(b"demo"), Err(MappedFSError::PathNotFound(b"demo".to_vec())));
    assert_eq!(fs.add(b"/tmp/demo"), Ok(()));
    assert_eq!(fs.unmap(b""), Err(MappedFSError::PathNotFound(b"".to_vec())));
    assert_eq!(fs.unmap(b"/"), Err(MappedFSError::PathNotFound(b"/".to_vec())));
    assert_eq!(fs.unmap(b"other/a"), Err(MappedFSError::PathNotFound(b"other/a".to_vec())));
    assert_eq!(fs.unmap(b"demo (1)"), Err(MappedFSError::PathNotFound(b"demo (1)".to_vec())));
}

#[test]
fn list_of_the_root_plans_every_mount() {
    let mut fs = MappedFS::new();
    assert_eq!(fs.list(b"/"), Ok(ListPlan::Mounts(vec![])));
    assert_eq!(fs.add(b"/tmp/demo"), Ok(()));
    assert_eq!(fs.add(b"/srv/demo"), Ok(()));
    assert_eq!(
        fs.list(b""),
        Ok(ListPlan::Mounts(vec![mount(b"demo", b"/tmp/demo"), mount(b"demo (1)", b"/srv/demo")]))
    );
}

#[test]
fn list_below_a_mount_plans_the_real_directory() {
    let mut fs = MappedFS::new();
    assert_eq!(fs.add(b"/tmp/demo"), Ok(()));
    assert_eq!(fs.list(b"demo"), Ok(ListPlan::Directory(b"/tmp/demo/".to_vec())));
    assert_eq!(fs.list(b"demo/sub"), Ok(ListPlan::Directory(b"/tmp/demo/sub".to_vec())));
}

#[test]
fn list_refuses_what_unmap_refuses() {
    let mut fs = MappedFS::new();
    assert_eq!(fs.add(b"/tmp/demo"), Ok(()));
    assert_eq!(fs.list(b"other"), Err(MappedFSError::PathNotFound(b"other".to_vec())));
    assert_eq!(fs.list(b"demo/.."), Err(MappedFSError::PathNotFound(b"demo/..".to_vec())));
}

#[test]
fn finish_list_drops_the_failed_fetches() {
    let results = vec![Some(file(b"b.txt", 2)), None, Some(file(b"a.txt", 1)), None];
    assert_eq!(
        finish_list(b"demo", Some(results)),
        Ok(vec![file(b"b.txt", 2), file(b"a.txt", 1)])
    );
    assert_eq!(finish_list(b"demo", Some(vec![None, None])), Ok(vec![]));
    assert_eq!(finish_list(b"demo", Some(vec![])), Ok(vec![]));
}

#[test]
fn finish_list_fails_where_the_directory_could_not_be_read() {
    assert_eq!(
        finish_list(b"demo/missing", None),
        Err(MappedFSError::PathNotFound(b"demo/missing".to_vec()))
    );
}

#[test]
fn root_listing_shows_each_mount_under_its_display_name() {
    let mut fs = MappedFS::new();
    assert_eq!(fs.add(b"/tmp/demo"), Ok(()));
    assert_eq!(fs.add(b"/srv/demo"), Ok(()));
    assert_eq!(fs.add(b"/srv/notes.txt"), Ok(()));
    let shown = mounts(&fs);
    let fetched = vec![
        Some(HostMetadata { created: None, modified: None, size: 4096, is_file: false }),
        Some(HostMetadata { created: None, modified: None, size: 0, is_file: false }),
        Some(HostMetadata { created: None, modified: None, size: 12, is_file: true }),
    ];
    assert_eq!(
        root_listing(&shown, &fetched),
        vec![
            FSElement {
                name: b"demo".to_vec(),
                created: None,
                modified: None,
                size: 4096,
                is_file: false
            },
            FSElement {
                name: b"demo (1)".to_vec(),
                created: None,
                modified: None,
                size: 0,
                is_file: false
            },
            file(b"notes.txt", 12),
        ]
    );
}

#[test]
fn root_listing_leaves_out_the_mounts_whose_fetch_failed() {
    let shown = vec![mount(b"a", b"/x/a"), mount(b"b", b"/x/b"), mount(b"c", b"/x/c")];
    let found = HostMetadata { created: None, modified: None, size: 1, is_file: true };
    assert_eq!(
        root_listing(&shown, &vec![None, Some(found), None]),
        vec![file(b"b", 1)]
    );
    assert_eq!(root_listing(&shown, &vec![None, None, None]), vec![]);
    assert_eq!(root_listing(&shown, &vec![Some(found)]), vec![file(b"a", 1)]);
    assert_eq!(root_listing(&shown, &vec![]), vec![]);
    assert_eq!(
        root_listing(&shown, &vec![Some(found), None, Some(found), Some(found)]),
        vec![file(b"a", 1), file(b"c", 1)]
    );
    assert_eq!(root_listing(&vec![], &vec![Some(found)]), vec![]);
}

#[test]
fn root_listing_converts_the_times_of_the_host() {
    let shown = vec![mount(b"a", b"/x/a")];
    let reported = HostMetadata {
        created: Some(SystemTime::UNIX_EPOCH + Duration::from_secs(86_400)),
        modified: Some(SystemTime::UNIX_EPOCH - Duration::from_secs(1)),
        size: 7,
        is_file: true,
    };
    let listing = root_listing(&shown, &vec![Some(reported)]);
    assert_eq!(listing.len(), 1);
    assert_eq!(listing[0].name, b"a".to_vec());
    assert_eq!(listing[0].created.map(|created| created.unix_timestamp()), Some(86_400));
    assert_eq!(listing[0].modified, None);
    assert_eq!((listing[0].size, listing[0].is_file), (7, true));
}
