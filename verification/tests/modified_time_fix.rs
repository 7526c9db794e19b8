use modified_time_fix::error::{Error, ErrorKind};
use modified_time_fix::tree::{Access, FileTree, Kind};
use modified_time_fix::{fix_modified_time, walk_and_fix_modified_time, Date, Timestamp};

/// Wednesday, January 1, 1969 00:00:00
fn sixty_nine() -> Timestamp {
    Timestamp::from_unix_time(-31546800, 0)
}

/// Sunday, January 1, 1984 00:00:00
fn eighty_four() -> Timestamp {
    Timestamp::from_unix_time(441752400, 0)
}

/// The time that a node has when nothing else is said.
fn now() -> Timestamp {
    Timestamp::from_unix_time(1_650_000_000, 500)
}

/// A tree with an empty root directory.
fn temp_dir() -> FileTree {
    FileTree::new(now())
}

/// Adds a directory with two files to `dir`.
fn temp_files_in(tree: &mut FileTree, dir: usize) -> (usize, usize, usize) {
    let temp_dir = tree.add(dir, Kind::Directory, now()).expect("unable to create test files");
    let a = tree.add(temp_dir, Kind::File, now()).expect("unable to create test files");
    let b = tree.add(temp_dir, Kind::File, now()).expect("unable to create test files");
    (temp_dir, a, b)
}

fn filetime(tree: &FileTree, node: usize) -> Timestamp {
    tree.modified(node).expect("unable to read metadata")
}

fn no_listing() -> Access {
    Access { stat: true, list: false, touch: true }
}

fn no_touch() -> Access {
    Access { stat: true, list: true, touch: false }
}

fn no_stat() -> Access {
    Access { stat: false, list: true, touch: true }
}

fn set_and_check(date: Date, expected: Timestamp) {
    let mut tree = temp_dir();
    let (temp_dir, a, b) = temp_files_in(&mut tree, 0);

    tree.set_modified(a, eighty_four())
        .and(tree.set_modified(b, sixty_nine()))
        .and(fix_modified_time(&mut tree, temp_dir, date))
        .expect("unable to set file time");

    let actual = filetime(&tree, temp_dir);

    assert_eq!(expected, actual);
}

#[test]
fn set_earliest_date() {
    set_and_check(Date::Earliest, sixty_nine());
}

#[test]
fn set_latest_date() {
    set_and_check(Date::Latest, eighty_four());
}

#[test]
fn empty_directory_remains_unchanged() {
    let mut tree = temp_dir();

    let expected = filetime(&tree, 0);

    fix_modified_time(&mut tree, 0, Date::Earliest).expect("unable to set file time");

    let actual = filetime(&tree, 0);

    assert_eq!(expected, actual);
}

#[test]
fn set_date_recursively() {
    let mut tree = temp_dir();
    let (_sub_x, a, _b) = temp_files_in(&mut tree, 0);
    let sub_y = tree.add(0, Kind::Directory, now()).expect("unable to create test files");
    let (_sub_z, c, _d) = temp_files_in(&mut tree, sub_y);

    tree.set_modified(a, eighty_four())
        .and(tree.set_modified(c, sixty_nine()))
        .and(walk_and_fix_modified_time(&mut tree, 0, Date::Earliest))
        .expect("unable to set file time");
}

#[test]
fn empty_directory_remains_unchanged_under_either_setting() {
    let mut tree = temp_dir();
    let empty = tree.add(0, Kind::Directory, eighty_four()).unwrap();
    assert_eq!(fix_modified_time(&mut tree, empty, Date::Earliest), Ok(()));
    assert_eq!(filetime(&tree, empty), eighty_four());
    assert_eq!(fix_modified_time(&mut tree, empty, Date::Latest), Ok(()));
    assert_eq!(filetime(&tree, empty), eighty_four());
}

#[test]
fn fix_changes_nothing_but_the_directory() {
    let mut tree = temp_dir();
    let (dir, a, b) = temp_files_in(&mut tree, 0);
    tree.set_modified(a, eighty_four()).unwrap();
    tree.set_modified(b, sixty_nine()).unwrap();
    assert_eq!(fix_modified_time(&mut tree, dir, Date::Latest), Ok(()));
    assert_eq!(filetime(&tree, 0), now());
    assert_eq!(filetime(&tree, dir), eighty_four());
    assert_eq!(filetime(&tree, a), eighty_four());
    assert_eq!(filetime(&tree, b), sixty_nine());
}

#[test]
fn fix_twice_gives_the_same_time() {
    let mut tree = temp_dir();
    let (dir, a, b) = temp_files_in(&mut tree, 0);
    tree.set_modified(a, eighty_four()).unwrap();
    tree.set_modified(b, sixty_nine()).unwrap();
    assert_eq!(fix_modified_time(&mut tree, dir, Date::Earliest), Ok(()));
    assert_eq!(filetime(&tree, dir), sixty_nine());
    assert_eq!(fix_modified_time(&mut tree, dir, Date::Earliest), Ok(()));
    assert_eq!(filetime(&tree, dir), sixty_nine());
    assert_eq!(fix_modified_time(&mut tree, dir, Date::Latest), Ok(()));
    assert_eq!(filetime(&tree, dir), eighty_four());
}

#[test]
fn fix_passes_over_entries_that_cannot_be_read() {
    let mut tree = temp_dir();
    let (dir, a, b) = temp_files_in(&mut tree, 0);
    let c = tree.add(dir, Kind::File, eighty_four()).unwrap();
    tree.set_modified(a, sixty_nine()).unwrap();
    tree.set_modified(b, now()).unwrap();
    tree.restrict(a, no_stat()).unwrap();
    assert_eq!(fix_modified_time(&mut tree, dir, Date::Earliest), Ok(()));
    assert_eq!(filetime(&tree, dir), eighty_four());
    tree.restrict(b, no_stat()).unwrap();
    tree.restrict(c, no_stat()).unwrap();
    assert_eq!(fix_modified_time(&mut tree, dir, Date::Latest), Ok(()));
    assert_eq!(filetime(&tree, dir), eighty_four());
}

#[test]
fn fix_counts_subdirectories_as_entries() {
    let mut tree = temp_dir();
    let file = tree.add(0, Kind::File, eighty_four()).unwrap();
    let sub = tree.add(0, Kind::Directory, sixty_nine()).unwrap();
    assert_eq!(fix_modified_time(&mut tree, 0, Date::Earliest), Ok(()));
    assert_eq!(filetime(&tree, 0), sixty_nine());
    assert_eq!(filetime(&tree, file), eighty_four());
    assert_eq!(filetime(&tree, sub), sixty_nine());
}

#[test]
fn fix_compares_nanoseconds_after_seconds() {
    let mut tree = temp_dir();
    tree.add(0, Kind::File, Timestamp::from_unix_time(10, 999_999_999)).unwrap();
    tree.add(0, Kind::File, Timestamp::from_unix_time(11, 0)).unwrap();
    tree.add(0, Kind::File, Timestamp::from_unix_time(10, 5)).unwrap();
    assert_eq!(fix_modified_time(&mut tree, 0, Date::Latest), Ok(()));
    assert_eq!(filetime(&tree, 0), Timestamp::from_unix_time(11, 0));
    assert_eq!(fix_modified_time(&mut tree, 0, Date::Earliest), Ok(()));
    assert_eq!(filetime(&tree, 0), Timestamp::from_unix_time(10, 5));
}

#[test]
fn fix_fails_on_what_cannot_be_listed() {
    let mut tree = temp_dir();
    let (dir, a, _b) = temp_files_in(&mut tree, 0);
    assert_eq!(
        fix_modified_time(&mut tree, 99, Date::Latest),
        Err(Error { kind: ErrorKind::NotFound, node: 99 })
    );
    assert_eq!(
        fix_modified_time(&mut tree, a, Date::Latest),
        Err(Error { kind: ErrorKind::NotADirectory, node: a })
    );
    tree.restrict(dir, no_listing()).unwrap();
    assert_eq!(
        fix_modified_time(&mut tree, dir, Date::Latest),
        Err(Error { kind: ErrorKind::PermissionDenied, node: dir })
    );
    assert_eq!(filetime(&tree, dir), now());
}

#[test]
fn fix_fails_where_the_time_cannot_be_set() {
    let mut tree = temp_dir();
    let (dir, a, _b) = temp_files_in(&mut tree, 0);
    let empty = tree.add(0, Kind::Directory, eighty_four()).unwrap();
    tree.set_modified(a, sixty_nine()).unwrap();
    tree.restrict(dir, no_touch()).unwrap();
    tree.restrict(empty, no_touch()).unwrap();
    assert_eq!(
        fix_modified_time(&mut tree, dir, Date::Earliest),
        Err(Error { kind: ErrorKind::PermissionDenied, node: dir })
    );
    assert_eq!(filetime(&tree, dir), now());
    assert_eq!(fix_modified_time(&mut tree, empty, Date::Earliest), Ok(()));
    assert_eq!(filetime(&tree, empty), eighty_four());
}

/// `root/{a_file, b_file, sub/{c_file, d_file}}`
fn small_tree() -> (FileTree, usize) {
    let mut tree = temp_dir();
    tree.add(0, Kind::File, eighty_four()).unwrap();
    tree.add(0, Kind::File, sixty_nine()).unwrap();
    let sub = tree.add(0, Kind::Directory, now()).unwrap();
    tree.add(sub, Kind::File, sixty_nine()).unwrap();
    tree.add(sub, Kind::File, sixty_nine()).unwrap();
    (tree, sub)
}

#[test]
fn walk_fixes_the_subdirectory_and_the_root() {
    let (mut tree, sub) = small_tree();
    assert_eq!(walk_and_fix_modified_time(&mut tree, 0, Date::Earliest), Ok(()));
    assert_eq!(filetime(&tree, sub), sixty_nine());
    assert_eq!(filetime(&tree, 0), sixty_nine());
}

#[test]
fn walk_fixes_a_directory_after_its_subdirectories() {
    let (mut tree, sub) = small_tree();
    assert_eq!(walk_and_fix_modified_time(&mut tree, 0, Date::Latest), Ok(()));
    assert_eq!(filetime(&tree, sub), sixty_nine());
    assert_eq!(filetime(&tree, 0), eighty_four());
}

#[test]
fn walk_twice_gives_the_same_times() {
    let (mut tree, sub) = small_tree();
    assert_eq!(walk_and_fix_modified_time(&mut tree, 0, Date::Latest), Ok(()));
    assert_eq!(walk_and_fix_modified_time(&mut tree, 0, Date::Latest), Ok(()));
    assert_eq!(filetime(&tree, sub), sixty_nine());
    assert_eq!(filetime(&tree, 0), eighty_four());
}

#[test]
fn walk_from_a_subdirectory_leaves_what_is_above_it() {
    let (mut tree, sub) = small_tree();
    assert_eq!(walk_and_fix_modified_time(&mut tree, sub, Date::Earliest), Ok(()));
    assert_eq!(filetime(&tree, sub), sixty_nine());
    assert_eq!(filetime(&tree, 0), now());
}

#[test]
fn walk_goes_to_any_depth() {
    let mut tree = temp_dir();
    let mut dir = 0;
    let mut dirs = vec![0];
    for _ in 0..200 {
        dir = tree.add(dir, Kind::Directory, now()).unwrap();
        dirs.push(dir);
    }
    tree.add(dir, Kind::File, sixty_nine()).unwrap();
    assert_eq!(walk_and_fix_modified_time(&mut tree, 0, Date::Latest), Ok(()));
    for dir in dirs {
        assert_eq!(filetime(&tree, dir), sixty_nine());
    }
}

#[test]
fn walk_fails_before_any_fix_where_a_directory_cannot_be_listed() {
    let (mut tree, sub) = small_tree();
    let deep = tree.add(sub, Kind::Directory, now()).unwrap();
    tree.add(deep, Kind::File, eighty_four()).unwrap();
    let locked = tree.add(0, Kind::Directory, now()).unwrap();
    tree.restrict(locked, no_listing()).unwrap();
    assert_eq!(
        walk_and_fix_modified_time(&mut tree, 0, Date::Earliest),
        Err(Error { kind: ErrorKind::PermissionDenied, node: locked })
    );
    assert_eq!(filetime(&tree, 0), now());
    assert_eq!(filetime(&tree, sub), now());
    assert_eq!(filetime(&tree, deep), now());
    assert_eq!(filetime(&tree, locked), now());
}

#[test]
fn walk_stops_at_the_first_fix_that_fails_and_undoes_nothing() {
    let mut tree = temp_dir();
    let first = tree.add(0, Kind::Directory, now()).unwrap();
    tree.add(first, Kind::File, sixty_nine()).unwrap();
    let second = tree.add(0, Kind::Directory, now()).unwrap();
    tree.add(second, Kind::File, sixty_nine()).unwrap();
    let third = tree.add(0, Kind::Directory, now()).unwrap();
    tree.add(third, Kind::File, sixty_nine()).unwrap();
    tree.restrict(second, no_touch()).unwrap();
    assert_eq!(
        walk_and_fix_modified_time(&mut tree, 0, Date::Earliest),
        Err(Error { kind: ErrorKind::PermissionDenied, node: second })
    );
    assert_eq!(filetime(&tree, first), sixty_nine());
    assert_eq!(filetime(&tree, second), now());
    assert_eq!(filetime(&tree, third), now());
    assert_eq!(filetime(&tree, 0), now());
}

#[test]
fn walk_passes_over_a_subdirectory_that_cannot_be_resolved() {
    let (mut tree, sub) = small_tree();
    tree.restrict(sub, no_stat()).unwrap();
    assert_eq!(walk_and_fix_modified_time(&mut tree, 0, Date::Latest), Ok(()));
    assert_eq!(filetime(&tree, sub), now());
    assert_eq!(filetime(&tree, 0), eighty_four());
}

#[test]
fn walk_fails_on_a_root_that_is_no_directory() {
    let (mut tree, _sub) = small_tree();
    assert_eq!(
        walk_and_fix_modified_time(&mut tree, 1, Date::Latest),
        Err(Error { kind: ErrorKind::NotADirectory, node: 1 })
    );
    assert_eq!(
        walk_and_fix_modified_time(&mut tree, 1000, Date::Latest),
        Err(Error { kind: ErrorKind::NotFound, node: 1000 })
    );
    assert_eq!(filetime(&tree, 0), now());
}
