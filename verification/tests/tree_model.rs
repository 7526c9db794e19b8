use modified_time_fix::date::extremal_time;
use modified_time_fix::error::{Error, ErrorKind};
use modified_time_fix::tree::{Access, FileTree, Kind};
use modified_time_fix::walk::Entry;
use modified_time_fix::{Date, Timestamp};

fn at(seconds: i64) -> Timestamp {
    Timestamp::from_unix_time(seconds, 0)
}

#[test]
fn timestamp_keeps_its_parts() {
    let time = Timestamp::from_unix_time(-31546800, 7);
    assert_eq!(time.seconds, -31546800);
    assert_eq!(time.nanos, 7);
    assert_eq!(time, Timestamp { seconds: -31546800, nanos: 7 });
}

#[test]
fn timestamp_is_before() {
    assert!(at(-5).is_before(&at(3)));
    assert!(!at(3).is_before(&at(-5)));
    assert!(!at(3).is_before(&at(3)));
    assert!(Timestamp::from_unix_time(3, 1).is_before(&Timestamp::from_unix_time(3, 2)));
    assert!(!Timestamp::from_unix_time(3, 2).is_before(&Timestamp::from_unix_time(3, 1)));
    assert!(Timestamp::from_unix_time(2, 900).is_before(&Timestamp::from_unix_time(3, 1)));
    assert!(Timestamp::from_unix_time(i64::MIN, 0).is_before(&Timestamp::from_unix_time(i64::MAX, u32::MAX)));
}

#[test]
fn date_replaces() {
    assert!(Date::Earliest.replaces(&at(1), &at(2)));
    assert!(!Date::Earliest.replaces(&at(2), &at(1)));
    assert!(!Date::Earliest.replaces(&at(2), &at(2)));
    assert!(Date::Latest.replaces(&at(2), &at(1)));
    assert!(!Date::Latest.replaces(&at(1), &at(2)));
    assert!(!Date::Latest.replaces(&at(2), &at(2)));
}

#[test]
fn extremal_time_of_nothing_is_none() {
    assert_eq!(extremal_time(&vec![], Date::Earliest), None);
    assert_eq!(extremal_time(&vec![], Date::Latest), None);
    assert_eq!(extremal_time(&vec![None, None], Date::Earliest), None);
    assert_eq!(extremal_time(&vec![None, None], Date::Latest), None);
}

#[test]
fn extremal_time_is_the_minimum_or_the_maximum() {
    let entries = vec![Some(at(5)), None, Some(at(-7)), Some(at(12)), Some(at(5)), None];
    assert_eq!(extremal_time(&entries, Date::Earliest), Some(at(-7)));
    assert_eq!(extremal_time(&entries, Date::Latest), Some(at(12)));
    assert_eq!(extremal_time(&vec![None, Some(at(4))], Date::Earliest), Some(at(4)));
    assert_eq!(extremal_time(&vec![None, Some(at(4))], Date::Latest), Some(at(4)));
}

#[test]
fn new_tree_holds_a_root_directory() {
    let tree = FileTree::new(at(1));
    assert_eq!(tree.modified(0), Some(at(1)));
    assert_eq!(tree.modified(1), None);
    assert_eq!(tree.entry_times(0), Ok(vec![]));
    assert_eq!(tree.entry_kinds(0), Ok(vec![]));
}

#[test]
fn add_numbers_the_nodes_in_turn() {
    let mut tree = FileTree::new(at(1));
    assert_eq!(tree.add(0, Kind::File, at(2)), Ok(1));
    assert_eq!(tree.add(0, Kind::Directory, at(3)), Ok(2));
    assert_eq!(tree.add(2, Kind::File, at(4)), Ok(3));
    assert_eq!(tree.add(0, Kind::File, at(5)), Ok(4));
    assert_eq!(tree.modified(3), Some(at(4)));
    assert_eq!(tree.entry_times(0), Ok(vec![Some(at(2)), Some(at(3)), Some(at(5))]));
    assert_eq!(tree.entry_times(2), Ok(vec![Some(at(4))]));
    assert_eq!(
        tree.entry_kinds(0),
        Ok(vec![Entry::Other, Entry::Directory(2), Entry::Other])
    );
}

#[test]
fn add_fails_where_the_parent_is_no_directory() {
    let mut tree = FileTree::new(at(1));
    let file = tree.add(0, Kind::File, at(2)).unwrap();
    assert_eq!(
        tree.add(file, Kind::File, at(3)),
        Err(Error { kind: ErrorKind::NotADirectory, node: file })
    );
    assert_eq!(
        tree.add(17, Kind::Directory, at(3)),
        Err(Error { kind: ErrorKind::NotFound, node: 17 })
    );
    assert_eq!(tree.modified(2), None);
}

#[test]
fn listing_shows_what_cannot_be_read() {
    let mut tree = FileTree::new(at(1));
    let file = tree.add(0, Kind::File, at(2)).unwrap();
    let dir = tree.add(0, Kind::Directory, at(3)).unwrap();
    let hidden = Access { stat: false, list: true, touch: true };
    assert_eq!(tree.restrict(file, hidden), Ok(()));
    assert_eq!(tree.restrict(dir, hidden), Ok(()));
    assert_eq!(tree.entry_times(0), Ok(vec![None, None]));
    assert_eq!(tree.entry_kinds(0), Ok(vec![Entry::Unresolved, Entry::Unresolved]));
    assert_eq!(tree.modified(file), Some(at(2)));
    assert_eq!(
        tree.restrict(9, hidden),
        Err(Error { kind: ErrorKind::NotFound, node: 9 })
    );
}

#[test]
fn listing_fails_on_what_is_no_listable_directory() {
    let mut tree = FileTree::new(at(1));
    let file = tree.add(0, Kind::File, at(2)).unwrap();
    let dir = tree.add(0, Kind::Directory, at(3)).unwrap();
    tree.restrict(dir, Access { stat: true, list: false, touch: true }).unwrap();
    let not_found = Error { kind: ErrorKind::NotFound, node: 5 };
    let not_a_directory = Error { kind: ErrorKind::NotADirectory, node: file };
    let denied = Error { kind: ErrorKind::PermissionDenied, node: dir };
    assert_eq!(tree.entry_times(5), Err(not_found));
    assert_eq!(tree.entry_kinds(5), Err(not_found));
    assert_eq!(tree.entry_times(file), Err(not_a_directory));
    assert_eq!(tree.entry_kinds(file), Err(not_a_directory));
    assert_eq!(tree.entry_times(dir), Err(denied));
    assert_eq!(tree.entry_kinds(dir), Err(denied));
}

#[test]
fn set_modified_sets_one_time() {
    let mut tree = FileTree::new(at(1));
    let file = tree.add(0, Kind::File, at(2)).unwrap();
    assert_eq!(tree.set_modified(file, at(9)), Ok(()));
    assert_eq!(tree.modified(file), Some(at(9)));
    assert_eq!(tree.modified(0), Some(at(1)));
    tree.restrict(file, Access { stat: true, list: true, touch: false }).unwrap();
    assert_eq!(
        tree.set_modified(file, at(10)),
        Err(Error { kind: ErrorKind::PermissionDenied, node: file })
    );
    assert_eq!(tree.modified(file), Some(at(9)));
    assert_eq!(
        tree.set_modified(3, at(10)),
        Err(Error { kind: ErrorKind::NotFound, node: 3 })
    );
    assert_eq!(Access::full(), Access { stat: true, list: true, touch: true });
}
