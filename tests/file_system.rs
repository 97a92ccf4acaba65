use std::cell::Cell;

use dir_cache::entry::{listing_of, EnumerationFailure, FileInfo};
use dir_cache::file_system::{create_file_system, FileSystem, DEFAULT_CAPACITY};

fn listing(names: &[(&str, bool)]) -> Result<Vec<(String, bool)>, EnumerationFailure> {
    Ok(names.iter().map(|(n, d)| (n.to_string(), *d)).collect())
}

fn missing(_p: &String) -> Result<Vec<(String, bool)>, EnumerationFailure> {
    Err(EnumerationFailure { message: String::from("No such file or directory") })
}

/// Reads `path` with a listing that holds one file named after the path,
/// and returns whether the directory had to be enumerated.
fn read_counting(fs: &mut FileSystem, path: &str) -> bool {
    let calls = Cell::new(0u32);
    let name = format!("{}.txt", path);
    let r = fs.read_directory(path.to_string(), |_p: &String| {
        calls.set(calls.get() + 1);
        listing(&[(name.as_str(), false)])
    });
    let v = r.ok().expect("listing");
    assert_eq!(v.len(), 1);
    assert_eq!(v[0].name, name);
    calls.get() == 1
}

fn names(v: &Vec<FileInfo>) -> Vec<String> {
    v.iter().map(|f| f.name.clone()).collect()
}

#[test]
fn from_entry_uses_placeholders() {
    let f = FileInfo::from_entry(String::from("a.rs"), false);
    assert_eq!(f.name, "a.rs");
    assert_eq!(f.size, 0);
    assert_eq!(f.creation_date, "unknown");
    assert!(!f.is_dir);
    assert!(FileInfo::from_entry(String::from("d"), true).is_dir);
}

#[test]
fn listing_keeps_enumeration_order() {
    let es = vec![(String::from("z"), true), (String::from("a"), false), (String::from("m"), false)];
    let v = listing_of(&es);
    assert_eq!(names(&v), vec!["z", "a", "m"]);
    assert_eq!(v.iter().map(|f| f.is_dir).collect::<Vec<bool>>(), vec![true, false, false]);
    assert!(listing_of(&Vec::new()).is_empty());
}

#[test]
fn new_cache_is_empty() {
    let fs = create_file_system();
    assert_eq!(fs.len(), 0);
    assert!(!fs.contains(&String::from(".")));
    assert_eq!(DEFAULT_CAPACITY, 1024);
}

#[test]
fn listing_of_file_and_subdirectory() {
    let mut fs = create_file_system();
    let r = fs.read_directory(String::from("dir"), |_p: &String| listing(&[("f.txt", false), ("sub", true)]));
    let v = r.ok().expect("listing");
    assert_eq!(v.len(), 2);
    assert_eq!(v[0].name, "f.txt");
    assert!(!v[0].is_dir);
    assert_eq!(v[0].size, 0);
    assert_eq!(v[0].creation_date, "unknown");
    assert_eq!(v[1].name, "sub");
    assert!(v[1].is_dir);
    assert_eq!(v[1].size, 0);
    assert_eq!(v[1].creation_date, "unknown");
}

#[test]
fn enumerate_receives_the_path() {
    let mut fs = create_file_system();
    let seen = Cell::new(false);
    let r = fs.read_directory(String::from("/tmp/x"), |p: &String| {
        seen.set(p == "/tmp/x");
        listing(&[])
    });
    assert!(r.ok().expect("listing").is_empty());
    assert!(seen.get());
    assert!(fs.contains(&String::from("/tmp/x")));
}

#[test]
fn second_read_is_a_hit_with_same_listing() {
    let mut fs = create_file_system();
    let first = names(fs.read_directory(String::from("."), |_p: &String| listing(&[("a", false), ("b", true)])).ok().expect("first"));
    let calls = Cell::new(0u32);
    let second = names(fs.read_directory(String::from("."), |_p: &String| {
        calls.set(calls.get() + 1);
        listing(&[("changed", false)])
    }).ok().expect("second"));
    assert_eq!(calls.get(), 0);
    assert_eq!(first, second);
    assert_eq!(second, vec!["a", "b"]);
    assert_eq!(fs.len(), 1);
}

#[test]
fn path_is_evicted_after_capacity_other_reads() {
    let mut fs = FileSystem::with_capacity(3);
    assert!(read_counting(&mut fs, "A"));
    for p in ["B", "C", "D"] {
        assert!(read_counting(&mut fs, p));
    }
    assert!(!fs.contains(&String::from("A")));
    assert!(fs.contains(&String::from("B")));
    assert!(read_counting(&mut fs, "A"));
    assert!(!fs.contains(&String::from("B")));
    assert_eq!(fs.len(), 3);
}

#[test]
fn hit_refreshes_recency() {
    let mut fs = FileSystem::with_capacity(2);
    assert!(read_counting(&mut fs, "A"));
    assert!(read_counting(&mut fs, "B"));
    assert!(!read_counting(&mut fs, "A"));
    assert!(read_counting(&mut fs, "C"));
    assert!(fs.contains(&String::from("A")));
    assert!(fs.contains(&String::from("C")));
    assert!(!fs.contains(&String::from("B")));
    assert_eq!(fs.len(), 2);
}

#[test]
fn never_more_than_capacity() {
    let mut fs = FileSystem::with_capacity(4);
    for i in 0..20 {
        let p = format!("dir{}", i % 7);
        read_counting(&mut fs, &p);
        assert!(fs.len() <= 4);
    }
    assert_eq!(fs.len(), 4);
}

#[test]
fn failed_read_leaves_cache_unchanged() {
    let mut fs = FileSystem::with_capacity(2);
    assert!(read_counting(&mut fs, "A"));
    let r = fs.read_directory(String::from("/does/not/exist"), missing);
    match r {
        Err(e) => assert_eq!(e.message, "No such file or directory"),
        Ok(_) => panic!("expected an enumeration failure"),
    }
    assert_eq!(fs.len(), 1);
    assert!(fs.contains(&String::from("A")));
    assert!(!fs.contains(&String::from("/does/not/exist")));
}

#[test]
fn repeated_failures_never_populate() {
    let mut fs = FileSystem::with_capacity(2);
    for _ in 0..10 {
        assert!(fs.read_directory(String::from("nope"), missing).is_err());
        assert_eq!(fs.len(), 0);
    }
    assert!(read_counting(&mut fs, "A"));
    assert!(read_counting(&mut fs, "B"));
    assert!(fs.read_directory(String::from("nope"), missing).is_err());
    assert!(fs.contains(&String::from("A")));
    assert!(fs.contains(&String::from("B")));
}

#[test]
fn failed_path_is_retried_from_scratch() {
    let mut fs = create_file_system();
    assert!(fs.read_directory(String::from("later"), missing).is_err());
    let r = fs.read_directory(String::from("later"), |_p: &String| listing(&[("now", false)]));
    assert_eq!(names(r.ok().expect("listing")), vec!["now"]);
    assert!(fs.contains(&String::from("later")));
}
