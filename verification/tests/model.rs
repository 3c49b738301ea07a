use meurglys3_lib::{Compression, DataInfo, FileInfo, Package, PackageVersion, PathError};

fn v001() -> PackageVersion {
    PackageVersion { ver: (0, 0, 0, 1) }
}

fn empty_package() -> Package {
    Package::from_file_info(Vec::new(), v001(), Compression::Uncompressed)
        .expect("an empty file list must build")
}

#[test]
fn insert_then_lookup() {
    let mut p = empty_package();
    let data = vec![1u8, 2, 3];
    assert_eq!(p.insert("a/b/c.txt", data.clone()), Ok(()));
    assert!(p.has("a/b/c.txt"));
    assert_eq!(p.get_data("a/b/c.txt"), Some(data.clone()));
    assert_eq!(p.get_data_ref("a/b/c.txt"), Some(&data[..]));
    assert!(!p.has("a/b/d.txt"));
    assert_eq!(p.get_data("a/b/d.txt"), None);
    assert_eq!(p.get_data_ref("a/b/d.txt"), None);
}

#[test]
fn insert_rejects_traversal_and_absolute() {
    let mut p = empty_package();
    assert_eq!(p.insert("../escape", vec![1]), Err(PathError::Traversal));
    assert_eq!(p.insert("/abs/path", vec![1]), Err(PathError::Absolute));
    assert_eq!(p.insert("a/../b.txt", vec![1]), Err(PathError::Traversal));
    assert_eq!(p.insert("..", vec![1]), Err(PathError::Traversal));
    assert_eq!(p.insert("a/b/c.txt", vec![1]), Ok(()));
    assert!(!p.has("../escape"));
    assert!(!p.has("/abs/path"));
    assert!(p.has("a/b/c.txt"));
}

#[test]
fn insert_rejects_non_files_and_nul() {
    let mut p = empty_package();
    assert_eq!(p.insert("", vec![]), Err(PathError::NotFile));
    assert_eq!(p.insert("dir/", vec![]), Err(PathError::NotFile));
    assert_eq!(p.insert("a\u{0}b", vec![]), Err(PathError::IllegalChar));
    assert_eq!(p.get_names().len(), 0);
}

#[test]
fn insert_dotted_names_that_are_not_traversal() {
    let mut p = empty_package();
    assert_eq!(p.insert("..a", vec![1]), Ok(()));
    assert_eq!(p.insert("a..", vec![2]), Ok(()));
    assert_eq!(p.insert("a/..b/c", vec![3]), Ok(()));
    assert!(p.has("..a") && p.has("a..") && p.has("a/..b/c"));
}

#[test]
fn last_insertion_wins() {
    let mut p = empty_package();
    assert_eq!(p.insert("k.txt", vec![1]), Ok(()));
    assert_eq!(p.insert("k.txt", vec![2, 3]), Ok(()));
    assert_eq!(p.get_data("k.txt"), Some(vec![2, 3]));
    assert_eq!(p.get_names().len(), 1);
}

#[test]
fn remove_is_idempotent() {
    let mut p = empty_package();
    assert_eq!(p.insert("k.txt", vec![1]), Ok(()));
    p.remove("absent.txt");
    assert!(p.has("k.txt"));
    p.remove("k.txt");
    assert!(!p.has("k.txt"));
    p.remove("k.txt");
    assert!(!p.has("k.txt"));
    assert_eq!(p.get_names().len(), 0);
}

#[test]
fn names_keep_insertion_order() {
    let mut p = empty_package();
    assert_eq!(p.insert("b.txt", vec![]), Ok(()));
    assert_eq!(p.insert("a.txt", vec![]), Ok(()));
    assert_eq!(p.insert("c/d.txt", vec![]), Ok(()));
    let names = p.get_names();
    assert_eq!(names, vec!["b.txt".to_string(), "a.txt".to_string(), "c/d.txt".to_string()]);
}

#[test]
fn from_file_info_builds_and_validates() {
    let files = vec![
        FileInfo::new("one.txt".to_string(), vec![1]),
        FileInfo::new("two/three.txt".to_string(), vec![2, 3]),
        FileInfo::new("one.txt".to_string(), vec![9]),
    ];
    let p = Package::from_file_info(files, v001(), Compression::Uncompressed).unwrap();
    assert_eq!(p.get_data("one.txt"), Some(vec![9]));
    assert_eq!(p.get_data("two/three.txt"), Some(vec![2, 3]));
    assert_eq!(p.get_names().len(), 2);

    let bad = vec![
        FileInfo::new("fine.txt".to_string(), vec![]),
        FileInfo::new("../escape".to_string(), vec![]),
    ];
    let r = Package::from_file_info(bad, v001(), Compression::Uncompressed);
    assert!(matches!(r, Err(PathError::Traversal)));
}

#[test]
fn version_and_compression_are_kept() {
    let p = empty_package();
    assert_eq!(p.version().ver, (0, 0, 0, 1));
    assert_eq!(p.compression(), Compression::Uncompressed);
}

#[test]
fn data_info_wire_form() {
    let info = DataInfo::new(1, 2);
    assert_eq!(
        info.to_le_bytes(),
        vec![1u8, 0, 0, 0, 0, 0, 0, 0, 2, 0, 0, 0, 0, 0, 0, 0]
    );
    let wide = DataInfo::new(0x0102030405060708, 0x1122334455667788);
    assert_eq!(
        wide.to_le_bytes(),
        vec![8u8, 7, 6, 5, 4, 3, 2, 1, 0x88, 0x77, 0x66, 0x55, 0x44, 0x33, 0x22, 0x11]
    );
}
