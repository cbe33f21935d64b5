use treeportfs::action::IoErrorKind;
use treeportfs::names::sort_names;
use treeportfs::protocol::{
    fh_to_id, io_err, paginate, read_result, str_name, DirEntry, FileAttr, FileType, Status,
};
use treeportfs::tree::NfsTime;

fn attr(fileid: u64) -> FileAttr {
    let t = NfsTime { seconds: 0, nseconds: 0 };
    FileAttr {
        ftype: FileType::Regular,
        mode: 0o644,
        nlink: 1,
        uid: 0,
        gid: 0,
        size: 0,
        used: 0,
        rdev_major: 0,
        rdev_minor: 0,
        fsid: 0,
        fileid,
        atime: t,
        mtime: t,
        ctime: t,
    }
}

fn entries(ids: &[u64]) -> Vec<DirEntry> {
    ids.iter()
        .map(|id| DirEntry { fileid: *id, name: format!("n{id}"), attr: attr(*id) })
        .collect()
}

fn ids(list: &[DirEntry]) -> Vec<u64> {
    list.iter().map(|e| e.fileid).collect()
}

#[test]
fn refusals_become_statuses() {
    assert_eq!(io_err(IoErrorKind::NotFound), Status::NoEnt);
    assert_eq!(io_err(IoErrorKind::PermissionDenied), Status::Acces);
    assert_eq!(io_err(IoErrorKind::AlreadyExists), Status::Exist);
    assert_eq!(io_err(IoErrorKind::DirectoryNotEmpty), Status::NotEmpty);
    assert_eq!(io_err(IoErrorKind::Other), Status::Io);
}

#[test]
fn names_must_be_text() {
    assert_eq!(str_name(b"main"), Ok("main".to_string()));
    assert_eq!(str_name("\u{e4}".as_bytes()), Ok("\u{e4}".to_string()));
    assert_eq!(str_name(&[0x66, 0xff]), Err(Status::NoEnt));
}

#[test]
fn handles_ignore_the_instance() {
    let mut handle = vec![9u8; 8];
    handle.extend_from_slice(&0x0102_0304_0506_0708u64.to_le_bytes());
    assert_eq!(fh_to_id(&handle), Ok(0x0102_0304_0506_0708));
    handle[0] = 0;
    assert_eq!(fh_to_id(&handle), Ok(0x0102_0304_0506_0708));
    let mut top = vec![0u8; 8];
    top.extend_from_slice(&u64::MAX.to_le_bytes());
    assert_eq!(fh_to_id(&top), Ok(u64::MAX));
    assert_eq!(fh_to_id(&handle[..15]), Err(Status::BadHandle));
    assert_eq!(fh_to_id(&[]), Err(Status::BadHandle));
}

#[test]
fn pages_cover_the_listing() {
    let all = [5u64, 3, 9, 2, 7];
    let mut seen = Vec::new();
    let mut after = 0;
    loop {
        let part = paginate(entries(&all), after, 2);
        seen.extend(ids(&part.entries));
        if part.end {
            break;
        }
        after = *seen.last().unwrap();
    }
    assert_eq!(seen, all);
}

#[test]
fn a_page_may_be_unlimited() {
    let part = paginate(entries(&[1, 2, 3]), 0, 0);
    assert_eq!(ids(&part.entries), vec![1, 2, 3]);
    assert!(part.end);
    let part = paginate(entries(&[1, 2, 3]), 1, 2);
    assert_eq!(ids(&part.entries), vec![2, 3]);
    assert!(part.end);
    let part = paginate(entries(&[1, 2, 3]), 0, 2);
    assert!(!part.end);
}

#[test]
fn a_lost_place_ends_the_listing() {
    let part = paginate(entries(&[1, 2, 3]), 8, 2);
    assert!(part.entries.is_empty());
    assert!(part.end);
}

#[test]
fn reads_tell_the_end_of_the_file() {
    assert_eq!(read_result(10, 10, vec![1]), (vec![], true));
    assert_eq!(read_result(4, 10, vec![1, 2]), (vec![1, 2], false));
    assert_eq!(read_result(8, 10, vec![1, 2]), (vec![1, 2], true));
    assert_eq!(read_result(u64::MAX - 1, u64::MAX, vec![1, 2]), (vec![1, 2], true));
}

#[test]
fn names_are_sorted_by_their_bytes() {
    let mut names: Vec<String> =
        ["b", "a", "\u{e4}", "B", "a"].iter().map(|s| s.to_string()).collect();
    sort_names(&mut names);
    assert_eq!(names, vec!["B", "a", "a", "b", "\u{e4}"]);
}
