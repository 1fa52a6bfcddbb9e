use initfs::types::{Timespec, U16, U32, U64, MAGIC};
use initfs::{InitFs, InodeKind};

const FILE_TXT: &[u8] = b"hello from the initfs\n";

fn push16(out: &mut Vec<u8>, v: u16) {
    out.extend_from_slice(&v.to_le_bytes());
}

fn push32(out: &mut Vec<u8>, v: u32) {
    out.extend_from_slice(&v.to_le_bytes());
}

fn push_inode(out: &mut Vec<u8>, type_and_mode: u32, length: u32, offset: u32, uid: u32, gid: u32) {
    push32(out, type_and_mode);
    push32(out, length);
    push32(out, offset);
    push32(out, uid);
    push32(out, gid);
}

/// An image with a root directory (inode 0) that holds `file.txt` (inode 1)
/// and `docs` (inode 2, a directory with no entries), and one inode of an
/// unknown type (inode 3).
///
/// Layout: header 0..26, inode table 26..106, root entries 106..122,
/// names 122..134, file data from 134.
fn build_image() -> Vec<u8> {
    let mut img = Vec::new();
    img.extend_from_slice(&MAGIC);
    push32(&mut img, 26);
    img.extend_from_slice(&1_650_000_000u64.to_le_bytes());
    push32(&mut img, 123_456_789);
    push16(&mut img, 4);
    assert_eq!(img.len(), 26);
    let file_off = 134u32;
    push_inode(&mut img, (1 << 28) | 0o755, 16, 106, 0, 0);
    push_inode(&mut img, 0o644, FILE_TXT.len() as u32, file_off, 1000, 100);
    push_inode(&mut img, (1 << 28) | 0o700, 0, 134, 0, 0);
    push_inode(&mut img, (7 << 28) | 0o600, 0, 134, 0, 0);
    assert_eq!(img.len(), 106);
    push16(&mut img, 1);
    push16(&mut img, 8);
    push32(&mut img, 122);
    push16(&mut img, 2);
    push16(&mut img, 4);
    push32(&mut img, 130);
    assert_eq!(img.len(), 122);
    img.extend_from_slice(b"file.txtdocs");
    assert_eq!(img.len(), 134);
    img.extend_from_slice(FILE_TXT);
    img
}

#[test]
fn archive_and_read() {
    let data = build_image();
    let filesystem = InitFs::new(&data).expect("failed to parse archive header");
    let root_inode = filesystem
        .get_inode(InitFs::root_inode())
        .expect("Failed to get root inode");
    let dir = match root_inode.kind() {
        InodeKind::Dir(dir) => dir,
        _ => panic!("root inode was not a directory"),
    };
    let mut found = false;
    for idx in 0..dir.entry_count().expect("failed to get inode entry count") {
        let entry = dir
            .get_entry(idx)
            .expect("failed to get entry for index")
            .expect("no entry found");
        if entry.name().expect("failed to get entry name") == b"file.txt".as_slice() {
            let inode = filesystem.get_inode(entry.inode()).expect("failed to load file inode");
            let file = match inode.kind() {
                InodeKind::File(file) => file,
                _ => panic!("file.txt was a directory"),
            };
            let data = file.data().expect("failed to get file.txt data");
            assert_eq!(data, FILE_TXT);
            found = true;
        }
    }
    assert!(found);
}

#[test]
fn header_fields_are_read() {
    let data = build_image();
    let fs = InitFs::new(&data).unwrap();
    assert_eq!(fs.inode_count(), 4);
    let h = fs.header();
    assert_eq!(h.magic.0, MAGIC);
    assert_eq!(h.inode_table_offset.0.get(), 26);
    assert_eq!(h.inode_count.get(), 4);
    let t: Timespec = fs.image_creation_time();
    assert_eq!(t.sec.get(), 1_650_000_000);
    assert_eq!(t.nsec.get(), 123_456_789);
}

#[test]
fn inode_fields_and_kinds() {
    let data = build_image();
    let fs = InitFs::new(&data).unwrap();
    let file = fs.get_inode(fs.all_inodes()[1]).unwrap();
    assert_eq!(file.mode(), 0o644);
    assert_eq!(file.uid(), 1000);
    assert_eq!(file.gid(), 100);
    assert!(matches!(file.kind(), InodeKind::File(_)));
    let root = fs.get_inode(InitFs::root_inode()).unwrap();
    assert_eq!(root.mode(), 0o755);
    assert!(matches!(root.kind(), InodeKind::Dir(_)));
    let odd = fs.get_inode(fs.all_inodes()[3]).unwrap();
    assert_eq!(odd.mode(), 0o600);
    assert!(matches!(odd.kind(), InodeKind::Unknown));
}

#[test]
fn all_inodes_lists_each_inode_once() {
    let data = build_image();
    let fs = InitFs::new(&data).unwrap();
    let all = fs.all_inodes();
    assert_eq!(all.len(), 4);
    assert_eq!(all[0], InitFs::root_inode());
    for inode in &all {
        assert!(fs.get_inode(*inode).is_some());
    }
}

#[test]
fn directory_entries() {
    let data = build_image();
    let fs = InitFs::new(&data).unwrap();
    let root = match fs.get_inode(InitFs::root_inode()).unwrap().kind() {
        InodeKind::Dir(d) => d,
        _ => panic!("root is not a directory"),
    };
    assert_eq!(root.entry_count().unwrap(), 2);
    let first = root.get_entry(0).unwrap().unwrap();
    assert_eq!(first.name().unwrap(), b"file.txt");
    let second = root.get_entry(1).unwrap().unwrap();
    assert_eq!(second.name().unwrap(), b"docs");
    assert_eq!(second.inode(), fs.all_inodes()[2]);
    assert!(root.get_entry(2).unwrap().is_none());
    assert!(root.get_entry(u32::MAX).unwrap().is_none());
    let docs = match fs.get_inode(second.inode()).unwrap().kind() {
        InodeKind::Dir(d) => d,
        _ => panic!("docs is not a directory"),
    };
    assert_eq!(docs.entry_count().unwrap(), 0);
    assert!(docs.get_entry(0).unwrap().is_none());
    assert_eq!(docs.inode().mode(), 0o700);
}

#[test]
fn rejects_short_image() {
    let data = build_image();
    assert!(InitFs::new(&data[..25]).is_err());
    assert!(InitFs::new(&[]).is_err());
}

#[test]
fn rejects_bad_magic() {
    let mut data = build_image();
    data[0] = b'r';
    assert!(InitFs::new(&data).is_err());
}

#[test]
fn rejects_table_inside_header() {
    let mut data = build_image();
    data[8..12].copy_from_slice(&25u32.to_le_bytes());
    assert!(InitFs::new(&data).is_err());
}

#[test]
fn rejects_table_past_end() {
    let mut data = build_image();
    data[24..26].copy_from_slice(&100u16.to_le_bytes());
    assert!(InitFs::new(&data).is_err());
    let mut data = build_image();
    data[8..12].copy_from_slice(&u32::MAX.to_le_bytes());
    assert!(InitFs::new(&data).is_err());
}

#[test]
fn accepts_table_ending_at_image_end() {
    let mut data = build_image();
    data.truncate(106);
    let fs = InitFs::new(&data).unwrap();
    assert_eq!(fs.inode_count(), 4);
    let file = match fs.get_inode(fs.all_inodes()[1]).unwrap().kind() {
        InodeKind::File(f) => f,
        _ => panic!("not a file"),
    };
    // The file's data lay past the end that was cut off.
    assert!(file.data().is_err());
}

#[test]
fn inode_past_table_is_absent() {
    let mut data = build_image();
    data[24..26].copy_from_slice(&1u16.to_le_bytes());
    let fs = InitFs::new(&data).unwrap();
    assert!(fs.get_inode(InitFs::root_inode()).is_some());
    let other = InitFs::new(&build_image()).unwrap().all_inodes()[1];
    assert!(fs.get_inode(other).is_none());
    assert_eq!(fs.all_inodes().len(), 1);
}

#[test]
fn empty_inode_table() {
    let mut data = build_image();
    data[24..26].copy_from_slice(&0u16.to_le_bytes());
    let fs = InitFs::new(&data).unwrap();
    assert!(fs.get_inode(InitFs::root_inode()).is_none());
    assert!(fs.all_inodes().is_empty());
}

#[test]
fn entry_name_out_of_image_is_an_error() {
    let mut data = build_image();
    data[110..114].copy_from_slice(&u32::MAX.to_le_bytes());
    let fs = InitFs::new(&data).unwrap();
    let root = match fs.get_inode(InitFs::root_inode()).unwrap().kind() {
        InodeKind::Dir(d) => d,
        _ => panic!("root is not a directory"),
    };
    assert!(root.get_entry(0).unwrap().unwrap().name().is_err());
    assert_eq!(root.get_entry(1).unwrap().unwrap().name().unwrap(), b"docs");
}

#[test]
fn directory_data_out_of_image_is_an_error() {
    let mut data = build_image();
    // Root directory data length now runs past the end.
    data[30..34].copy_from_slice(&10_000u32.to_le_bytes());
    let fs = InitFs::new(&data).unwrap();
    let root = match fs.get_inode(InitFs::root_inode()).unwrap().kind() {
        InodeKind::Dir(d) => d,
        _ => panic!("root is not a directory"),
    };
    assert!(root.entry_count().is_err());
    assert!(root.get_entry(0).is_err());
}

#[test]
fn partial_trailing_entry_is_ignored() {
    let mut data = build_image();
    // Root directory data of 15 bytes: one whole entry and seven stray bytes.
    data[30..34].copy_from_slice(&15u32.to_le_bytes());
    let fs = InitFs::new(&data).unwrap();
    let root = match fs.get_inode(InitFs::root_inode()).unwrap().kind() {
        InodeKind::Dir(d) => d,
        _ => panic!("root is not a directory"),
    };
    assert_eq!(root.entry_count().unwrap(), 1);
    assert!(root.get_entry(1).unwrap().is_none());
}

#[test]
fn error_message() {
    let data = build_image();
    let err = InitFs::new(&data[..3]).err().unwrap();
    assert_eq!(err.to_string(), "invalid or corrupt initfs");
}

#[test]
fn little_endian_wrappers_round_trip() {
    let a = U16::new(0xBEEF);
    assert_eq!(a.get(), 0xBEEF);
    assert_eq!(u16::from(a), 0xBEEF);
    assert_eq!(U16::from(7u16).get(), 7);
    let mut b = U32::new(0xDEAD_BEEF);
    assert_eq!(b.get(), 0xDEAD_BEEF);
    b.set(1);
    assert_eq!(u32::from(b), 1);
    let c = U64::from(0x0123_4567_89AB_CDEFu64);
    assert_eq!(c.get(), 0x0123_4567_89AB_CDEF);
    assert_eq!(U64::from_bytes_at(&0x0102u64.to_le_bytes(), 0).get(), 0x0102);
    assert_eq!(U32::from_bytes_at(&[9, 1, 0, 0, 0], 1).get(), 1);
    assert_eq!(U16::from_bytes_at(&[0x34, 0x12], 0).get(), 0x1234);
}
