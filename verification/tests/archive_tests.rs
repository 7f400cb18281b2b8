use std::io::Write;
use unzipper::archive::{Archive, ArchiveError};
use unzipper::plan::{plan_archive, plan_entry, Action, Host};

struct Member {
    name: &'static str,
    data: &'static [u8],
    comment: &'static str,
    mode: Option<u32>,
    extra: &'static [u8],
}

fn crc32(data: &[u8]) -> u32 {
    let mut crc: u32 = 0xFFFF_FFFF;
    for &b in data {
        crc ^= b as u32;
        for _ in 0..8 {
            crc = if crc & 1 == 1 { (crc >> 1) ^ 0xEDB8_8320 } else { crc >> 1 };
        }
    }
    !crc
}

fn put16(out: &mut Vec<u8>, v: u16) {
    out.extend_from_slice(&v.to_le_bytes());
}

fn put32(out: &mut Vec<u8>, v: u32) {
    out.extend_from_slice(&v.to_le_bytes());
}

/// An archive of stored (uncompressed) members, written out by hand.
fn stored_archive(members: &[Member]) -> Vec<u8> {
    let mut out: Vec<u8> = Vec::new();
    let mut central: Vec<u8> = Vec::new();
    for m in members {
        let offset = out.len() as u32;
        let crc = crc32(m.data);
        put32(&mut out, 0x0403_4b50);
        put16(&mut out, 20);
        put16(&mut out, 0);
        put16(&mut out, 0);
        put16(&mut out, 0);
        put16(&mut out, 0x21);
        put32(&mut out, crc);
        put32(&mut out, m.data.len() as u32);
        put32(&mut out, m.data.len() as u32);
        put16(&mut out, m.name.len() as u16);
        put16(&mut out, 0);
        out.extend_from_slice(m.name.as_bytes());
        out.extend_from_slice(m.data);

        put32(&mut central, 0x0201_4b50);
        put16(&mut central, (3 << 8) | 20);
        put16(&mut central, 20);
        put16(&mut central, 0);
        put16(&mut central, 0);
        put16(&mut central, 0);
        put16(&mut central, 0x21);
        put32(&mut central, crc);
        put32(&mut central, m.data.len() as u32);
        put32(&mut central, m.data.len() as u32);
        put16(&mut central, m.name.len() as u16);
        put16(&mut central, m.extra.len() as u16);
        put16(&mut central, m.comment.len() as u16);
        put16(&mut central, 0);
        put16(&mut central, 0);
        put32(&mut central, m.mode.map_or(0, |mode| mode << 16));
        put32(&mut central, offset);
        central.extend_from_slice(m.name.as_bytes());
        central.extend_from_slice(m.extra);
        central.extend_from_slice(m.comment.as_bytes());
    }
    let start = out.len() as u32;
    out.extend_from_slice(&central);
    put32(&mut out, 0x0605_4b50);
    put16(&mut out, 0);
    put16(&mut out, 0);
    put16(&mut out, members.len() as u16);
    put16(&mut out, members.len() as u16);
    put32(&mut out, central.len() as u32);
    put32(&mut out, start);
    put16(&mut out, 0);
    out
}

fn plain(name: &'static str, data: &'static [u8]) -> Member {
    Member { name, data, comment: "", mode: None, extra: b"" }
}

#[test]
fn bytes_that_are_no_archive_fail_to_open() {
    assert!(matches!(Archive::open(b"not a zip".to_vec()), Err(ArchiveError::Open)));
    assert!(matches!(Archive::open(Vec::new()), Err(ArchiveError::Open)));
}

#[test]
fn empty_archive_has_no_entries() {
    let mut a = Archive::open(stored_archive(&[])).unwrap();
    assert_eq!(a.count(), 0);
    assert_eq!(a.entries().unwrap(), Vec::new());
    assert_eq!(a.entry(0), Err(ArchiveError::Metadata { index: 0 }));
    assert_eq!(a.contents(0), Err(ArchiveError::Contents { index: 0 }));
}

#[test]
fn single_file_archive() {
    let mut a = Archive::open(stored_archive(&[plain("hello.txt", b"hi\n")])).unwrap();
    assert_eq!(a.count(), 1);
    let e = a.entry(0).unwrap();
    assert_eq!(e.name, "hello.txt");
    assert_eq!(e.enclosed, Some("hello.txt".to_string()));
    assert_eq!(e.comment, "");
    assert_eq!(e.size, 3);
    assert_eq!(e.unix_mode, None);
    assert_eq!(a.contents(0).unwrap(), b"hi\n".to_vec());
    let plan = plan_entry(0, &e, Host::Posix);
    assert_eq!(plan[0], Action::Print("File 0 extracted to \"hello.txt\" (3 bytes)".to_string()));
    assert_eq!(plan[2], Action::WriteFile { path: "hello.txt".to_string(), index: 0 });
}

#[test]
fn nested_file_archive() {
    let mut a = Archive::open(stored_archive(&[plain("a/b/c.txt", b"x")])).unwrap();
    let entries = a.entries().unwrap();
    let plan = plan_archive(&entries, Host::Posix);
    assert_eq!(
        plan,
        vec![
            Action::Print("File 0 extracted to \"a/b/c.txt\" (1 bytes)".to_string()),
            Action::EnsureParent("a/b/c.txt".to_string()),
            Action::WriteFile { path: "a/b/c.txt".to_string(), index: 0 },
        ]
    );
    assert_eq!(a.contents(0).unwrap(), b"x".to_vec());
}

#[test]
fn directory_entry_archive() {
    let mut a = Archive::open(stored_archive(&[plain("d/", b""), plain("d/f", b"")])).unwrap();
    assert_eq!(a.count(), 2);
    let entries = a.entries().unwrap();
    assert!(entries[0].is_dir());
    assert!(!entries[1].is_dir());
    let plan = plan_archive(&entries, Host::Posix);
    assert_eq!(plan[0], Action::Print("File 0 extracted to \"d\"".to_string()));
    assert_eq!(plan[1], Action::CreateDirAll("d".to_string()));
    assert_eq!(plan[2], Action::Print("File 1 extracted to \"d/f\" (0 bytes)".to_string()));
    assert_eq!(a.contents(1).unwrap(), Vec::<u8>::new());
}

#[test]
fn entry_comment_archive() {
    let member = Member { name: "note.txt", data: b"n", comment: "readme", mode: None, extra: b"" };
    let mut a = Archive::open(stored_archive(&[member])).unwrap();
    let e = a.entry(0).unwrap();
    assert_eq!(e.comment, "readme");
    let plan = plan_entry(0, &e, Host::Posix);
    assert_eq!(plan[0], Action::Print("File 0 comment: readme".to_string()));
    assert_eq!(plan[1], Action::Print("File 0 extracted to \"note.txt\" (1 bytes)".to_string()));
}

#[test]
fn unix_mode_archive() {
    let member =
        Member { name: "run.sh", data: b"#!/bin/sh\n", comment: "", mode: Some(0o755), extra: b"" };
    let mut a = Archive::open(stored_archive(&[member, plain("plain", b"")])).unwrap();
    let entries = a.entries().unwrap();
    assert_eq!(entries[0].unix_mode, Some(0o755));
    assert_eq!(entries[1].unix_mode, None);
    let plan = plan_entry(0, &entries[0], Host::Posix);
    assert_eq!(plan.last(), Some(&Action::SetMode { path: "run.sh".to_string(), mode: 0o755 }));
}

#[test]
fn unsafe_name_archive() {
    let mut a =
        Archive::open(stored_archive(&[plain("../escape", b"e"), plain("ok.txt", b"ok")])).unwrap();
    let entries = a.entries().unwrap();
    assert_eq!(entries[0].name, "../escape");
    assert_eq!(entries[0].enclosed, None);
    assert_eq!(entries[0].resolve(), None);
    let plan = plan_archive(&entries, Host::Posix);
    assert_eq!(
        plan,
        vec![
            Action::Print("File 1 extracted to \"ok.txt\" (2 bytes)".to_string()),
            Action::EnsureParent("ok.txt".to_string()),
            Action::WriteFile { path: "ok.txt".to_string(), index: 1 },
        ]
    );
}

#[test]
fn absolute_name_archive() {
    let mut a = Archive::open(stored_archive(&[plain("/abs/file", b"e")])).unwrap();
    let e = a.entry(0).unwrap();
    assert_eq!(e.resolve(), None);
    assert_eq!(plan_entry(0, &e, Host::Posix), Vec::<Action>::new());
}

#[test]
fn entries_come_in_archive_order() {
    let mut a = Archive::open(stored_archive(&[
        plain("z", b"1"),
        plain("a", b"22"),
        plain("m", b"333"),
    ]))
    .unwrap();
    let names: Vec<String> = a.entries().unwrap().into_iter().map(|e| e.name).collect();
    assert_eq!(names, vec!["z", "a", "m"]);
    assert_eq!(a.contents(2).unwrap(), b"333".to_vec());
    assert_eq!(a.contents(0).unwrap(), b"1".to_vec());
    assert_eq!(a.contents(1).unwrap(), b"22".to_vec());
    assert_eq!(a.count(), 3);
}

#[test]
fn index_past_the_end_fails() {
    let mut a = Archive::open(stored_archive(&[plain("one", b"1")])).unwrap();
    assert_eq!(a.entry(1), Err(ArchiveError::Metadata { index: 1 }));
    assert_eq!(a.contents(5), Err(ArchiveError::Contents { index: 5 }));
    assert_eq!(a.entry(0).unwrap().name, "one");
}

#[test]
fn same_name_twice_keeps_both_contents_apart() {
    let mut a =
        Archive::open(stored_archive(&[plain("same", b"old"), plain("same", b"new")])).unwrap();
    assert_eq!(a.contents(0).unwrap(), b"old".to_vec());
    assert_eq!(a.contents(1).unwrap(), b"new".to_vec());
}

#[test]
fn compressed_archive_from_the_writer() {
    let mut w = zip::ZipWriter::new(std::io::Cursor::new(Vec::new()));
    let options = zip::write::FileOptions::default()
        .compression_method(zip::CompressionMethod::Deflated)
        .unix_permissions(0o755);
    w.add_directory("bin", options).unwrap();
    w.start_file("bin/run.sh", options).unwrap();
    w.write_all(&[b'a'; 4000]).unwrap();
    let bytes = w.finish().unwrap().into_inner();
    let mut a = Archive::open(bytes).unwrap();
    let entries = a.entries().unwrap();
    assert_eq!(entries.len(), 2);
    assert_eq!(entries[0].name, "bin/");
    assert_eq!(entries[1].size, 4000);
    assert_eq!(entries[1].unix_mode.map(|m| m & 0o7777), Some(0o755));
    assert_eq!(a.contents(1).unwrap(), vec![b'a'; 4000]);
    let plan = plan_archive(&entries, Host::Posix);
    assert_eq!(plan[0], Action::Print("File 0 extracted to \"bin\"".to_string()));
    assert_eq!(
        plan[3],
        Action::Print("File 1 extracted to \"bin/run.sh\" (4000 bytes)".to_string())
    );
}

#[test]
fn broken_local_header_fails_at_that_entry() {
    let mut bytes = stored_archive(&[plain("good", b"12345"), plain("bad", b"678")]);
    let second = 30 + "good".len() + 5;
    assert_eq!(&bytes[second..second + 4], &[0x50, 0x4b, 0x03, 0x04]);
    bytes[second] = 0;
    let mut a = Archive::open(bytes).unwrap();
    assert_eq!(a.count(), 2);
    assert_eq!(a.entry(0).unwrap().name, "good");
    assert_eq!(a.entry(1), Err(ArchiveError::Metadata { index: 1 }));
    assert_eq!(a.entries(), Err(ArchiveError::Metadata { index: 1 }));
    assert_eq!(a.contents(1), Err(ArchiveError::Contents { index: 1 }));
    assert_eq!(a.contents(0).unwrap(), b"12345".to_vec());
}

#[test]
fn damaged_contents_fail_to_read() {
    let mut bytes = stored_archive(&[plain("f", b"payload")]);
    let data = 30 + "f".len();
    assert_eq!(bytes[data], b'p');
    bytes[data] = b'q';
    let mut a = Archive::open(bytes).unwrap();
    assert_eq!(a.entry(0).unwrap().size, 7);
    assert_eq!(a.contents(0), Err(ArchiveError::Contents { index: 0 }));
}

#[test]
fn entry_that_asks_for_a_password_fails_without_unwinding() {
    let aes: &'static [u8] = &[0x01, 0x99, 0x07, 0x00, 0x02, 0x00, 0x41, 0x45, 0x03, 0x00, 0x00];
    let locked = Member { name: "locked", data: b"secret", comment: "", mode: None, extra: aes };
    let mut a = Archive::open(stored_archive(&[plain("open", b"1"), locked])).unwrap();
    assert_eq!(a.count(), 2);
    assert_eq!(a.entry(0).unwrap().name, "open");
    assert_eq!(a.entry(1), Err(ArchiveError::Metadata { index: 1 }));
    assert_eq!(a.contents(1), Err(ArchiveError::Contents { index: 1 }));
    assert_eq!(a.entries(), Err(ArchiveError::Metadata { index: 1 }));
    assert_eq!(a.contents(0).unwrap(), b"1".to_vec());
}

#[test]
fn name_with_nul_has_no_enclosed_name() {
    let mut a = Archive::open(stored_archive(&[plain("a\0b", b"x")])).unwrap();
    let e = a.entry(0).unwrap();
    assert_eq!(e.enclosed, None);
    assert_eq!(plan_entry(0, &e, Host::Posix), Vec::<Action>::new());
}

#[test]
fn entry_for_the_working_directory_itself() {
    let here = Member { name: "./", data: b"", comment: "", mode: Some(0o755), extra: b"" };
    let mut a = Archive::open(stored_archive(&[here])).unwrap();
    let e = a.entry(0).unwrap();
    assert_eq!(e.resolve(), Some(".".to_string()));
    assert_eq!(
        plan_entry(0, &e, Host::Posix),
        vec![
            Action::Print("File 0 extracted to \".\"".to_string()),
            Action::CreateDirAll(".".to_string()),
            Action::SetMode { path: ".".to_string(), mode: 0o755 },
        ]
    );
}

#[test]
fn climbing_in_the_middle_of_a_name_is_skipped() {
    let mut a = Archive::open(stored_archive(&[plain("a/../../b", b"x")])).unwrap();
    let e = a.entry(0).unwrap();
    assert_eq!(e.resolve(), None);
    assert_eq!(plan_entry(0, &e, Host::Posix), Vec::<Action>::new());
}
