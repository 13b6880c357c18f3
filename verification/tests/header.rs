use dayer::header::{directory_header, is_text, placeholder_directory};
use dayer::path::NormPath;
use dayer::{Error, HashableHeader};

fn tar_header(path: &str, kind: u8, size: u64) -> tar::Header {
    let mut h = tar::Header::new_ustar();
    h.set_path(path).unwrap();
    h.set_size(size);
    h.set_mode(0o644);
    h.set_uid(7);
    h.set_gid(8);
    h.set_mtime(1_234_567);
    h.set_entry_type(tar::EntryType::new(kind));
    h.set_cksum();
    h
}

#[test]
fn new_keeps_the_bytes() {
    let t = tar_header("some/file", b'0', 3);
    let h = HashableHeader::new(*t.as_bytes());
    assert_eq!(h.as_bytes(), t.as_bytes());
}

#[test]
fn records_are_keys_of_a_hash_map() {
    let a = HashableHeader::new(*tar_header("f", b'0', 3).as_bytes());
    let b = HashableHeader::new(*tar_header("f", b'0', 3).as_bytes());
    let c = HashableHeader::new(*tar_header("f", b'0', 4).as_bytes());
    assert_eq!(a, b);
    assert_ne!(a, c);
    let mut map = std::collections::HashMap::new();
    map.insert(a, 1);
    map.insert(c, 2);
    assert_eq!(map.insert(b, 3), Some(1));
    assert_eq!(map.len(), 2);
    assert_eq!(map[&c], 2);
}

#[test]
fn same_compares_all_bytes() {
    let a = HashableHeader::new(*tar_header("f", b'0', 3).as_bytes());
    let b = HashableHeader::new(*tar_header("f", b'0', 3).as_bytes());
    assert!(a.same(&b));
    let mut raw = *a.as_bytes();
    raw[511] = 1;
    assert!(!a.same(&HashableHeader::new(raw)));
    let mut raw = *a.as_bytes();
    raw[0] = b'g';
    assert!(!a.same(&HashableHeader::new(raw)));
}

#[test]
fn decode_takes_a_well_formed_record() {
    let t = tar_header("some/file", b'0', 3);
    let h = HashableHeader::decode(&t.as_bytes()[..]).unwrap();
    assert_eq!(h.as_bytes(), t.as_bytes());
    assert_eq!(h.path_bytes(), b"some/file".to_vec());
    assert_eq!(h.size(), Some(3));
    assert_eq!(h.entry_type(), b'0');
    assert!(!h.is_directory());
    assert!(h.has_magic());
}

#[test]
fn decode_refuses_a_wrong_length() {
    let t = tar_header("f", b'0', 0);
    assert_eq!(HashableHeader::decode(&t.as_bytes()[..511]).unwrap_err(), Error::Format);
    assert_eq!(HashableHeader::decode(&[]).unwrap_err(), Error::Format);
    let mut long = t.as_bytes().to_vec();
    long.push(0);
    assert_eq!(HashableHeader::decode(&long).unwrap_err(), Error::Format);
}

#[test]
fn decode_refuses_a_record_without_the_marker() {
    let mut t = tar::Header::new_old();
    t.set_path("f").unwrap();
    t.set_size(0);
    t.set_cksum();
    assert_eq!(HashableHeader::decode(&t.as_bytes()[..]).unwrap_err(), Error::Format);
    let mut raw = *tar_header("f", b'0', 0).as_bytes();
    raw[257] = b'U';
    assert_eq!(HashableHeader::decode(&raw).unwrap_err(), Error::Format);
}

#[test]
fn decode_takes_the_gnu_marker() {
    let mut t = tar::Header::new_gnu();
    t.set_path("f").unwrap();
    t.set_size(0);
    t.set_cksum();
    assert!(HashableHeader::decode(&t.as_bytes()[..]).is_ok());
}

#[test]
fn decode_refuses_a_malformed_size() {
    let mut raw = *tar_header("f", b'0', 5).as_bytes();
    raw[124] = b'x';
    assert_eq!(HashableHeader::decode(&raw).unwrap_err(), Error::Format);
    assert_eq!(HashableHeader::new(raw).size(), None);
}

#[test]
fn decode_refuses_a_malformed_checksum() {
    let mut raw = *tar_header("f", b'0', 5).as_bytes();
    raw[150] = b'9';
    assert_eq!(HashableHeader::decode(&raw).unwrap_err(), Error::Format);
}

#[test]
fn size_is_read_in_octal() {
    let h = HashableHeader::new(*tar_header("f", b'0', 0o1234).as_bytes());
    assert_eq!(h.size(), Some(668));
}

#[test]
fn encode_computes_the_checksum_anew() {
    let t = tar_header("some/file", b'0', 3);
    let mut raw = *t.as_bytes();
    for b in raw[148..156].iter_mut() {
        *b = b' ';
    }
    let h = HashableHeader::new(raw);
    assert_eq!(&h.encode()[..], &t.as_bytes()[..]);
    // a record whose checksum is already in this form stays as it is
    let again = HashableHeader::new(h.encode());
    assert_eq!(again.encode(), h.encode());
}

#[test]
fn encode_gives_seven_octal_digits_and_a_nul() {
    let mut raw = [0u8; 512];
    raw[0] = 1;
    let out = HashableHeader::new(raw).encode();
    // 1 + 8 spaces = 257 = 0o401
    assert_eq!(&out[148..156], b"0000401\0");
    assert_eq!(out[0], 1);
    assert_eq!(&out[1..148], &[0u8; 147][..]);
    assert_eq!(&out[156..], &[0u8; 356][..]);
}

#[test]
fn path_bytes_ends_at_the_first_nul() {
    let mut raw = *tar_header("abc", b'0', 0).as_bytes();
    raw[5] = b'z';
    assert_eq!(HashableHeader::new(raw).path_bytes(), b"abc".to_vec());
}

#[test]
fn path_bytes_puts_the_prefix_first() {
    let mut raw = *tar_header("name", b'0', 0).as_bytes();
    raw[345..348].copy_from_slice(b"pre");
    assert_eq!(HashableHeader::new(raw).path_bytes(), b"pre/name".to_vec());
    // only the POSIX format has a prefix
    raw[263] = b' ';
    assert_eq!(HashableHeader::new(raw).path_bytes(), b"name".to_vec());
}

#[test]
fn path_bytes_of_a_long_name_is_what_was_set() {
    let long = format!("{}/{}", "d".repeat(120), "f".repeat(80));
    let t = tar_header(&long, b'0', 0);
    let h = HashableHeader::new(*t.as_bytes());
    assert_eq!(h.path_bytes(), long.as_bytes().to_vec());
    assert_eq!(h.path().len(), 2);
}

#[test]
fn path_drops_empty_components_and_dots() {
    let h = HashableHeader::new(*tar_header("a/b", b'5', 0).as_bytes());
    let p = h.path();
    assert_eq!(p.len(), 2);
    assert_eq!(p.part(0), &b"a".to_vec());
    assert_eq!(p.part(1), &b"b".to_vec());
    let mut raw = [0u8; 512];
    raw[..8].copy_from_slice(b"./a//b/.");
    let p = HashableHeader::new(raw).path();
    assert_eq!(p.to_bytes(), b"a/b".to_vec());
}

#[test]
fn directory_flag_is_read() {
    assert!(HashableHeader::new(*tar_header("d", b'5', 0).as_bytes()).is_directory());
    assert_eq!(HashableHeader::new(*tar_header("d", b'5', 0).as_bytes()).entry_type(), b'5');
    assert!(!HashableHeader::new(*tar_header("d", b'2', 0).as_bytes()).is_directory());
}

#[test]
fn placeholder_is_what_the_tar_crate_builds() {
    let dir = NormPath::parse(b"some/dir");
    let h = placeholder_directory(&dir).unwrap();
    let mut t = tar::Header::new_ustar();
    t.set_path("some/dir").unwrap();
    t.set_size(0);
    t.set_mode(0o777);
    t.set_uid(0);
    t.set_gid(0);
    t.set_mtime(0);
    t.set_entry_type(tar::EntryType::Directory);
    t.set_cksum();
    assert_eq!(&h.as_bytes()[..], &t.as_bytes()[..]);
    assert!(h.is_directory());
    assert_eq!(h.path_bytes(), b"some/dir".to_vec());
}

#[test]
fn placeholder_fields_are_written_in_octal() {
    let h = placeholder_directory(&NormPath::parse(b"d")).unwrap();
    let raw = h.as_bytes();
    assert_eq!(&raw[0..2], b"d\0");
    assert_eq!(&raw[100..108], b"0000777\0");
    assert_eq!(&raw[108..116], b"0000000\0");
    assert_eq!(&raw[116..124], b"0000000\0");
    assert_eq!(&raw[124..136], b"00000000000\0");
    assert_eq!(&raw[136..148], b"00000000000\0");
    assert_eq!(raw[156], b'5');
    assert_eq!(&raw[257..265], b"ustar\x0000");
    assert_eq!(h.as_bytes(), &h.encode());
}

#[test]
fn directory_header_writes_each_value() {
    let dir = NormPath::parse(b"x/y");
    let h = directory_header(&dir, 0o750, 0o1234567, 0o7654321, 0o12345670123).unwrap();
    let raw = h.as_bytes();
    assert_eq!(&raw[100..108], b"0000750\0");
    assert_eq!(&raw[108..116], b"1234567\0");
    assert_eq!(&raw[116..124], b"7654321\0");
    assert_eq!(&raw[136..148], b"12345670123\0");
    assert_eq!(raw[156], b'5');
    let t = tar::Header::from_byte_slice(&raw[..]);
    assert_eq!(t.mode().unwrap(), 0o750);
    assert_eq!(t.uid().unwrap(), 0o1234567);
    assert_eq!(t.gid().unwrap(), 0o7654321);
    assert_eq!(t.mtime().unwrap(), 0o12345670123);
    assert_eq!(t.cksum().unwrap(), raw[..148].iter().chain(raw[156..].iter()).map(|b| *b as u32).sum::<u32>() + 256);
}

#[test]
fn directory_header_leaves_out_the_front_of_a_long_mode() {
    let h = directory_header(&NormPath::parse(b"d"), 0o12345671234, 0, 0, 0).unwrap();
    assert_eq!(&h.as_bytes()[100..108], b"5671234\0");
}

#[test]
fn directory_header_refuses_values_that_need_another_form() {
    let dir = NormPath::parse(b"d");
    assert!(directory_header(&dir, 0o777, 0o10000000, 0, 0).is_none());
    assert!(directory_header(&dir, 0o777, 0, 0o10000000, 0).is_none());
    assert!(directory_header(&dir, 0o777, 0, 0, 0o100000000000).is_none());
    assert!(directory_header(&dir, 0o777, 0o7777777, 0o7777777, 0o77777777777).is_some());
}

#[test]
fn placeholder_refuses_the_root_and_parent_directories() {
    assert!(placeholder_directory(&NormPath::root()).is_none());
    assert!(placeholder_directory(&NormPath::parse(b"a/../b")).is_none());
}

#[test]
fn placeholder_refuses_a_path_that_is_not_text() {
    assert!(placeholder_directory(&NormPath::parse(&[0x66, 0xff, 0x66])).is_none());
}

#[test]
fn placeholder_refuses_a_path_that_does_not_fit() {
    let long = "x".repeat(300);
    assert!(placeholder_directory(&NormPath::parse(long.as_bytes())).is_none());
}

#[test]
fn is_text_tells_utf8() {
    assert!(is_text(b""));
    assert!(is_text("gr\u{fc}n".as_bytes()));
    assert!(!is_text(&[0xc3]));
    assert!(!is_text(&[0xff, 0x41]));
}
