use dayer::archive::ArchiveEntry;
use dayer::headermap::get_header_map;
use dayer::util::{
    find_common_keys, format_num_bytes, identical_in_steps, readers_identical, to_string_slices,
};
use dayer::HashableHeader;

fn record(tag: u8) -> HashableHeader {
    let mut raw = [0u8; 512];
    raw[0] = tag;
    HashableHeader::new(raw)
}

fn entries(tags: &[u8]) -> Vec<ArchiveEntry> {
    tags.iter().map(|t| ArchiveEntry { header: record(*t), data: vec![*t] }).collect()
}

fn tags(keys: &[HashableHeader]) -> Vec<u8> {
    keys.iter().map(|h| h.as_bytes()[0]).collect()
}

#[test]
fn common_keys_are_those_of_every_map() {
    let maps = vec![
        get_header_map(&entries(&[1, 2, 3, 4])),
        get_header_map(&entries(&[4, 3, 9, 1])),
        get_header_map(&entries(&[3, 1, 4, 7])),
    ];
    assert_eq!(tags(&find_common_keys(&maps)), vec![1, 3, 4]);
}

#[test]
fn common_keys_come_in_the_order_of_the_first_map() {
    let maps = vec![get_header_map(&entries(&[5, 1, 3])), get_header_map(&entries(&[1, 3, 5]))];
    assert_eq!(tags(&find_common_keys(&maps)), vec![5, 1, 3]);
}

#[test]
fn common_keys_of_one_map_are_its_keys() {
    let maps = vec![get_header_map(&entries(&[2, 1, 2, 1]))];
    assert_eq!(tags(&find_common_keys(&maps)), vec![2, 1]);
}

#[test]
fn no_maps_have_no_common_keys() {
    assert_eq!(find_common_keys(&[]).len(), 0);
}

#[test]
fn an_empty_map_leaves_nothing_common() {
    let maps = vec![get_header_map(&entries(&[1, 2])), get_header_map(&entries(&[]))];
    assert_eq!(find_common_keys(&maps).len(), 0);
}

#[test]
fn a_key_that_differs_in_one_byte_is_not_common() {
    let mut raw = [0u8; 512];
    raw[0] = 1;
    raw[500] = 1;
    let a = vec![ArchiveEntry { header: record(1), data: vec![] }];
    let b = vec![ArchiveEntry { header: HashableHeader::new(raw), data: vec![] }];
    assert_eq!(find_common_keys(&[get_header_map(&a), get_header_map(&b)]).len(), 0);
}

#[test]
fn bytes_are_worded() {
    assert_eq!(format_num_bytes(0), "~0B");
    assert_eq!(format_num_bytes(7), "~7B");
    assert_eq!(format_num_bytes(1024), "~1024B");
    assert_eq!(format_num_bytes(99 * 1024), "~101376B");
}

#[test]
fn kilobytes_are_worded() {
    assert_eq!(format_num_bytes(99 * 1024 + 1), "~99KB");
    assert_eq!(format_num_bytes(100 * 1024), "~100KB");
    assert_eq!(format_num_bytes(100 * 1024 + 1023), "~100KB");
    assert_eq!(format_num_bytes(99 * 1024 * 1024), "~101376KB");
}

#[test]
fn megabytes_are_worded() {
    assert_eq!(format_num_bytes(99 * 1024 * 1024 + 1), "~99MB");
    assert_eq!(format_num_bytes(5 * 1024 * 1024 * 1024), "~5120MB");
    assert_eq!(format_num_bytes(u64::MAX), "~17592186044415MB");
}

#[test]
fn the_same_contents_are_identical() {
    assert!(readers_identical(&[&b"abc"[..], &b"abc"[..], &b"abc"[..]]));
    assert!(readers_identical(&[&b""[..], &b""[..]]));
    let long = vec![7u8; 2000];
    assert!(readers_identical(&[&long[..], &long[..]]));
}

#[test]
fn one_content_is_identical_to_itself() {
    assert!(readers_identical(&[&b"abc"[..]]));
    assert!(readers_identical(&[]));
}

#[test]
fn a_changed_byte_is_found() {
    assert!(!readers_identical(&[&b"abc"[..], &b"abd"[..]]));
    assert!(!readers_identical(&[&b"abc"[..], &b"abc"[..], &b"xbc"[..]]));
    for at in [0usize, 511, 512, 513, 1023, 1024, 1999] {
        let a = vec![7u8; 2000];
        let mut b = a.clone();
        b[at] = 8;
        assert!(!readers_identical(&[&a[..], &b[..]]));
        assert!(!readers_identical(&[&b[..], &a[..]]));
    }
}

#[test]
fn a_content_that_goes_on_is_not_identical() {
    let short = vec![7u8; 512];
    let long = vec![7u8; 1024];
    assert!(!readers_identical(&[&short[..], &long[..]]));
    assert!(!readers_identical(&[&long[..], &short[..]]));
    assert!(!readers_identical(&[&b""[..], &b"a"[..]]));
    assert!(!readers_identical(&[&b"a"[..], &b""[..]]));
    assert!(!readers_identical(&[&long[..100], &long[..200]]));
}

#[test]
fn the_size_of_the_steps_does_not_matter() {
    let a = vec![1u8; 1500];
    let mut b = a.clone();
    b[1499] = 2;
    for chunk in [1usize, 2, 7, 512, 1499, 1500, 1501, usize::MAX] {
        assert!(identical_in_steps(&[&a[..], &a[..]], chunk));
        assert!(!identical_in_steps(&[&a[..], &b[..]], chunk));
        assert!(!identical_in_steps(&[&a[..], &a[..1499]], chunk));
    }
}

#[test]
fn strings_are_borrowed_as_slices() {
    let strings = vec!["a.tar".to_string(), String::new(), "b.tar".to_string()];
    assert_eq!(to_string_slices(&strings), vec!["a.tar", "", "b.tar"]);
    assert_eq!(to_string_slices(&[]), Vec::<&str>::new());
}
