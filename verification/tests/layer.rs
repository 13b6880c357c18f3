use dayer::archive::ArchiveEntry;
use dayer::layer::{make_layer_tar, DirectoryPolicy, LayerEntry};
use dayer::path::NormPath;
use dayer::shared::SharedRecords;
use dayer::{Error, HashableHeader, Misplaced};

fn header(path: &str, kind: u8, size: u64, mtime: u64) -> HashableHeader {
    let mut h = tar::Header::new_ustar();
    h.set_path(path).unwrap();
    h.set_size(size);
    h.set_mode(0o644);
    h.set_mtime(mtime);
    h.set_entry_type(tar::EntryType::new(kind));
    h.set_cksum();
    HashableHeader::new(*h.as_bytes())
}

fn file<'a>(path: &str, data: &'a [u8]) -> LayerEntry<'a> {
    LayerEntry { header: header(path, b'0', data.len() as u64, 5), data }
}

fn dir(path: &str) -> LayerEntry<'static> {
    LayerEntry { header: header(path, b'5', 0, 5), data: &[] }
}

fn listing(archive: &[u8]) -> Vec<(String, u8, u32, u64, Vec<u8>)> {
    let mut ar = tar::Archive::new(archive);
    let mut out = Vec::new();
    for e in ar.entries().unwrap().raw(true) {
        let mut e = e.unwrap();
        let mut data = Vec::new();
        std::io::Read::read_to_end(&mut e, &mut data).unwrap();
        out.push((
            String::from_utf8(e.path_bytes().to_vec()).unwrap(),
            e.header().entry_type().as_byte(),
            e.header().mode().unwrap(),
            e.header().mtime().unwrap(),
            data,
        ));
    }
    out
}

fn paths(archive: &[u8]) -> Vec<String> {
    listing(archive).into_iter().map(|e| e.0).collect()
}

#[test]
fn nothing_gives_an_archive_of_two_empty_blocks() {
    let out = make_layer_tar(&vec![], &vec![], &DirectoryPolicy::Placeholder).unwrap();
    assert_eq!(out, vec![0u8; 1024]);
}

#[test]
fn an_entry_is_written_as_record_content_and_padding() {
    let e = file("f", b"hello");
    let raw = *e.header.as_bytes();
    let out = make_layer_tar(&vec![e], &vec![], &DirectoryPolicy::Placeholder).unwrap();
    assert_eq!(out.len(), 512 + 512 + 1024);
    assert_eq!(&out[..512], &raw[..]);
    assert_eq!(&out[512..517], b"hello");
    assert_eq!(&out[517..], &vec![0u8; 512 - 5 + 1024][..]);
}

#[test]
fn content_of_whole_blocks_gets_no_padding() {
    let data = vec![3u8; 1024];
    let out = make_layer_tar(&vec![file("f", &data)], &vec![], &DirectoryPolicy::Placeholder)
        .unwrap();
    assert_eq!(out.len(), 512 + 1024 + 1024);
    let data = vec![3u8; 513];
    let out = make_layer_tar(&vec![file("f", &data)], &vec![], &DirectoryPolicy::Placeholder)
        .unwrap();
    assert_eq!(out.len(), 512 + 1024 + 1024);
}

#[test]
fn entries_are_written_in_the_order_of_their_paths() {
    let out = make_layer_tar(
        &vec![file("c", b"3"), file("a", b"1"), file("b", b"2")],
        &vec![],
        &DirectoryPolicy::Placeholder,
    )
    .unwrap();
    assert_eq!(paths(&out), vec!["a", "b", "c"]);
    let l = listing(&out);
    assert_eq!(l[0].4, b"1".to_vec());
    assert_eq!(l[2].4, b"3".to_vec());
}

#[test]
fn directories_on_the_way_are_made() {
    let out = make_layer_tar(
        &vec![file("a/b/c", b"1"), file("a/b/d", b"2"), file("a/e", b"3"), file("f/g", b"4")],
        &vec![],
        &DirectoryPolicy::Placeholder,
    )
    .unwrap();
    assert_eq!(paths(&out), vec!["a", "a/b", "a/b/c", "a/b/d", "a/e", "f", "f/g"]);
    let l = listing(&out);
    for i in [0usize, 1, 5] {
        assert_eq!((l[i].1, l[i].2, l[i].3), (b'5', 0o777, 0));
        assert_eq!(l[i].4, Vec::<u8>::new());
    }
    assert_eq!((l[2].1, l[2].2, l[2].3), (b'0', 0o644, 5));
}

#[test]
fn a_chosen_directory_is_not_made_again() {
    let out = make_layer_tar(
        &vec![file("a/b/c", b"1"), dir("a"), dir("a/b")],
        &vec![],
        &DirectoryPolicy::Placeholder,
    )
    .unwrap();
    assert_eq!(paths(&out), vec!["a", "a/b", "a/b/c"]);
    let l = listing(&out);
    assert_eq!((l[0].2, l[0].3), (0o644, 5));
    assert_eq!((l[1].2, l[1].3), (0o644, 5));
}

#[test]
fn a_file_opens_no_directory() {
    let out = make_layer_tar(
        &vec![file("a", b"1"), file("a/b", b"2")],
        &vec![],
        &DirectoryPolicy::Placeholder,
    )
    .unwrap();
    assert_eq!(paths(&out), vec!["a", "a", "a/b"]);
    let l = listing(&out);
    assert_eq!(l[0].1, b'0');
    assert_eq!(l[1].1, b'5');
}

#[test]
fn a_directory_is_made_again_after_it_was_left() {
    let out = make_layer_tar(
        &vec![dir("a"), file("a.b", b"1"), file("a/c", b"2")],
        &vec![],
        &DirectoryPolicy::Placeholder,
    )
    .unwrap();
    assert_eq!(paths(&out), vec!["a", "a.b", "a", "a/c"]);
    let l = listing(&out);
    assert_eq!(l[0].2, 0o644);
    assert_eq!(l[2].2, 0o777);
}

#[test]
fn the_directory_at_the_root_needs_nothing_above_it() {
    let out = make_layer_tar(&vec![dir("./"), file("./a", b"1")], &vec![], &DirectoryPolicy::Placeholder)
        .unwrap();
    assert_eq!(listing(&out).len(), 2);
}

#[test]
fn passed_through_entries_come_last_and_as_they_are() {
    let verbatim = vec![
        ArchiveEntry { header: header("z/y/x", b'x', 3, 1), data: b"abc".to_vec() },
        ArchiveEntry { header: header("a", b'0', 0, 1), data: Vec::new() },
    ];
    let out = make_layer_tar(&vec![file("m", b"1")], &verbatim, &DirectoryPolicy::Placeholder)
        .unwrap();
    assert_eq!(paths(&out), vec!["m", "z/y/x", "a"]);
    assert_eq!(&out[1024..1536], &verbatim[0].header.as_bytes()[..]);
    assert_eq!(&out[1536..1539], b"abc");
    assert_eq!(&out[2048..2560], &verbatim[1].header.as_bytes()[..]);
    assert_eq!(out.len(), 2560 + 1024);
}

#[test]
fn directories_are_taken_from_the_shared_layer() {
    let shared = SharedRecords::new(vec![header("d", b'5', 0, 77), header("d/e", b'5', 0, 78)]);
    let out = make_layer_tar(
        &vec![file("d/e/f", b"1")],
        &vec![],
        &DirectoryPolicy::FromCommon(&shared),
    )
    .unwrap();
    assert_eq!(paths(&out), vec!["d", "d/e", "d/e/f"]);
    let l = listing(&out);
    assert_eq!((l[0].1, l[0].2, l[0].3), (b'5', 0o644, 77));
    assert_eq!((l[1].1, l[1].2, l[1].3), (b'5', 0o644, 78));
    assert_eq!(&out[..512], &header("d", b'5', 0, 77).as_bytes()[..]);
}

#[test]
fn a_directory_that_the_shared_layer_does_not_have_cannot_be_made() {
    let shared = SharedRecords::new(vec![header("d", b'5', 0, 77)]);
    assert_eq!(
        make_layer_tar(&vec![file("e/f", b"1")], &vec![], &DirectoryPolicy::FromCommon(&shared))
            .unwrap_err().error,
        Error::Path
    );
    assert_eq!(
        make_layer_tar(&vec![file("d/e/f", b"1")], &vec![], &DirectoryPolicy::FromCommon(&shared))
            .unwrap_err().error,
        Error::Path
    );
}

#[test]
fn a_shared_file_is_no_directory() {
    let shared = SharedRecords::new(vec![header("d", b'0', 0, 77)]);
    assert_eq!(
        make_layer_tar(&vec![file("d/f", b"1")], &vec![], &DirectoryPolicy::FromCommon(&shared))
            .unwrap_err().error,
        Error::Path
    );
    assert!(DirectoryPolicy::FromCommon(&shared).directory(&NormPath::parse(b"d")).is_none());
}

#[test]
fn the_policy_makes_the_record_of_a_directory() {
    let shared = SharedRecords::new(vec![header("d", b'5', 0, 1), header("d", b'5', 0, 2)]);
    let h = DirectoryPolicy::FromCommon(&shared).directory(&NormPath::parse(b"d")).unwrap();
    assert!(h.same(&header("d", b'5', 0, 2)));
    let h = DirectoryPolicy::Placeholder.directory(&NormPath::parse(b"d")).unwrap();
    assert_eq!(&h.as_bytes()[100..108], b"0000777\0");
}

#[test]
fn the_same_path_twice_cannot_be_placed_after_a_directory() {
    let twice = vec![
        LayerEntry { header: header("d", b'5', 0, 1), data: &[] },
        LayerEntry { header: header("d", b'5', 0, 2), data: &[] },
    ];
    assert_eq!(
        make_layer_tar(&twice, &vec![], &DirectoryPolicy::Placeholder).unwrap_err().error,
        Error::Path
    );
    // two files of one name open no directory, so both are placed
    let twice = vec![
        LayerEntry { header: header("f", b'0', 0, 1), data: &[] },
        LayerEntry { header: header("f", b'0', 0, 2), data: &[] },
    ];
    let out = make_layer_tar(&twice, &vec![], &DirectoryPolicy::Placeholder).unwrap();
    let l = listing(&out);
    assert_eq!((l[0].3, l[1].3), (1, 2));
}

#[test]
fn a_record_without_the_marker_is_malformed() {
    let mut raw = *header("f", b'0', 0, 1).as_bytes();
    raw[259] = b'x';
    let bad = vec![LayerEntry { header: HashableHeader::new(raw), data: &[] }];
    assert_eq!(
        make_layer_tar(&bad, &vec![], &DirectoryPolicy::Placeholder).unwrap_err().error,
        Error::Format
    );
}

#[test]
fn a_record_without_a_path_or_from_the_root_cannot_be_placed() {
    let mut raw = *header("f", b'0', 0, 1).as_bytes();
    raw[0] = 0;
    let bad = vec![LayerEntry { header: HashableHeader::new(raw), data: &[] }];
    assert_eq!(
        make_layer_tar(&bad, &vec![], &DirectoryPolicy::Placeholder).unwrap_err().error,
        Error::Path
    );
    raw[0] = b'/';
    raw[1] = b'f';
    let bad = vec![LayerEntry { header: HashableHeader::new(raw), data: &[] }];
    assert_eq!(
        make_layer_tar(&bad, &vec![], &DirectoryPolicy::Placeholder).unwrap_err().error,
        Error::Path
    );
}

#[test]
fn a_directory_that_cannot_be_named_cannot_be_made() {
    let mut raw = *header("d/f", b'0', 0, 1).as_bytes();
    raw[..7].copy_from_slice(b"a/../f\0");
    let bad = vec![LayerEntry { header: HashableHeader::new(raw), data: &[] }];
    assert_eq!(
        make_layer_tar(&bad, &vec![], &DirectoryPolicy::Placeholder).unwrap_err().error,
        Error::Path
    );
}

#[test]
fn the_first_entry_that_fails_decides() {
    let mut raw = *header("b", b'0', 0, 1).as_bytes();
    raw[259] = b'x';
    let unmarked = LayerEntry { header: HashableHeader::new(raw), data: &[] };
    // in the order of paths "a/x" comes first, and its directory cannot be made
    let shared = SharedRecords::new(vec![]);
    assert_eq!(
        make_layer_tar(
            &vec![unmarked, file("a/x", b"1")],
            &vec![],
            &DirectoryPolicy::FromCommon(&shared)
        )
        .unwrap_err().error,
        Error::Path
    );
}

#[test]
fn every_entry_has_the_directories_above_it_before_it() {
    let out = make_layer_tar(
        &vec![
            file("x/y/z/1", b"1"),
            file("x/2", b"2"),
            dir("x/y"),
            file("q/r/s", b"3"),
            file("x/y/z/0", b"0"),
            file("top", b"4"),
        ],
        &vec![],
        &DirectoryPolicy::Placeholder,
    )
    .unwrap();
    let l = listing(&out);
    for (i, e) in l.iter().enumerate() {
        let parts: Vec<&str> = e.0.split('/').collect();
        for n in 1..parts.len() {
            let above = parts[..n].join("/");
            assert!(
                l[..i].iter().any(|d| d.0 == above && d.1 == b'5'),
                "{} has no {} before it",
                e.0,
                above
            );
        }
    }
    let files: Vec<&str> = l.iter().filter(|e| e.1 == b'0').map(|e| &e.0[..]).collect();
    assert_eq!(files, vec!["q/r/s", "top", "x/2", "x/y/z/0", "x/y/z/1"]);
}

#[test]
fn the_entry_that_cannot_be_placed_is_named() {
    let shared = SharedRecords::new(vec![header("a", b'5', 0, 1)]);
    assert_eq!(
        make_layer_tar(
            &vec![file("z/late", b"1"), file("a/fine", b"2"), file("top", b"3")],
            &vec![],
            &DirectoryPolicy::FromCommon(&shared)
        )
        .unwrap_err(),
        Misplaced { entry: 0, error: Error::Path }
    );
    let mut raw = *header("m", b'0', 0, 1).as_bytes();
    raw[257] = 0;
    assert_eq!(
        make_layer_tar(
            &vec![file("z", b"1"), LayerEntry { header: HashableHeader::new(raw), data: &[] }],
            &vec![],
            &DirectoryPolicy::Placeholder
        )
        .unwrap_err(),
        Misplaced { entry: 1, error: Error::Format }
    );
}
