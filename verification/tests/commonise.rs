use dayer::{commonise_tars, Error, Failure};

fn header(path: &str, kind: u8, size: u64, mtime: u64) -> tar::Header {
    let mut h = tar::Header::new_ustar();
    h.set_path(path).unwrap();
    h.set_size(size);
    h.set_mode(0o644);
    h.set_uid(1000);
    h.set_gid(1000);
    h.set_mtime(mtime);
    h.set_entry_type(tar::EntryType::new(kind));
    h.set_cksum();
    h
}

fn file(path: &str, content: &str) -> (tar::Header, Vec<u8>) {
    (header(path, b'0', content.len() as u64, 1_500_000_000), content.as_bytes().to_vec())
}

fn dir(path: &str) -> (tar::Header, Vec<u8>) {
    (header(path, b'5', 0, 1_500_000_000), Vec::new())
}

fn archive(entries: &[(tar::Header, Vec<u8>)]) -> Vec<u8> {
    let mut b = tar::Builder::new(Vec::new());
    for (h, data) in entries {
        b.append(h, &data[..]).unwrap();
    }
    b.into_inner().unwrap()
}

fn paths(archive: &[u8]) -> Vec<String> {
    let mut ar = tar::Archive::new(archive);
    let mut out = Vec::new();
    for e in ar.entries().unwrap() {
        let e = e.unwrap();
        out.push(e.path().unwrap().to_str().unwrap().to_string());
    }
    out
}

fn contents(archive: &[u8]) -> Vec<(String, Vec<u8>)> {
    let mut ar = tar::Archive::new(archive);
    let mut out = Vec::new();
    for e in ar.entries().unwrap() {
        let mut e = e.unwrap();
        let mut data = Vec::new();
        std::io::Read::read_to_end(&mut e, &mut data).unwrap();
        out.push((e.path().unwrap().to_str().unwrap().to_string(), data));
    }
    out
}

#[test]
fn empty_tars() {
    let in0 = archive(&[]);
    let in1 = archive(&[]);
    let layers = commonise_tars(&[in0, in1]).unwrap();
    assert_eq!(paths(&layers.common), Vec::<String>::new());
    assert_eq!(layers.individual.len(), 2);
    assert_eq!(paths(&layers.individual[0]), Vec::<String>::new());
    assert_eq!(paths(&layers.individual[1]), Vec::<String>::new());
    assert_eq!(layers.common, vec![0u8; 1024]);
}

#[test]
fn simple_tars() {
    let in1 = archive(&[file("common", "commoncontent"), file("0", "0content")]);
    let in2 = archive(&[file("common", "commoncontent"), file("1", "1content")]);
    let layers = commonise_tars(&[in1, in2]).unwrap();
    assert_eq!(paths(&layers.common), vec!["common"]);
    assert_eq!(paths(&layers.individual[0]), vec!["0"]);
    assert_eq!(paths(&layers.individual[1]), vec!["1"]);
    assert_eq!(
        contents(&layers.common),
        vec![("common".to_string(), b"commoncontent".to_vec())]
    );
    assert_eq!(
        contents(&layers.individual[1]),
        vec![("1".to_string(), b"1content".to_vec())]
    );
}

#[test]
fn leading_dirs() {
    let in1 = archive(&[file("common", "commoncontent"), dir("dir"), file("dir/0", "0content")]);
    let in2 = archive(&[file("common", "commoncontent"), dir("dir"), file("dir/1", "1content")]);
    let layers = commonise_tars(&[in1, in2]).unwrap();
    assert_eq!(paths(&layers.common), vec!["common", "dir"]);
    assert_eq!(paths(&layers.individual[0]), vec!["dir", "dir/0"]);
    assert_eq!(paths(&layers.individual[1]), vec!["dir", "dir/1"]);
}

#[test]
fn unreadable_archive_is_reported_with_its_number() {
    let good = archive(&[file("a", "x")]);
    let mut bad = archive(&[file("a", "x")]);
    bad[0] = b'b';
    assert_eq!(
        commonise_tars(&[good, bad]).unwrap_err(),
        Failure::Input { archive: 1, entry: None, error: Error::Format }
    );
}

fn raw_entries(archive: &[u8]) -> Vec<(Vec<u8>, Vec<u8>)> {
    let mut ar = tar::Archive::new(archive);
    let mut out = Vec::new();
    for e in ar.entries().unwrap().raw(true) {
        let mut e = e.unwrap();
        let mut data = Vec::new();
        std::io::Read::read_to_end(&mut e, &mut data).unwrap();
        out.push((e.header().as_bytes().to_vec(), data));
    }
    out
}

fn with_mtime(path: &str, content: &str, mtime: u64) -> (tar::Header, Vec<u8>) {
    (header(path, b'0', content.len() as u64, mtime), content.as_bytes().to_vec())
}

fn extended(records: &str) -> (tar::Header, Vec<u8>) {
    (header("PaxHeader", b'x', records.len() as u64, 0), records.as_bytes().to_vec())
}

#[test]
fn no_archives_give_an_empty_shared_layer() {
    let layers = commonise_tars(&[]).unwrap();
    assert_eq!(layers.common, vec![0u8; 1024]);
    assert_eq!(layers.individual.len(), 0);
    assert_eq!(layers.report.candidates, 0);
    assert_eq!(layers.report.shared, 0);
}

#[test]
fn one_archive_shares_everything_with_itself() {
    let a = archive(&[file("b", "2"), dir("d"), file("d/a", "1")]);
    let layers = commonise_tars(&[a]).unwrap();
    assert_eq!(paths(&layers.common), vec!["b", "d", "d/a"]);
    assert_eq!(paths(&layers.individual[0]), Vec::<String>::new());
}

#[test]
fn a_record_that_differs_only_in_its_time_is_not_shared() {
    let in0 = archive(&[with_mtime("f", "same", 1), file("g", "same")]);
    let in1 = archive(&[with_mtime("f", "same", 2), file("g", "same")]);
    let layers = commonise_tars(&[in0, in1]).unwrap();
    assert_eq!(paths(&layers.common), vec!["g"]);
    assert_eq!(paths(&layers.individual[0]), vec!["f"]);
    assert_eq!(paths(&layers.individual[1]), vec!["f"]);
    assert_eq!(layers.report.candidates, 1);
}

#[test]
fn a_record_that_differs_in_owner_or_permissions_is_not_shared() {
    let base = file("f", "same");
    for change in 0..3 {
        let mut other = header("f", b'0', 4, 1_500_000_000);
        match change {
            0 => other.set_uid(1001),
            1 => other.set_gid(1001),
            _ => other.set_mode(0o600),
        }
        other.set_cksum();
        let in0 = archive(&[base.clone()]);
        let in1 = archive(&[(other, b"same".to_vec())]);
        let layers = commonise_tars(&[in0, in1]).unwrap();
        assert_eq!(paths(&layers.common), Vec::<String>::new());
        assert_eq!(paths(&layers.individual[0]), vec!["f"]);
        assert_eq!(paths(&layers.individual[1]), vec!["f"]);
    }
}

#[test]
fn a_file_whose_content_differs_in_one_byte_is_not_shared() {
    let in0 = archive(&[file("f", "content-a"), file("g", "same")]);
    let in1 = archive(&[file("f", "content-b"), file("g", "same")]);
    let layers = commonise_tars(&[in0, in1]).unwrap();
    assert_eq!(paths(&layers.common), vec!["g"]);
    assert_eq!(
        contents(&layers.individual[0]),
        vec![("f".to_string(), b"content-a".to_vec())]
    );
    assert_eq!(
        contents(&layers.individual[1]),
        vec![("f".to_string(), b"content-b".to_vec())]
    );
    assert_eq!(layers.report.candidates, 2);
    assert_eq!(layers.report.shared, 1);
}

#[test]
fn a_file_that_one_archive_lacks_is_not_shared() {
    let in0 = archive(&[file("f", "1"), file("g", "2")]);
    let in1 = archive(&[file("f", "1"), file("g", "2")]);
    let in2 = archive(&[file("g", "2")]);
    let layers = commonise_tars(&[in0, in1, in2]).unwrap();
    assert_eq!(paths(&layers.common), vec!["g"]);
    assert_eq!(paths(&layers.individual[0]), vec!["f"]);
    assert_eq!(paths(&layers.individual[1]), vec!["f"]);
    assert_eq!(paths(&layers.individual[2]), Vec::<String>::new());
}

#[test]
fn the_report_counts_candidates_and_shared_records() {
    let big = "x".repeat(1000);
    let in0 = archive(&[file("a", &big), file("b", "12345"), file("c", "left")]);
    let in1 = archive(&[file("a", &big), file("b", "54321"), file("d", "right")]);
    let layers = commonise_tars(&[in0, in1]).unwrap();
    assert_eq!(layers.report.candidates, 2);
    assert_eq!(layers.report.candidate_bytes, 1005);
    assert_eq!(layers.report.shared, 1);
    assert_eq!(layers.report.shared_bytes, 1000);
}

#[test]
fn two_runs_give_the_same_bytes() {
    let in0 = archive(&[file("common", "c"), dir("d"), file("d/0", "0"), file("x/y/z", "deep")]);
    let in1 = archive(&[file("common", "c"), dir("d"), file("d/1", "1"), file("x/y/z", "deep")]);
    let first = commonise_tars(&[in0.clone(), in1.clone()]).unwrap();
    let second = commonise_tars(&[in0, in1]).unwrap();
    assert_eq!(first.common, second.common);
    assert_eq!(first.individual, second.individual);
    assert_eq!(first.report, second.report);
}

#[test]
fn every_entry_is_written_to_exactly_one_layer() {
    let inputs = vec![
        archive(&[
            file("common", "c"),
            dir("d"),
            file("d/0", "0"),
            file("d/both", "same"),
            extended("11 uid=100\n"),
            file("special", "s"),
        ]),
        archive(&[
            file("common", "c"),
            dir("d"),
            file("d/1", "1"),
            file("d/both", "same"),
            with_mtime("late", "l", 9),
        ]),
    ];
    let layers = commonise_tars(&inputs).unwrap();
    let common = raw_entries(&layers.common);
    for (i, input) in inputs.iter().enumerate() {
        let own = raw_entries(&layers.individual[i]);
        for e in raw_entries(input) {
            let in_common = common.iter().filter(|c| **c == e).count();
            let in_own = own.iter().filter(|c| **c == e).count();
            // a directory of the shared layer is written again, as it is,
            // above what is left below it
            let path = String::from_utf8_lossy(tar::Header::from_byte_slice(&e.0).path_bytes().as_ref())
                .to_string();
            if path == "d" {
                assert_eq!((in_common, in_own), (1, 1));
            } else {
                assert_eq!(in_common + in_own, 1, "{}", path);
            }
        }
    }
    assert_eq!(paths(&layers.common), vec!["common", "d", "d/both"]);
    let written: Vec<String> = raw_entries(&layers.individual[0])
        .iter()
        .map(|e| {
            String::from_utf8(tar::Header::from_byte_slice(&e.0).path_bytes().to_vec()).unwrap()
        })
        .collect();
    assert_eq!(written, vec!["d", "d/0", "PaxHeader", "special"]);
    assert_eq!(paths(&layers.individual[1]), vec!["d", "d/1", "late"]);
}

#[test]
fn directories_of_the_shared_layer_are_placeholders_where_none_is_shared() {
    let in0 = archive(&[(header("a", b'5', 0, 1), vec![]), dir("a/b"), file("a/b/f", "same")]);
    let in1 = archive(&[(header("a", b'5', 0, 2), vec![]), dir("a/b"), file("a/b/f", "same")]);
    let layers = commonise_tars(&[in0, in1]).unwrap();
    assert_eq!(paths(&layers.common), vec!["a", "a/b", "a/b/f"]);
    let common = raw_entries(&layers.common);
    let placeholder = tar::Header::from_byte_slice(&common[0].0);
    assert_eq!(placeholder.mode().unwrap(), 0o777);
    assert_eq!(placeholder.mtime().unwrap(), 0);
    assert_eq!(placeholder.uid().unwrap(), 0);
    assert_eq!(placeholder.entry_type(), tar::EntryType::Directory);
    let kept = tar::Header::from_byte_slice(&common[1].0);
    assert_eq!(kept.mtime().unwrap(), 1_500_000_000);
    assert_eq!(paths(&layers.individual[0]), vec!["a"]);
    assert_eq!(paths(&layers.individual[1]), vec!["a"]);
    let own = raw_entries(&layers.individual[1]);
    assert_eq!(tar::Header::from_byte_slice(&own[0].0).mtime().unwrap(), 2);
}

#[test]
fn a_layer_fails_where_a_directory_above_its_entry_is_in_no_layer() {
    let in0 = archive(&[file("d/only0", "0")]);
    let in1 = archive(&[file("e", "1")]);
    match commonise_tars(&[in0, in1]).unwrap_err() {
        Failure::Individual { archive: 0, record, error: Error::Path } => {
            assert_eq!(record.path_bytes(), b"d/only0".to_vec())
        }
        other => panic!("{:?}", other),
    }
}

#[test]
fn the_shared_layer_fails_where_a_directory_comes_twice() {
    let twice = [(header("d", b'5', 0, 1), vec![]), (header("d", b'5', 0, 2), vec![])];
    let in0 = archive(&twice);
    let in1 = archive(&twice);
    match commonise_tars(&[in0, in1]).unwrap_err() {
        Failure::Common { record, error: Error::Path } => {
            assert_eq!(&record.as_bytes()[..], &twice[1].0.as_bytes()[..])
        }
        other => panic!("{:?}", other),
    }
}

#[test]
fn the_first_archive_that_cannot_be_read_is_reported() {
    let good = archive(&[file("a", "x")]);
    let global = archive(&[(header("g", b'g', 0, 0), vec![])]);
    let dangling = archive(&[extended("11 uid=100\n")]);
    assert_eq!(
        commonise_tars(&[good.clone(), dangling.clone(), global.clone()]).unwrap_err(),
        Failure::Input { archive: 1, entry: Some(0), error: Error::Sequence }
    );
    assert_eq!(
        commonise_tars(&[global, dangling, good]).unwrap_err(),
        Failure::Input { archive: 0, entry: Some(0), error: Error::Format }
    );
}

#[test]
fn entries_with_extended_headers_stay_in_the_layer_of_their_archive() {
    let in0 = archive(&[extended("11 uid=100\n"), file("f", "same"), file("g", "same")]);
    let in1 = archive(&[extended("11 uid=100\n"), file("f", "same"), file("g", "same")]);
    let layers = commonise_tars(&[in0, in1]).unwrap();
    assert_eq!(paths(&layers.common), vec!["g"]);
    for own in &layers.individual {
        let entries = raw_entries(own);
        assert_eq!(entries.len(), 2);
        assert_eq!(entries[0].1, b"11 uid=100\n".to_vec());
        assert_eq!(entries[1].1, b"same".to_vec());
    }
}

#[test]
fn a_later_entry_with_the_same_record_gives_the_content() {
    let in0 = archive(&[file("f", "old!"), file("f", "new!")]);
    let in1 = archive(&[file("f", "new!")]);
    let layers = commonise_tars(&[in0, in1]).unwrap();
    assert_eq!(contents(&layers.common), vec![("f".to_string(), b"new!".to_vec())]);
    assert_eq!(paths(&layers.individual[0]), Vec::<String>::new());
}

#[test]
fn sorted_entries_can_be_handed_in_directly() {
    let mut inputs = Vec::new();
    for own in ["0", "1", "2"] {
        let bytes = archive(&[file("common", "c"), file(own, own)]);
        inputs.push(dayer::archive::get_archive_entries(&bytes).unwrap());
    }
    let layers = dayer::commonise_entries(&inputs).unwrap();
    assert_eq!(paths(&layers.common), vec!["common"]);
    assert_eq!(paths(&layers.individual[2]), vec!["2"]);
    assert_eq!(layers.individual.len(), 3);
}

#[test]
fn faults_are_described() {
    assert_eq!(Error::Format.describe(), "malformed or unsupported archive data");
    assert_eq!(Error::Sequence.describe(), "extended header without the entry it describes");
    assert_eq!(
        Error::Path.describe(),
        "entry cannot be placed in the directory tree of the layer"
    );
}

#[test]
fn declared_sizes_are_added_up_and_capped() {
    let sized = |n: u64| dayer::HashableHeader::new(*header("f", b'0', n, 0).as_bytes());
    assert_eq!(dayer::commonise::declared_size(&vec![]), 0);
    assert_eq!(dayer::commonise::declared_size(&vec![sized(5), sized(0), sized(1000)]), 1005);
    let mut unreadable = *header("f", b'0', 7, 0).as_bytes();
    unreadable[124] = b'?';
    assert_eq!(
        dayer::commonise::declared_size(&vec![sized(5), dayer::HashableHeader::new(unreadable)]),
        5
    );
    let huge = sized(u64::MAX - 1);
    assert_eq!(huge.size(), Some(u64::MAX - 1));
    assert_eq!(dayer::commonise::declared_size(&vec![huge, sized(1)]), u64::MAX);
    assert_eq!(dayer::commonise::declared_size(&vec![huge, sized(2), sized(3)]), u64::MAX);
}
