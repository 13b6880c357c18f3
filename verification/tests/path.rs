use dayer::path::{bytes_before_or_equal, bytes_equal, copy_range, position, NormPath};

fn parts(p: &NormPath) -> Vec<Vec<u8>> {
    let mut out = Vec::new();
    for i in 0..p.len() {
        out.push(p.part(i).clone());
    }
    out
}

#[test]
fn position_finds_the_first() {
    assert_eq!(position(b"a=b=c", b'='), 1);
    assert_eq!(position(b"abc", b'='), 3);
    assert_eq!(position(b"", b'='), 0);
    assert_eq!(position(b"=", b'='), 0);
}

#[test]
fn parse_cuts_at_separators() {
    assert_eq!(parts(&NormPath::parse(b"a/bc/d")), vec![b"a".to_vec(), b"bc".to_vec(), b"d".to_vec()]);
    assert_eq!(parts(&NormPath::parse(b"abc")), vec![b"abc".to_vec()]);
}

#[test]
fn parse_drops_empty_components_and_dots() {
    assert_eq!(parts(&NormPath::parse(b"a//b/")), vec![b"a".to_vec(), b"b".to_vec()]);
    assert_eq!(parts(&NormPath::parse(b"./a/./b/.")), vec![b"a".to_vec(), b"b".to_vec()]);
    assert_eq!(parts(&NormPath::parse(b"/a")), vec![b"a".to_vec()]);
    assert_eq!(parts(&NormPath::parse(b"")), Vec::<Vec<u8>>::new());
    assert_eq!(parts(&NormPath::parse(b"./")), Vec::<Vec<u8>>::new());
    assert_eq!(parts(&NormPath::parse(b"///")), Vec::<Vec<u8>>::new());
}

#[test]
fn parse_keeps_other_names_with_dots() {
    assert_eq!(
        parts(&NormPath::parse(b"../.a/b./..")),
        vec![b"..".to_vec(), b".a".to_vec(), b"b.".to_vec(), b"..".to_vec()]
    );
}

#[test]
fn root_has_no_components() {
    assert_eq!(NormPath::root().len(), 0);
    assert_eq!(NormPath::root().to_bytes(), Vec::<u8>::new());
}

#[test]
fn to_bytes_joins_with_one_separator() {
    assert_eq!(NormPath::parse(b"a//b/./c/").to_bytes(), b"a/b/c".to_vec());
    assert_eq!(NormPath::parse(b"a").to_bytes(), b"a".to_vec());
}

#[test]
fn same_compares_components() {
    assert!(NormPath::parse(b"a/b").same(&NormPath::parse(b"./a//b/")));
    assert!(!NormPath::parse(b"a/b").same(&NormPath::parse(b"a/c")));
    assert!(!NormPath::parse(b"a/b").same(&NormPath::parse(b"a")));
    assert!(!NormPath::parse(b"a/b").same(&NormPath::parse(b"ab")));
    assert!(NormPath::root().same(&NormPath::parse(b".")));
}

#[test]
fn prefix_means_whole_components() {
    assert!(NormPath::parse(b"a").is_prefix_of(&NormPath::parse(b"a/b")));
    assert!(NormPath::parse(b"a/b").is_prefix_of(&NormPath::parse(b"a/b")));
    assert!(NormPath::root().is_prefix_of(&NormPath::parse(b"a/b")));
    assert!(!NormPath::parse(b"a").is_prefix_of(&NormPath::parse(b"ab/c")));
    assert!(!NormPath::parse(b"a/b/c").is_prefix_of(&NormPath::parse(b"a/b")));
    assert!(!NormPath::parse(b"b").is_prefix_of(&NormPath::parse(b"a/b")));
}

#[test]
fn shared_with_counts_leading_components() {
    assert_eq!(NormPath::parse(b"a/b/c").shared_with(&NormPath::parse(b"a/b/d")), 2);
    assert_eq!(NormPath::parse(b"a/b").shared_with(&NormPath::parse(b"a/b/d")), 2);
    assert_eq!(NormPath::parse(b"x").shared_with(&NormPath::parse(b"a/x")), 0);
    assert_eq!(NormPath::root().shared_with(&NormPath::parse(b"a")), 0);
}

#[test]
fn push_truncate_and_prefix_change_the_end() {
    let mut p = NormPath::parse(b"a/b/c");
    p.truncate(1);
    assert_eq!(p.to_bytes(), b"a".to_vec());
    p.push(b"z".to_vec());
    assert_eq!(p.to_bytes(), b"a/z".to_vec());
    assert_eq!(NormPath::parse(b"a/b/c").prefix(2).to_bytes(), b"a/b".to_vec());
    assert_eq!(NormPath::parse(b"a/b/c").prefix(0).len(), 0);
}

#[test]
fn bytes_are_ordered_like_words() {
    assert!(bytes_before_or_equal(b"", b""));
    assert!(bytes_before_or_equal(b"", b"a"));
    assert!(!bytes_before_or_equal(b"a", b""));
    assert!(bytes_before_or_equal(b"a", b"a"));
    assert!(bytes_before_or_equal(b"a", b"ab"));
    assert!(!bytes_before_or_equal(b"ab", b"a"));
    assert!(bytes_before_or_equal(b"a.b", b"a/c"));
    assert!(!bytes_before_or_equal(b"b", b"ab"));
    assert!(bytes_before_or_equal(&[0x7f], &[0x80]));
}

#[test]
fn bytes_equal_compares_length_and_bytes() {
    assert!(bytes_equal(b"abc", b"abc"));
    assert!(!bytes_equal(b"abc", b"abd"));
    assert!(!bytes_equal(b"abc", b"ab"));
    assert!(bytes_equal(b"", b""));
}

#[test]
fn copy_range_copies_the_part() {
    assert_eq!(copy_range(b"abcdef", 2, 5), b"cde".to_vec());
    assert_eq!(copy_range(b"abcdef", 3, 3), Vec::<u8>::new());
    assert_eq!(copy_range(b"abcdef", 0, 6), b"abcdef".to_vec());
}
