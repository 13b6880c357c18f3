use dayer::archive::ArchiveEntry;
use dayer::header::directory_header;
use dayer::layer::{make_layer_tar, DirectoryPolicy};
use dayer::path::NormPath;
use dayer::HashableHeader;

struct Dice(u64);

impl Dice {
    fn roll(&mut self) -> u64 {
        self.0 = self.0.wrapping_mul(6364136223846793005).wrapping_add(1442695040888963407);
        self.0 >> 33
    }

    fn below(&mut self, n: u64) -> u64 {
        self.roll() % n
    }
}

fn until_nul(field: &[u8]) -> &[u8] {
    match field.iter().position(|b| *b == 0) {
        Some(i) => &field[..i],
        None => field,
    }
}

fn path_by_the_book(h: &[u8; 512]) -> Vec<u8> {
    let name = until_nul(&h[0..100]);
    let prefix = until_nul(&h[345..500]);
    let posix = &h[257..263] == b"ustar\0" && &h[263..265] == b"00";
    if posix && !prefix.is_empty() {
        let mut out = prefix.to_vec();
        out.push(b'/');
        out.extend_from_slice(name);
        out
    } else {
        name.to_vec()
    }
}

fn octal_field(v: u64, len: usize) -> Vec<u8> {
    let mut out = vec![0u8; len];
    for k in 0..len - 1 {
        let shift = 3 * (len - 2 - k) as u32;
        let digit = if shift >= 64 { 0 } else { (v >> shift) & 7 };
        out[k] = b'0' + digit as u8;
    }
    out
}

fn checksum_by_the_book(h: &[u8; 512]) -> [u8; 512] {
    let sum: u64 = h[..148].iter().chain(h[156..].iter()).map(|b| *b as u64).sum::<u64>() + 8 * 32;
    let mut out = *h;
    out[148..156].copy_from_slice(&octal_field(sum, 8));
    out
}

fn some_record(dice: &mut Dice) -> [u8; 512] {
    let mut h = [0u8; 512];
    let style = dice.below(4);
    for b in h.iter_mut() {
        *b = match style {
            0 => 0,
            1 => dice.below(256) as u8,
            2 => b'a' + dice.below(3) as u8,
            _ => if dice.below(8) == 0 { 0 } else { b'/' + dice.below(60) as u8 },
        };
    }
    match dice.below(4) {
        0 => h[257..265].copy_from_slice(b"ustar\x0000"),
        1 => h[257..265].copy_from_slice(b"ustar  \0"),
        2 => h[257..265].copy_from_slice(b"ustar\x0001"),
        _ => {}
    }
    if dice.below(3) == 0 {
        h[345] = 0;
    }
    if dice.below(5) == 0 {
        h[dice.below(100) as usize] = b'\\';
    }
    h
}

#[test]
fn the_path_is_the_one_by_the_book() {
    let mut dice = Dice(1);
    for _ in 0..3000 {
        let raw = some_record(&mut dice);
        assert_eq!(HashableHeader::new(raw).path_bytes(), path_by_the_book(&raw));
    }
}

#[test]
fn the_checksum_is_the_one_by_the_book() {
    let mut dice = Dice(2);
    for _ in 0..3000 {
        let raw = some_record(&mut dice);
        assert_eq!(&HashableHeader::new(raw).encode()[..], &checksum_by_the_book(&raw)[..]);
    }
    let all = [0xffu8; 512];
    assert_eq!(&HashableHeader::new(all).encode()[..], &checksum_by_the_book(&all)[..]);
    assert_eq!(&HashableHeader::new(all).encode()[148..156], b"0373410\0");
}

#[test]
fn the_fields_of_a_directory_are_the_ones_by_the_book() {
    let mut dice = Dice(3);
    for _ in 0..500 {
        let mode = dice.roll() as u32 ^ ((dice.roll() as u32) << 16);
        let uid = dice.below(0o10000000);
        let gid = dice.below(0o10000000);
        let mtime = dice.roll() % 0o100000000000;
        let h = directory_header(&NormPath::parse(b"some/dir"), mode, uid, gid, mtime).unwrap();
        let mut expected = [0u8; 512];
        expected[..8].copy_from_slice(b"some/dir");
        expected[100..108].copy_from_slice(&octal_field(mode as u64, 8));
        expected[108..116].copy_from_slice(&octal_field(uid, 8));
        expected[116..124].copy_from_slice(&octal_field(gid, 8));
        expected[124..136].copy_from_slice(&octal_field(0, 12));
        expected[136..148].copy_from_slice(&octal_field(mtime, 12));
        expected[156] = b'5';
        expected[257..265].copy_from_slice(b"ustar\x0000");
        assert_eq!(&h.as_bytes()[..], &checksum_by_the_book(&expected)[..]);
    }
}

#[test]
fn the_archive_is_the_one_by_the_book() {
    let mut dice = Dice(4);
    for _ in 0..50 {
        let mut entries = Vec::new();
        let mut expected = Vec::new();
        for _ in 0..dice.below(6) {
            let raw = some_record(&mut dice);
            let data: Vec<u8> = (0..dice.below(1600)).map(|_| dice.below(256) as u8).collect();
            expected.extend_from_slice(&raw);
            expected.extend_from_slice(&data);
            while expected.len() % 512 != 0 {
                expected.push(0);
            }
            entries.push(ArchiveEntry { header: HashableHeader::new(raw), data });
        }
        expected.extend_from_slice(&[0u8; 1024]);
        assert_eq!(
            make_layer_tar(&vec![], &entries, &DirectoryPolicy::Placeholder).unwrap(),
            expected
        );
    }
}
