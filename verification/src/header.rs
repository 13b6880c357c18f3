//! The 512-byte header record of an archive entry.
//!
//! A record is kept as its raw bytes, and two records are the same only if
//! all 512 bytes are. The fields that the engine reads are the path, the type
//! flag, the format marker and the size; those whose encoding is involved are
//! read and written by the `tar` crate.

use crate::error::Error;
use crate::path::{index_of, split, NormPath, SEPARATOR};
use vstd::prelude::*;
use vstd::std_specs::cmp::PartialEqSpecImpl;
use vstd::utf8::{decode_utf8, valid_utf8};

verus! {

/// Length of a header record.
pub const HEADER_LEN: usize = 512;

/// Where the file name stands.
pub const NAME_AT: usize = 0;

/// How long the file name may be.
pub const NAME_LEN: usize = 100;

/// Where the permission bits stand.
pub const MODE_AT: usize = 100;

/// Where the owner's id stands.
pub const UID_AT: usize = 108;

/// Where the group's id stands.
pub const GID_AT: usize = 116;

/// Where the size stands.
pub const SIZE_AT: usize = 124;

/// Where the modification time stands.
pub const MTIME_AT: usize = 136;

/// Where the checksum stands.
pub const CKSUM_AT: usize = 148;

/// How long the checksum field is.
pub const CKSUM_LEN: usize = 8;

/// Where the type flag stands.
pub const TYPE_AT: usize = 156;

/// Where the format marker stands.
pub const MAGIC_AT: usize = 257;

/// Where the format's version stands.
pub const VERSION_AT: usize = 263;

/// Where the prefix of a long name stands.
pub const PREFIX_AT: usize = 345;

/// Where the prefix of a long name ends.
pub const PREFIX_END: usize = 500;

/// Type flag of a directory.
pub const TYPE_DIRECTORY: u8 = 0x35;

/// Type flag of an extended header that describes the next entry.
pub const TYPE_EXTENDED: u8 = 0x78;

/// Type flag of an extended header that describes all following entries.
pub const TYPE_GLOBAL: u8 = 0x67;

/// The permission bits given to a directory that stands in for the real one.
pub const PLACEHOLDER_MODE: u32 = 0o777;

/// The part of a field before its first NUL byte.
pub open spec fn until_nul(s: Seq<u8>) -> Seq<u8> {
    s.take(index_of(s, 0u8))
}

/// The five bytes `ustar` that open the format marker.
pub open spec fn magic_bytes() -> Seq<u8> {
    seq![0x75u8, 0x73u8, 0x74u8, 0x61u8, 0x72u8]
}

/// Whether the record carries the format marker.
pub open spec fn has_magic(h: Seq<u8>) -> bool {
    h.len() == HEADER_LEN && h.subrange(MAGIC_AT as int, MAGIC_AT + 5) == magic_bytes()
}

/// Whether the record is of the POSIX format: the marker is followed by a NUL
/// byte and the version `00`.
pub open spec fn is_ustar(h: Seq<u8>) -> bool {
    has_magic(h) && h[MAGIC_AT + 5] == 0u8 && h[VERSION_AT as int] == 0x30u8 && h[VERSION_AT
        + 1] == 0x30u8
}

/// The path that a record names. In the POSIX format a prefix that is not
/// empty comes first, with a separator after it.
pub open spec fn header_path(h: Seq<u8>) -> Seq<u8> {
    let name = until_nul(h.subrange(NAME_AT as int, NAME_AT + NAME_LEN));
    let prefix = until_nul(h.subrange(PREFIX_AT as int, PREFIX_END as int));
    if is_ustar(h) && prefix.len() > 0 {
        prefix + seq![SEPARATOR] + name
    } else {
        name
    }
}

/// The type flag of a record.
pub open spec fn type_flag(h: Seq<u8>) -> u8 {
    h[TYPE_AT as int]
}

/// Whether the record describes a directory.
pub open spec fn is_directory(h: Seq<u8>) -> bool {
    type_flag(h) == TYPE_DIRECTORY
}

/// Whether the type flag is one of the letters `A` to `Z`, which vendors use
/// for extensions of their own.
pub open spec fn is_vendor_type(flag: u8) -> bool {
    0x41u8 <= flag <= 0x5au8
}

/// The sum of the bytes of `s`.
pub open spec fn byte_sum(s: Seq<u8>) -> nat
    decreases s.len(),
{
    if s.len() == 0 {
        0
    } else {
        byte_sum(s.drop_last()) + s.last() as nat
    }
}

/// The checksum of a record: the sum of its bytes, with the checksum field
/// itself counted as eight spaces.
pub open spec fn checksum_of(h: Seq<u8>) -> nat {
    byte_sum(h.take(CKSUM_AT as int)) + 8 * 0x20 + byte_sum(h.skip(CKSUM_AT + CKSUM_LEN))
}

/// The power `8^e`.
pub open spec fn pow8(e: nat) -> nat
    decreases e,
{
    if e == 0 {
        1
    } else {
        8 * pow8((e - 1) as nat)
    }
}

/// A number written into a field of `len` bytes: octal digits, with zeros in
/// front, and a NUL byte at the end. Digits that do not fit are left out at the
/// front.
pub open spec fn octal_field(v: nat, len: nat) -> Seq<u8> {
    Seq::new(
        len,
        |k: int|
            if k == len - 1 {
                0u8
            } else {
                (0x30 + (v / pow8((len - 2 - k) as nat)) % 8) as u8
            },
    )
}

/// The record `h` with `field` written over it from position `at` on.
pub open spec fn with_field(h: Seq<u8>, at: int, field: Seq<u8>) -> Seq<u8> {
    Seq::new(
        h.len(),
        |i: int|
            if at <= i < at + field.len() {
                field[i - at]
            } else {
                h[i]
            },
    )
}

/// The record `h` with its checksum computed anew.
pub open spec fn with_checksum(h: Seq<u8>) -> Seq<u8> {
    with_field(h, CKSUM_AT as int, octal_field(checksum_of(h), CKSUM_LEN as nat))
}

/// An empty record of the POSIX format: zeros but for the marker, the version
/// and a modification time of zero.
pub open spec fn blank_ustar() -> Seq<u8> {
    with_field(
        with_field(
            with_field(Seq::new(HEADER_LEN as nat, |i: int| 0u8), MTIME_AT as int, octal_field(0, 12)),
            MAGIC_AT as int,
            magic_bytes().push(0u8),
        ),
        VERSION_AT as int,
        seq![0x30u8, 0x30u8],
    )
}

/// The size that the `tar` crate reads from a record (`Header::size`), or
/// `None` where it finds the field malformed.
pub uninterp spec fn header_size(h: Seq<u8>) -> Option<u64>;

/// The checksum that the `tar` crate reads from a record (`Header::cksum`), or
/// `None` where it finds the field malformed.
pub uninterp spec fn header_cksum(h: Seq<u8>) -> Option<u32>;

/// The record that the `tar` crate makes of `h` when it is told to name
/// `path` (`Header::set_path`), or `None` where it refuses the path.
pub uninterp spec fn header_with_path(h: Seq<u8>, path: Seq<char>) -> Option<Seq<u8>>;

/// Whether a record can be taken in: it carries the format marker, and its
/// size and its checksum can be read.
pub open spec fn well_formed(h: Seq<u8>) -> bool {
    has_magic(h) && header_size(h) is Some && header_cksum(h) is Some
}

/// A header record, compared and hashed by its raw bytes.
#[derive(Clone, Copy, Debug, Hash)]
pub struct HashableHeader {
    pub(crate) bytes: [u8; 512],
}

impl View for HashableHeader {
    type V = Seq<u8>;

    closed spec fn view(&self) -> Seq<u8> {
        self.bytes@
    }
}

impl PartialEq for HashableHeader {
    fn eq(&self, other: &HashableHeader) -> (r: bool) {
        self.same(other)
    }
}

impl PartialEqSpecImpl for HashableHeader {
    open spec fn obeys_eq_spec() -> bool {
        true
    }

    open spec fn eq_spec(&self, other: &HashableHeader) -> bool {
        self@ == other@
    }
}

impl Eq for HashableHeader {

}

impl HashableHeader {
    /// Takes 512 bytes as a record, whatever they hold.
    pub fn new(bytes: [u8; 512]) -> (r: HashableHeader)
        ensures
            r@ == bytes@,
    {
        HashableHeader { bytes }
    }

    /// Takes a record in. It must have 512 bytes and be well formed.
    pub fn decode(raw: &[u8]) -> (r: Result<HashableHeader, Error>)
        ensures
            r is Ok <==> raw@.len() == HEADER_LEN && well_formed(raw@),
            r matches Ok(h) ==> h@ == raw@,
            r matches Err(e) ==> e == Error::Format,
    {
        if raw.len() != HEADER_LEN {
            return Err(Error::Format);
        }
        let mut bytes = [0u8; 512];
        let mut i: usize = 0;
        while i < HEADER_LEN
            invariant
                i <= HEADER_LEN,
                raw@.len() == HEADER_LEN,
                forall|j: int| 0 <= j < i ==> bytes@[j] == raw@[j],
            decreases HEADER_LEN - i,
        {
            bytes[i] = raw[i];
            i += 1;
        }
        let h = HashableHeader { bytes };
        assert(h@ =~= raw@);
        if h.is_well_formed() {
            Ok(h)
        } else {
            Err(Error::Format)
        }
    }

    /// Whether the record carries the format marker and its size and its
    /// checksum can be read.
    pub fn is_well_formed(&self) -> (r: bool)
        ensures
            r == well_formed(self@),
    {
        self.has_magic() && tar_size(self).is_some() && tar_cksum(self).is_some()
    }

    /// The record with its checksum computed anew.
    pub fn encode(&self) -> (r: [u8; 512])
        ensures
            r@ == with_checksum(self@),
    {
        let mut h = *self;
        tar_set_cksum(&mut h);
        h.bytes
    }

    /// The raw bytes.
    pub fn as_bytes(&self) -> (r: &[u8; 512])
        ensures
            r@ == self@,
    {
        &self.bytes
    }

    /// Whether both records hold the same 512 bytes.
    pub fn same(&self, other: &HashableHeader) -> (r: bool)
        ensures
            r == (self@ == other@),
    {
        let mut i: usize = 0;
        while i < HEADER_LEN
            invariant
                i <= HEADER_LEN,
                forall|j: int| 0 <= j < i ==> self.bytes@[j] == other.bytes@[j],
            decreases HEADER_LEN - i,
        {
            if self.bytes[i] != other.bytes[i] {
                return false;
            }
            i += 1;
        }
        assert(self.bytes@ =~= other.bytes@);
        true
    }

    /// Whether the record carries the format marker.
    pub fn has_magic(&self) -> (r: bool)
        ensures
            r == has_magic(self@),
    {
        let r = self.bytes[MAGIC_AT] == 0x75 && self.bytes[MAGIC_AT + 1] == 0x73
            && self.bytes[MAGIC_AT + 2] == 0x74 && self.bytes[MAGIC_AT + 3] == 0x61
            && self.bytes[MAGIC_AT + 4] == 0x72;
        proof {
            let m = self@.subrange(MAGIC_AT as int, MAGIC_AT + 5);
            if r {
                assert(m =~= magic_bytes());
            } else {
                assert(m[0] == self@[MAGIC_AT as int]);
                assert(m[1] == self@[MAGIC_AT + 1]);
                assert(m[2] == self@[MAGIC_AT + 2]);
                assert(m[3] == self@[MAGIC_AT + 3]);
                assert(m[4] == self@[MAGIC_AT + 4]);
            }
        }
        r
    }

    /// The type flag.
    pub fn entry_type(&self) -> (r: u8)
        ensures
            r == type_flag(self@),
    {
        self.bytes[TYPE_AT]
    }

    /// Whether the record describes a directory.
    pub fn is_directory(&self) -> (r: bool)
        ensures
            r == is_directory(self@),
    {
        self.bytes[TYPE_AT] == TYPE_DIRECTORY
    }

    /// The path that the record names, as bytes.
    pub fn path_bytes(&self) -> (r: Vec<u8>)
        ensures
            r@ == header_path(self@),
    {
        tar_path_bytes(self)
    }

    /// The path that the record names, as components.
    pub fn path(&self) -> (r: NormPath)
        ensures
            r@ == split(header_path(self@)),
    {
        let bytes = tar_path_bytes(self);
        NormPath::parse(bytes.as_slice())
    }

    /// The size of the file that the record describes, where it can be read.
    pub fn size(&self) -> (r: Option<u64>)
        ensures
            r == header_size(self@),
    {
        tar_size(self)
    }
}

/// `tar::Header::path_bytes`: the name up to its first NUL byte; in the POSIX
/// format the prefix up to its first NUL byte comes first, with a separator,
/// unless that prefix is empty.
#[verifier::external_body]
fn tar_path_bytes(h: &HashableHeader) -> (r: Vec<u8>)
    ensures
        r@ == header_path(h@),
{
    tar::Header::from_byte_slice(&h.bytes).path_bytes().into_owned()
}

/// `tar::Header::size`: the size that the crate reads from the record.
#[verifier::external_body]
fn tar_size(h: &HashableHeader) -> (r: Option<u64>)
    ensures
        r == header_size(h@),
{
    tar::Header::from_byte_slice(&h.bytes).size().ok()
}

/// `tar::Header::cksum`: the checksum that the crate reads from the record.
#[verifier::external_body]
fn tar_cksum(h: &HashableHeader) -> (r: Option<u32>)
    ensures
        r == header_cksum(h@),
{
    tar::Header::from_byte_slice(&h.bytes).cksum().ok()
}

/// `tar::Header::new_ustar`: zeros, the marker `ustar` with a NUL byte, the
/// version `00`, and a modification time of zero.
#[verifier::external_body]
fn tar_new_ustar() -> (r: HashableHeader)
    ensures
        r@ == blank_ustar(),
{
    HashableHeader { bytes: *tar::Header::new_ustar().as_bytes() }
}

/// `tar::Header::set_path`, on a copy of the record: the record that the crate
/// makes of it, or `None` where it refuses the path.
#[verifier::external_body]
fn tar_set_path(h: &HashableHeader, path: &str) -> (r: Option<HashableHeader>)
    ensures
        match r {
            Some(g) => header_with_path(h@, path@) == Some(g@),
            None => header_with_path(h@, path@) is None,
        },
{
    let mut t = tar::Header::from_byte_slice(&h.bytes).clone();
    t.set_path(path).ok()?;
    Some(HashableHeader { bytes: *t.as_bytes() })
}

/// `tar::Header::set_mode`: the permission bits as seven octal digits and a
/// NUL byte in the mode field, the rest of the record as it was.
#[verifier::external_body]
fn tar_set_mode(h: &mut HashableHeader, mode: u32)
    ensures
        final(h)@ == with_field(old(h)@, MODE_AT as int, octal_field(mode as nat, 8)),
{
    let mut t = tar::Header::from_byte_slice(&h.bytes).clone();
    t.set_mode(mode);
    h.bytes = *t.as_bytes();
}

/// `tar::Header::set_uid`, for an id that fits in seven octal digits: the id
/// in that form and a NUL byte in its field, the rest of the record as it was.
#[verifier::external_body]
fn tar_set_uid(h: &mut HashableHeader, uid: u64)
    requires
        uid < ID_LIMIT,
    ensures
        final(h)@ == with_field(old(h)@, UID_AT as int, octal_field(uid as nat, 8)),
{
    let mut t = tar::Header::from_byte_slice(&h.bytes).clone();
    t.set_uid(uid);
    h.bytes = *t.as_bytes();
}

/// `tar::Header::set_gid`, for an id that fits in seven octal digits: the id
/// in that form and a NUL byte in its field, the rest of the record as it was.
#[verifier::external_body]
fn tar_set_gid(h: &mut HashableHeader, gid: u64)
    requires
        gid < ID_LIMIT,
    ensures
        final(h)@ == with_field(old(h)@, GID_AT as int, octal_field(gid as nat, 8)),
{
    let mut t = tar::Header::from_byte_slice(&h.bytes).clone();
    t.set_gid(gid);
    h.bytes = *t.as_bytes();
}

/// `tar::Header::set_size`, for a size that fits in eleven octal digits: the
/// size in that form and a NUL byte in its field, the rest of the record as it
/// was.
#[verifier::external_body]
fn tar_set_size(h: &mut HashableHeader, size: u64)
    requires
        size < TIME_LIMIT,
    ensures
        final(h)@ == with_field(old(h)@, SIZE_AT as int, octal_field(size as nat, 12)),
{
    let mut t = tar::Header::from_byte_slice(&h.bytes).clone();
    t.set_size(size);
    h.bytes = *t.as_bytes();
}

/// `tar::Header::set_mtime`, for a time that fits in eleven octal digits: the
/// time in that form and a NUL byte in its field, the rest of the record as it
/// was.
#[verifier::external_body]
fn tar_set_mtime(h: &mut HashableHeader, mtime: u64)
    requires
        mtime < TIME_LIMIT,
    ensures
        final(h)@ == with_field(old(h)@, MTIME_AT as int, octal_field(mtime as nat, 12)),
{
    let mut t = tar::Header::from_byte_slice(&h.bytes).clone();
    t.set_mtime(mtime);
    h.bytes = *t.as_bytes();
}

/// `tar::Header::set_cksum`: the sum of the record's bytes, the checksum field
/// counted as eight spaces, written into that field as seven octal digits and
/// a NUL byte.
#[verifier::external_body]
fn tar_set_cksum(h: &mut HashableHeader)
    ensures
        final(h)@ == with_checksum(old(h)@),
{
    let mut t = tar::Header::from_byte_slice(&h.bytes).clone();
    t.set_cksum();
    h.bytes = *t.as_bytes();
}

/// Whether the bytes are valid UTF-8.
pub fn is_text(bytes: &[u8]) -> (r: bool)
    ensures
        r == valid_utf8(bytes@),
{
    utf8_text(bytes).is_some()
}

/// `std::str::from_utf8`: the bytes as text, where they are valid UTF-8.
#[verifier::external_body]
pub(crate) fn utf8_text(bytes: &[u8]) -> (r: Option<&str>)
    ensures
        r is Some <==> valid_utf8(bytes@),
        r matches Some(s) ==> s@ == decode_utf8(bytes@),
{
    std::str::from_utf8(bytes).ok()
}

/// The largest owner's or group's id, plus one, that is written in octal
/// digits.
pub const ID_LIMIT: u64 = 0o10000000;

/// The largest size or time, plus one, that is written in octal digits.
pub const TIME_LIMIT: u64 = 0o100000000000;

/// The record of a directory at `dir` with the given permissions, owner,
/// group and time: a blank record with that path, the size 0 and those
/// values in octal digits, the type of a directory, and its checksum. `None` where an id or
/// the time does not fit its octal digits, where the path is not text, where
/// the `tar` crate refuses it, or where the record that it makes names
/// another path.
pub open spec fn directory_record_of(
    dir: Seq<Seq<u8>>,
    mode: u32,
    uid: u64,
    gid: u64,
    mtime: u64,
) -> Option<Seq<u8>> {
    let path = crate::path::join(dir);
    if uid >= ID_LIMIT || gid >= ID_LIMIT || mtime >= TIME_LIMIT || !valid_utf8(path) {
        None
    } else {
        match header_with_path(blank_ustar(), decode_utf8(path)) {
            None => None,
            Some(named) => {
                let h = with_checksum(
                    with_field(
                        with_field(
                            with_field(
                                with_field(
                                    with_field(
                                        with_field(
                                            named,
                                            SIZE_AT as int,
                                            octal_field(0, 12),
                                        ),
                                        MODE_AT as int,
                                        octal_field(mode as nat, 8),
                                    ),
                                    UID_AT as int,
                                    octal_field(uid as nat, 8),
                                ),
                                GID_AT as int,
                                octal_field(gid as nat, 8),
                            ),
                            MTIME_AT as int,
                            octal_field(mtime as nat, 12),
                        ),
                        TYPE_AT as int,
                        seq![TYPE_DIRECTORY],
                    ),
                );
                if named.len() == HEADER_LEN && split(header_path(h)) == dir {
                    Some(h)
                } else {
                    None
                }
            },
        }
    }
}

/// The record of a directory at `dir` that stands in for the real one: full
/// permissions, owner and group 0, time 0.
pub open spec fn placeholder_record(dir: Seq<Seq<u8>>) -> Option<Seq<u8>> {
    directory_record_of(dir, PLACEHOLDER_MODE, 0, 0, 0)
}

/// Computing the checksum anew changes nothing but the checksum field, does
/// not change the checksum itself, and leaves a record as it is where the
/// field already holds the checksum in this form.
pub proof fn lemma_with_checksum(h: Seq<u8>)
    requires
        h.len() == HEADER_LEN,
    ensures
        with_checksum(h).len() == HEADER_LEN,
        forall|i: int|
            0 <= i < HEADER_LEN && !(CKSUM_AT <= i < CKSUM_AT + CKSUM_LEN) ==> with_checksum(h)[i]
                == h[i],
        checksum_of(with_checksum(h)) == checksum_of(h),
        with_checksum(with_checksum(h)) == with_checksum(h),
        h.subrange(CKSUM_AT as int, CKSUM_AT + CKSUM_LEN) == octal_field(
            checksum_of(h),
            CKSUM_LEN as nat,
        ) ==> with_checksum(h) == h,
{
    let g = with_checksum(h);
    assert(g.take(CKSUM_AT as int) =~= h.take(CKSUM_AT as int));
    assert(g.skip(CKSUM_AT + CKSUM_LEN) =~= h.skip(CKSUM_AT + CKSUM_LEN));
    assert(with_checksum(g) =~= g);
    if h.subrange(CKSUM_AT as int, CKSUM_AT + CKSUM_LEN) == octal_field(
        checksum_of(h),
        CKSUM_LEN as nat,
    ) {
        assert forall|i: int| 0 <= i < HEADER_LEN implies g[i] == h[i] by {
            if CKSUM_AT <= i < CKSUM_AT + CKSUM_LEN {
                assert(h.subrange(CKSUM_AT as int, CKSUM_AT + CKSUM_LEN)[i - CKSUM_AT] == h[i]);
            }
        }
        assert(g =~= h);
    }
}

/// A placeholder names the directory that it is made for, and is a
/// directory.
pub proof fn lemma_placeholder_record(dir: Seq<Seq<u8>>)
    requires
        placeholder_record(dir) is Some,
    ensures
        split(header_path(placeholder_record(dir)->Some_0)) == dir,
        is_directory(placeholder_record(dir)->Some_0),
{
}

/// Makes the record of a directory with the given permissions, owner, group
/// and time.
pub fn directory_header(dir: &NormPath, mode: u32, uid: u64, gid: u64, mtime: u64) -> (r: Option<
    HashableHeader,
>)
    ensures
        match r {
            Some(h) => directory_record_of(dir@, mode, uid, gid, mtime) == Some(h@),
            None => directory_record_of(dir@, mode, uid, gid, mtime) is None,
        },
        r matches Some(h) ==> split(header_path(h@)) == dir@ && is_directory(h@),
{
    if uid >= ID_LIMIT || gid >= ID_LIMIT || mtime >= TIME_LIMIT {
        return None;
    }
    let path = dir.to_bytes();
    let text = match utf8_text(path.as_slice()) {
        Some(t) => t,
        None => {
            return None;
        },
    };
    let blank = tar_new_ustar();
    let mut h = match tar_set_path(&blank, text) {
        Some(h) => h,
        None => {
            return None;
        },
    };
    tar_set_size(&mut h, 0);
    tar_set_mode(&mut h, mode);
    tar_set_uid(&mut h, uid);
    tar_set_gid(&mut h, gid);
    tar_set_mtime(&mut h, mtime);
    let ghost before = h@;
    h.bytes[TYPE_AT] = TYPE_DIRECTORY;
    assert(h@ =~= with_field(before, TYPE_AT as int, seq![TYPE_DIRECTORY]));
    tar_set_cksum(&mut h);
    let found = h.path();
    if found.same(dir) {
        Some(h)
    } else {
        None
    }
}

/// Makes the record of a directory that stands in for the real one.
pub fn placeholder_directory(dir: &NormPath) -> (r: Option<HashableHeader>)
    ensures
        match r {
            Some(h) => placeholder_record(dir@) == Some(h@),
            None => placeholder_record(dir@) is None,
        },
        r matches Some(h) ==> split(header_path(h@)) == dir@ && is_directory(h@),
{
    directory_header(dir, PLACEHOLDER_MODE, 0, 0, 0)
}

} // verus!
