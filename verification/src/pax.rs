//! Extended header records: the data of an entry of type `x`.
//!
//! The data is a run of records. Each is a decimal length, a space, a key, an
//! equals sign, a value and one closing byte; the length counts the whole
//! record, its own digits included.

use crate::error::Error;
use crate::header::{is_text, until_nul};
use crate::path::{bytes_equal, copy_range, index_of, lemma_index_of, position};
use vstd::prelude::*;
use vstd::slice::slice_subrange;
use vstd::utf8::valid_utf8;

verus! {

/// The byte between a record's length and its key.
pub const SPACE: u8 = 0x20;

/// The byte between a record's key and its value.
pub const EQUALS: u8 = 0x3d;

/// Whether `b` is one of the digits `0` to `9`.
pub open spec fn is_digit(b: u8) -> bool {
    0x30u8 <= b <= 0x39u8
}

/// Whether `s` is made of digits only.
pub open spec fn all_digits(s: Seq<u8>) -> bool {
    forall|i: int| 0 <= i < s.len() ==> is_digit(#[trigger] s[i])
}

/// The number that the digits of `s` write in base ten.
pub open spec fn decimal_value(s: Seq<u8>) -> nat
    decreases s.len(),
{
    if s.len() == 0 {
        0
    } else {
        10 * decimal_value(s.drop_last()) + (s.last() - 0x30u8) as nat
    }
}

/// The number that a field holds: what stands before its first NUL byte must
/// be one digit or more, and the number must fit in 64 bits.
pub open spec fn decimal(s: Seq<u8>) -> Option<u64> {
    let t = until_nul(s);
    if t.len() > 0 && all_digits(t) && decimal_value(t) <= u64::MAX {
        Some(decimal_value(t) as u64)
    } else {
        None
    }
}

/// More digits do not make a number smaller.
proof fn lemma_decimal_value_grows(s: Seq<u8>, i: int)
    requires
        all_digits(s),
        0 <= i <= s.len(),
    ensures
        decimal_value(s.take(i)) <= decimal_value(s),
    decreases s.len() - i,
{
    if i < s.len() {
        lemma_decimal_value_grows(s, i + 1);
        let longer = s.take(i + 1);
        assert(longer.drop_last() =~= s.take(i));
        assert(longer.last() == s[i]);
    } else {
        assert(s.take(i) =~= s);
    }
}

/// The part of a field before its first NUL byte.
pub fn truncate(slice: &[u8]) -> (r: &[u8])
    ensures
        r@ == until_nul(slice@),
{
    let i = position(slice, 0);
    proof {
        lemma_index_of(slice@, 0u8);
    }
    slice_subrange(slice, 0, i)
}

/// Reads the decimal number that a field holds.
pub fn decimal_from(slice: &[u8]) -> (r: Result<u64, Error>)
    ensures
        r == match decimal(slice@) {
            Some(n) => Ok::<u64, Error>(n),
            None => Err::<u64, Error>(Error::Format),
        },
{
    let digits = truncate(slice);
    if digits.len() == 0 {
        return Err(Error::Format);
    }
    let mut value: u64 = 0;
    let mut i: usize = 0;
    while i < digits.len()
        invariant
            i <= digits@.len(),
            digits@.len() > 0,
            digits@ == until_nul(slice@),
            all_digits(digits@.take(i as int)),
            value == decimal_value(digits@.take(i as int)),
        decreases digits@.len() - i,
    {
        let b = digits[i];
        if b < 0x30 || b > 0x39 {
            assert(!is_digit(digits@[i as int]));
            return Err(Error::Format);
        }
        let d: u64 = (b - 0x30) as u64;
        proof {
            let longer = digits@.take(i + 1);
            assert(longer.drop_last() =~= digits@.take(i as int));
            assert(longer.last() == b);
            assert forall|j: int| 0 <= j < longer.len() implies is_digit(#[trigger] longer[j]) by {
                if j < i {
                    assert(longer[j] == digits@.take(i as int)[j]);
                }
            }
        }
        if value > (u64::MAX - d) / 10 {
            proof {
                if all_digits(digits@) {
                    lemma_decimal_value_grows(digits@, i + 1);
                }
            }
            return Err(Error::Format);
        }
        value = value * 10 + d;
        i += 1;
    }
    proof {
        assert(digits@.take(i as int) =~= digits@);
    }
    Ok(value)
}

/// One record: a key and the value that it is given.
#[derive(Debug)]
pub struct Record {
    pub key: Vec<u8>,
    pub value: Vec<u8>,
}

impl View for Record {
    type V = (Seq<u8>, Seq<u8>);

    open spec fn view(&self) -> (Seq<u8>, Seq<u8>) {
        (self.key@, self.value@)
    }
}

/// The record that `data` begins with: its key, its value and its length.
/// `None` where the length, the space or the equals sign is missing, where the
/// length does not fit the data, or where key or value is not text.
pub open spec fn first_record(data: Seq<u8>) -> Option<(Seq<u8>, Seq<u8>, int)> {
    let sp = index_of(data, SPACE);
    if sp >= data.len() {
        None
    } else {
        match decimal(data.take(sp)) {
            None => None,
            Some(size) => {
                if size < sp + 2 || size > data.len() {
                    None
                } else {
                    let body = data.subrange(sp + 1, size - 1);
                    let eq = index_of(body, EQUALS);
                    if eq >= body.len() {
                        None
                    } else {
                        let key = body.take(eq);
                        let value = body.skip(eq + 1);
                        if valid_utf8(key) && valid_utf8(value) {
                            Some((key, value, size as int))
                        } else {
                            None
                        }
                    }
                }
            },
        }
    }
}

/// Whether one of `records` has the key `key`.
pub open spec fn has_key(records: Seq<(Seq<u8>, Seq<u8>)>, key: Seq<u8>) -> bool {
    exists|i: int| 0 <= i < records.len() && (#[trigger] records[i]).0 == key
}

/// The records of `data`, read after those in `seen`. `None` where a record is
/// malformed or a key comes twice.
pub open spec fn records_after(data: Seq<u8>, seen: Seq<(Seq<u8>, Seq<u8>)>) -> Option<
    Seq<(Seq<u8>, Seq<u8>)>,
>
    decreases data.len(),
{
    if data.len() == 0 {
        Some(seen)
    } else {
        match first_record(data) {
            None => None,
            Some((key, value, size)) => {
                if has_key(seen, key) || size <= 0 || size > data.len() {
                    None
                } else {
                    records_after(data.skip(size), seen.push((key, value)))
                }
            },
        }
    }
}

/// The records of an extended header, in the order in which they stand.
pub open spec fn records_of(data: Seq<u8>) -> Option<Seq<(Seq<u8>, Seq<u8>)>> {
    records_after(data, Seq::empty())
}

/// Whether no key comes twice.
pub open spec fn keys_distinct(records: Seq<(Seq<u8>, Seq<u8>)>) -> bool {
    forall|i: int, j: int|
        0 <= i < j < records.len() ==> (#[trigger] records[i]).0 != (#[trigger] records[j]).0
}

/// The value that `records` give to `key`: that of the first record with it.
pub open spec fn lookup(records: Seq<(Seq<u8>, Seq<u8>)>, key: Seq<u8>) -> Option<Seq<u8>>
    decreases records.len(),
{
    if records.len() == 0 {
        None
    } else if records[0].0 == key {
        Some(records[0].1)
    } else {
        lookup(records.drop_first(), key)
    }
}

/// Reading goes on from records with distinct keys to records with distinct
/// keys.
proof fn lemma_records_after_distinct(data: Seq<u8>, seen: Seq<(Seq<u8>, Seq<u8>)>)
    requires
        keys_distinct(seen),
    ensures
        records_after(data, seen) matches Some(all) ==> keys_distinct(all),
    decreases data.len(),
{
    if data.len() != 0 {
        match first_record(data) {
            None => {},
            Some((key, value, size)) => {
                if !(has_key(seen, key) || size <= 0 || size > data.len()) {
                    let next = seen.push((key, value));
                    assert forall|i: int, j: int| 0 <= i < j < next.len() implies (
                    #[trigger] next[i]).0 != (#[trigger] next[j]).0 by {
                        if j == seen.len() {
                            assert(seen[i].0 != key);
                        }
                    }
                    lemma_records_after_distinct(data.skip(size), next);
                }
            },
        }
    }
}

/// No key comes twice in the records of an extended header.
pub proof fn lemma_records_distinct(data: Seq<u8>)
    ensures
        records_of(data) matches Some(all) ==> keys_distinct(all),
{
    lemma_records_after_distinct(data, Seq::empty());
}

/// The records of one extended header.
#[derive(Debug)]
pub struct ExtendedHeader {
    records: Vec<Record>,
}

impl View for ExtendedHeader {
    type V = Seq<(Seq<u8>, Seq<u8>)>;

    closed spec fn view(&self) -> Seq<(Seq<u8>, Seq<u8>)> {
        Seq::new(self.records@.len(), |i: int| self.records@[i]@)
    }
}

impl ExtendedHeader {
    /// The number of records.
    pub fn len(&self) -> (r: usize)
        ensures
            r == self@.len(),
    {
        self.records.len()
    }

    /// The record at `i`.
    pub fn record(&self, i: usize) -> (r: &Record)
        requires
            i < self@.len(),
        ensures
            r@ == self@[i as int],
    {
        &self.records[i]
    }

    /// Whether a record has the key `key`.
    pub fn contains_key(&self, key: &[u8]) -> (r: bool)
        ensures
            r == has_key(self@, key@),
            r == (lookup(self@, key@) is Some),
    {
        self.get(key).is_some()
    }

    /// The value that the records give to `key`.
    pub fn get(&self, key: &[u8]) -> (r: Option<&Vec<u8>>)
        ensures
            match r {
                Some(v) => lookup(self@, key@) == Some(v@),
                None => lookup(self@, key@) is None,
            },
            r is Some <==> has_key(self@, key@),
    {
        let mut i: usize = 0;
        proof {
            assert(self@.skip(0) =~= self@);
        }
        while i < self.records.len()
            invariant
                i <= self.records@.len(),
                lookup(self@, key@) == lookup(self@.skip(i as int), key@),
                forall|j: int| 0 <= j < i ==> (#[trigger] self@[j]).0 != key@,
            decreases self.records@.len() - i,
        {
            let ghost rest = self@.skip(i as int);
            assert(rest[0] == self@[i as int]);
            assert(rest.drop_first() =~= self@.skip(i + 1));
            if bytes_equal(self.records[i].key.as_slice(), key) {
                assert(self@[i as int].0 == key@);
                return Some(&self.records[i].value);
            }
            i += 1;
        }
        proof {
            assert(self@.skip(i as int) =~= Seq::empty());
        }
        None
    }
}

/// Reads the records of an extended header.
pub fn parse_extended_header_data(extended_header: &[u8]) -> (r: Result<ExtendedHeader, Error>)
    ensures
        match r {
            Ok(h) => records_of(extended_header@) == Some(h@) && keys_distinct(h@),
            Err(e) => records_of(extended_header@) is None && e == Error::Format,
        },
{
    let data = extended_header;
    let mut out = ExtendedHeader { records: Vec::new() };
    let mut pos: usize = 0;
    proof {
        assert(data@.skip(0) =~= data@);
        assert(out@ =~= Seq::empty());
        lemma_records_distinct(data@);
    }
    while pos < data.len()
        invariant
            pos <= data@.len(),
            data@ == extended_header@,
            records_of(data@) == records_after(data@.skip(pos as int), out@),
        decreases data@.len() - pos,
    {
        let rest = slice_subrange(data, pos, data.len());
        assert(rest@ =~= data@.skip(pos as int));
        let sp = position(rest, SPACE);
        proof {
            lemma_index_of(rest@, SPACE);
        }
        if sp >= rest.len() {
            return Err(Error::Format);
        }
        let size = match decimal_from(slice_subrange(rest, 0, sp)) {
            Ok(n) => n,
            Err(_) => {
                return Err(Error::Format);
            },
        };
        if size > rest.len() as u64 {
            return Err(Error::Format);
        }
        let size: usize = size as usize;
        if size < sp || size - sp < 2 {
            return Err(Error::Format);
        }
        let body = slice_subrange(rest, sp + 1, size - 1);
        let eq = position(body, EQUALS);
        proof {
            lemma_index_of(body@, EQUALS);
        }
        if eq >= body.len() {
            return Err(Error::Format);
        }
        let key_bytes = slice_subrange(body, 0, eq);
        let value_bytes = slice_subrange(body, eq + 1, body.len());
        if !is_text(key_bytes) || !is_text(value_bytes) {
            return Err(Error::Format);
        }
        if out.contains_key(key_bytes) {
            return Err(Error::Format);
        }
        let key = copy_range(key_bytes, 0, key_bytes.len());
        let value = copy_range(value_bytes, 0, value_bytes.len());
        proof {
            assert(key@ =~= body@.take(eq as int));
            assert(value@ =~= body@.skip(eq + 1));
            assert(first_record(rest@) == Some((key@, value@, size as int)));
            assert(rest@.skip(size as int) =~= data@.skip(pos + size));
        }
        let ghost before = out@;
        out.records.push(Record { key, value });
        proof {
            assert(out@ =~= before.push((key@, value@)));
        }
        pos = pos + size;
    }
    proof {
        assert(data@.skip(pos as int) =~= Seq::empty());
    }
    Ok(out)
}

} // verus!
