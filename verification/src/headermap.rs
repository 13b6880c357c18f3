//! The header records of one archive's shareable entries, each with the
//! place of the entry that holds its content.
//!
//! Records are kept in the order in which they first come. Where a record
//! comes more than once, the last entry with it holds the content.

use crate::archive::{entries_view, ArchiveEntry};
use crate::header::HashableHeader;
use crate::index::{hash_bytes, hash_of, HashIndex};
use vstd::prelude::*;

verus! {

/// The distinct records of a list of entries, in the order in which they
/// first come.
pub open spec fn keys_of(entries: Seq<(Seq<u8>, Seq<u8>)>) -> Seq<Seq<u8>>
    decreases entries.len(),
{
    if entries.len() == 0 {
        Seq::empty()
    } else {
        let before = keys_of(entries.drop_last());
        if before.contains(entries.last().0) {
            before
        } else {
            before.push(entries.last().0)
        }
    }
}

/// The place of the last entry with the record `h`, or -1 where there is
/// none.
pub open spec fn last_index_of(entries: Seq<(Seq<u8>, Seq<u8>)>, h: Seq<u8>) -> int
    decreases entries.len(),
{
    if entries.len() == 0 {
        -1
    } else if entries.last().0 == h {
        entries.len() - 1
    } else {
        last_index_of(entries.drop_last(), h)
    }
}

/// The content that a list of entries holds for the record `h`: that of the
/// last entry with it.
pub open spec fn content_of(entries: Seq<(Seq<u8>, Seq<u8>)>, h: Seq<u8>) -> Seq<u8> {
    entries[last_index_of(entries, h)].1
}

/// Whether no record comes twice.
pub open spec fn distinct(keys: Seq<Seq<u8>>) -> bool {
    forall|i: int, j: int| 0 <= i < j < keys.len() ==> #[trigger] keys[i] != #[trigger] keys[j]
}

/// `last_index_of` points at an entry with the record, and no later entry has
/// it; it is -1 only where no entry has it.
pub proof fn lemma_last_index_of(entries: Seq<(Seq<u8>, Seq<u8>)>, h: Seq<u8>)
    ensures
        -1 <= last_index_of(entries, h) < entries.len(),
        last_index_of(entries, h) >= 0 ==> entries[last_index_of(entries, h)].0 == h,
        forall|k: int|
            last_index_of(entries, h) < k < entries.len() ==> (#[trigger] entries[k]).0 != h,
    decreases entries.len(),
{
    if entries.len() != 0 && entries.last().0 != h {
        let rest = entries.drop_last();
        lemma_last_index_of(rest, h);
        assert forall|k: int| last_index_of(entries, h) < k < entries.len() implies (
        #[trigger] entries[k]).0 != h by {
            if k < rest.len() {
                assert(rest[k] == entries[k]);
            }
        }
    }
}

/// The keys of a list are the records of its entries, each once.
pub proof fn lemma_keys_of(entries: Seq<(Seq<u8>, Seq<u8>)>)
    ensures
        distinct(keys_of(entries)),
        forall|h: Seq<u8>| #[trigger]
            keys_of(entries).contains(h) <==> last_index_of(entries, h) >= 0,
        forall|k: int|
            0 <= k < entries.len() ==> keys_of(entries).contains((#[trigger] entries[k]).0),
    decreases entries.len(),
{
    if entries.len() != 0 {
        let rest = entries.drop_last();
        let before = keys_of(rest);
        let last = entries.last().0;
        lemma_keys_of(rest);
        assert forall|h: Seq<u8>| #[trigger]
            keys_of(entries).contains(h) <==> last_index_of(entries, h) >= 0 by {
            if before.contains(last) {
            } else {
                if h == last {
                    assert(before.push(last)[before.len() as int] == last);
                } else {
                    if before.contains(h) {
                        let i = choose|i: int| 0 <= i < before.len() && before[i] == h;
                        assert(before.push(last)[i] == h);
                    }
                    if before.push(last).contains(h) {
                        let i = choose|i: int|
                            0 <= i < before.push(last).len() && before.push(last)[i] == h;
                        assert(before[i] == h);
                    }
                }
            }
        }
        assert forall|k: int| 0 <= k < entries.len() implies keys_of(entries).contains(
            (#[trigger] entries[k]).0,
        ) by {
            lemma_last_index_of(entries, entries[k].0);
        }
    }
}

/// Whether `index` leads to every one of `keys`: the place of each key is in
/// the bucket of the key's hash, and the buckets hold no other places.
pub open spec fn indexed(keys: Seq<Seq<u8>>, index: HashIndex) -> bool {
    &&& forall|p: int|
        0 <= p < keys.len() ==> index.bucket(hash_of(#[trigger] keys[p])).contains(p as usize)
    &&& forall|hash: u64, j: int|
        0 <= j < index.bucket(hash).len() ==> (#[trigger] index.bucket(hash)[j]) < keys.len()
}

/// The records of a list.
pub open spec fn records(keys: Seq<HashableHeader>) -> Seq<Seq<u8>> {
    Seq::new(keys.len(), |i: int| keys[i]@)
}

/// Where the record `h` stands among `keys`, if it does.
fn find_place(keys: &Vec<HashableHeader>, index: &HashIndex, h: &HashableHeader) -> (r: Option<
    usize,
>)
    requires
        indexed(records(keys@), *index),
    ensures
        match r {
            Some(p) => p < keys@.len() && keys@[p as int]@ == h@,
            None => !records(keys@).contains(h@),
        },
{
    let ghost all = records(keys@);
    let hash = hash_bytes(h.as_bytes().as_slice());
    match index.get(hash) {
        None => {
            proof {
                if all.contains(h@) {
                    let p = choose|p: int| 0 <= p < all.len() && all[p] == h@;
                    assert(index.bucket(hash_of(all[p])).contains(p as usize));
                }
            }
            None
        },
        Some(bucket) => {
            let mut j: usize = 0;
            while j < bucket.len()
                invariant
                    j <= bucket@.len(),
                    all == records(keys@),
                    all.len() == keys.len(),
                    indexed(all, *index),
                    bucket@ == index.bucket(hash),
                    hash == hash_of(h@),
                    forall|q: int| 0 <= q < j ==> all[(#[trigger] bucket@[q]) as int] != h@,
                decreases bucket@.len() - j,
            {
                let p = bucket[j];
                assert(index.bucket(hash)[j as int] < all.len());
                assert(all[p as int] == keys@[p as int]@);
                if keys[p].same(h) {
                    return Some(p);
                }
                j += 1;
            }
            proof {
                if all.contains(h@) {
                    let p = choose|p: int| 0 <= p < all.len() && all[p] == h@;
                    assert(p < keys.len());
                    assert(index.bucket(hash_of(all[p])).contains(p as usize));
                    let q = choose|q: int| 0 <= q < bucket@.len() && bucket@[q] == p as usize;
                    assert(all[bucket@[q] as int] != h@);
                }
            }
            None
        },
    }
}

/// The records of one archive's shareable entries, each with the place of
/// the entry that holds its content.
#[derive(Debug)]
pub struct HeaderMap {
    keys: Vec<HashableHeader>,
    slots: Vec<usize>,
    index: HashIndex,
}

impl HeaderMap {
    /// The index leads to every key.
    #[verifier::type_invariant]
    spec fn well_indexed(self) -> bool {
        indexed(records(self.keys@), self.index)
    }

    /// The records, in the order in which they first came.
    pub closed spec fn keys(&self) -> Seq<Seq<u8>> {
        records(self.keys@)
    }

    /// For each record, the place of the entry that holds its content.
    pub closed spec fn slots(&self) -> Seq<int> {
        Seq::new(self.slots@.len(), |i: int| self.slots@[i] as int)
    }

    /// Every record has a slot, and no record comes twice.
    pub open spec fn wf(&self) -> bool {
        self.slots().len() == self.keys().len() && distinct(self.keys())
    }

    /// Whether the map stands for the entries `entries`.
    pub open spec fn maps(&self, entries: Seq<(Seq<u8>, Seq<u8>)>) -> bool {
        &&& self.wf()
        &&& self.keys() == keys_of(entries)
        &&& forall|p: int|
            0 <= p < self.keys().len() ==> #[trigger] self.slots()[p] == last_index_of(
                entries,
                self.keys()[p],
            )
    }

    /// The number of records.
    pub fn len(&self) -> (r: usize)
        ensures
            r == self.keys().len(),
    {
        self.keys.len()
    }

    /// The record at `p`.
    pub fn key(&self, p: usize) -> (r: &HashableHeader)
        requires
            p < self.keys().len(),
        ensures
            r@ == self.keys()[p as int],
    {
        &self.keys[p]
    }

    /// The place of the entry that holds the content of the record at `p`.
    pub fn slot(&self, p: usize) -> (r: usize)
        requires
            self.wf(),
            p < self.keys().len(),
        ensures
            r == self.slots()[p as int],
    {
        self.slots[p]
    }

    /// Where the record `h` stands among the keys, if it does.
    pub fn find(&self, h: &HashableHeader) -> (r: Option<usize>)
        ensures
            match r {
                Some(p) => p < self.keys().len() && self.keys()[p as int] == h@,
                None => !self.keys().contains(h@),
            },
    {
        proof {
            use_type_invariant(self);
        }
        find_place(&self.keys, &self.index, h)
    }

    /// Whether the record `h` is among the keys.
    pub fn contains(&self, h: &HashableHeader) -> (r: bool)
        ensures
            r == self.keys().contains(h@),
    {
        self.find(h).is_some()
    }
}

/// Lists the records of `entries`, each with the place of the last entry
/// that has it.
pub fn get_header_map(entries: &Vec<ArchiveEntry>) -> (r: HeaderMap)
    ensures
        r.maps(entries_view(entries@)),
{
    let ghost all = entries_view(entries@);
    let mut keys: Vec<HashableHeader> = Vec::new();
    let mut slots: Vec<usize> = Vec::new();
    let mut index = HashIndex::new();
    let mut k: usize = 0;
    proof {
        assert(records(keys@) =~= keys_of(all.take(0)));
    }
    while k < entries.len()
        invariant
            k <= entries@.len(),
            all == entries_view(entries@),
            indexed(records(keys@), index),
            slots@.len() == keys@.len(),
            records(keys@) == keys_of(all.take(k as int)),
            forall|p: int|
                0 <= p < keys@.len() ==> (#[trigger] slots@[p]) as int == last_index_of(
                    all.take(k as int),
                    records(keys@)[p],
                ),
        decreases entries@.len() - k,
    {
        let ghost seen = all.take(k as int);
        let ghost now = all.take(k + 1);
        let ghost old_keys = records(keys@);
        let ghost old_slots = slots@;
        let ghost old_index = index;
        proof {
            assert(now.drop_last() =~= seen);
            assert(now.last() == all[k as int]);
            assert(all[k as int].0 == entries@[k as int].header@);
            lemma_keys_of(seen);
        }
        match find_place(&keys, &index, &entries[k].header) {
            Some(p) => {
                slots[p] = k;
                proof {
                    assert forall|q: int| 0 <= q < keys@.len() implies (#[trigger] slots@[q]) as int
                        == last_index_of(now, records(keys@)[q]) by {
                        if q != p {
                            assert(old_slots[q] as int == last_index_of(seen, old_keys[q]));
                        }
                    }
                }
            },
            None => {
                let h = entries[k].header;
                let place = keys.len();
                keys.push(h);
                slots.push(k);
                index = index.with(hash_bytes(h.as_bytes().as_slice()), place);
                proof {
                    let new_keys = records(keys@);
                    assert(new_keys =~= old_keys.push(all[k as int].0));
                    assert forall|q: int| 0 <= q < keys@.len() implies (#[trigger] slots@[q]) as int
                        == last_index_of(now, new_keys[q]) by {
                        if q < old_keys.len() {
                            assert(old_slots[q] as int == last_index_of(seen, old_keys[q]));
                            assert(old_keys.contains(old_keys[q]));
                            assert(new_keys[q] == old_keys[q]);
                        }
                    }
                    assert forall|q: int| 0 <= q < new_keys.len() implies index.bucket(
                        hash_of(#[trigger] new_keys[q]),
                    ).contains(q as usize) by {
                        let hq = hash_of(new_keys[q]);
                        if q < old_keys.len() {
                            assert(new_keys[q] == old_keys[q]);
                            assert(old_index.bucket(hash_of(old_keys[q])).contains(q as usize));
                            let j = choose|j: int|
                                0 <= j < old_index.bucket(hq).len() && old_index.bucket(hq)[j]
                                    == q as usize;
                            if hq == hash_of(h@) {
                                assert(index.bucket(hq)[j] == q as usize);
                            } else {
                                assert(index.bucket(hq) == old_index.bucket(hq));
                            }
                        } else {
                            assert(index.bucket(hq)[old_index.bucket(hq).len() as int]
                                == q as usize);
                        }
                    }
                    assert forall|hash: u64, j: int|
                        0 <= j < index.bucket(hash).len() implies (#[trigger] index.bucket(
                        hash,
                    )[j]) < new_keys.len() by {
                        if hash == hash_of(h@) {
                            if j < old_index.bucket(hash).len() {
                                assert(index.bucket(hash)[j] == old_index.bucket(hash)[j]);
                            }
                        } else {
                            assert(index.bucket(hash) == old_index.bucket(hash));
                            assert(old_index.bucket(hash)[j] < old_keys.len());
                        }
                    }
                }
            },
        }
        k += 1;
    }
    proof {
        assert(all.take(k as int) =~= all);
    }
    let map = HeaderMap { keys, slots, index };
    proof {
        assert(map.slots().len() == map.keys().len());
        lemma_keys_of(all);
        assert forall|p: int| 0 <= p < map.keys().len() implies #[trigger] map.slots()[p]
            == last_index_of(all, map.keys()[p]) by {
            assert(slots@[p] as int == last_index_of(all, records(keys@)[p]));
        }
    }
    map
}

} // verus!
