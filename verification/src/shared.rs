//! The records of the shared layer, found again by the path that they name.

use crate::header::{header_path, HashableHeader};
use crate::headermap::records;
use crate::index::{hash_bytes, hash_of, HashIndex};
use crate::path::{join, split, NormPath};
use vstd::prelude::*;

verus! {

/// Whether one of the records `list` names the path `path`.
pub open spec fn names_path(list: Seq<Seq<u8>>, path: Seq<Seq<u8>>) -> bool {
    exists|j: int| 0 <= j < list.len() && split(header_path(#[trigger] list[j])) == path
}

/// The last of the records `list` that names the path `path`.
pub open spec fn last_with_path(list: Seq<Seq<u8>>, path: Seq<Seq<u8>>) -> Option<Seq<u8>>
    decreases list.len(),
{
    if list.len() == 0 {
        None
    } else if split(header_path(list.last())) == path {
        Some(list.last())
    } else {
        last_with_path(list.drop_last(), path)
    }
}

/// A record that names the path, with no later record that names it, is the
/// last with that path.
pub proof fn lemma_last_with_path_is(list: Seq<Seq<u8>>, path: Seq<Seq<u8>>, j: int)
    requires
        0 <= j < list.len(),
        split(header_path(list[j])) == path,
        forall|q: int| j < q < list.len() ==> split(header_path(#[trigger] list[q])) != path,
    ensures
        last_with_path(list, path) == Some(list[j]),
    decreases list.len(),
{
    if j < list.len() - 1 {
        let rest = list.drop_last();
        assert(split(header_path(list[list.len() - 1])) != path);
        assert forall|q: int| j < q < rest.len() implies split(header_path(#[trigger] rest[q]))
            != path by {
            assert(rest[q] == list[q]);
        }
        lemma_last_with_path_is(rest, path, j);
    }
}

/// The last record with a path is one of the records and names the path;
/// there is none exactly where no record names the path.
pub proof fn lemma_last_with_path(list: Seq<Seq<u8>>, path: Seq<Seq<u8>>)
    ensures
        last_with_path(list, path) is Some <==> names_path(list, path),
        last_with_path(list, path) matches Some(h) ==> list.contains(h) && split(header_path(h))
            == path,
    decreases list.len(),
{
    if list.len() != 0 {
        let rest = list.drop_last();
        lemma_last_with_path(rest, path);
        if split(header_path(list.last())) == path {
            assert(split(header_path(list[list.len() - 1])) == path);
        } else {
            if names_path(list, path) {
                let j = choose|j: int|
                    0 <= j < list.len() && split(header_path(#[trigger] list[j])) == path;
                assert(rest[j] == list[j]);
            }
            if names_path(rest, path) {
                let j = choose|j: int|
                    0 <= j < rest.len() && split(header_path(#[trigger] rest[j])) == path;
                assert(list[j] == rest[j]);
            }
            match last_with_path(rest, path) {
                Some(h) => {
                    let i = choose|i: int| 0 <= i < rest.len() && rest[i] == h;
                    assert(list[i] == h);
                },
                None => {},
            }
        }
    }
}

/// The records of the shared layer, with the paths that they name.
#[derive(Debug)]
pub struct SharedRecords {
    headers: Vec<HashableHeader>,
    paths: Vec<NormPath>,
    index: HashIndex,
}

impl SharedRecords {
    /// Every record has its path beside it, and the index leads to every
    /// path.
    #[verifier::type_invariant]
    spec fn consistent(self) -> bool {
        &&& self.paths@.len() == self.headers@.len()
        &&& forall|j: int|
            0 <= j < self.paths@.len() ==> (#[trigger] self.paths@[j])@ == split(
                header_path(self.headers@[j]@),
            )
        &&& forall|j: int|
            0 <= j < self.paths@.len() ==> self.index.bucket(
                hash_of(join((#[trigger] self.paths@[j])@)),
            ).contains(j as usize)
        &&& forall|hash: u64, q: int|
            0 <= q < self.index.bucket(hash).len() ==> (#[trigger] self.index.bucket(hash)[q])
                < self.paths@.len()
    }

    /// The records, in their order.
    pub closed spec fn records(&self) -> Seq<Seq<u8>> {
        records(self.headers@)
    }

    /// Takes the records of the shared layer.
    pub fn new(headers: Vec<HashableHeader>) -> (r: SharedRecords)
        ensures
            r.records() == records(headers@),
    {
        let mut paths: Vec<NormPath> = Vec::new();
        let mut index = HashIndex::new();
        let mut j: usize = 0;
        while j < headers.len()
            invariant
                j <= headers@.len(),
                paths@.len() == j,
                forall|q: int|
                    0 <= q < j ==> (#[trigger] paths@[q])@ == split(header_path(headers@[q]@)),
                forall|q: int|
                    0 <= q < j ==> index.bucket(hash_of(join((#[trigger] paths@[q])@))).contains(
                        q as usize,
                    ),
                forall|hash: u64, q: int|
                    0 <= q < index.bucket(hash).len() ==> (#[trigger] index.bucket(hash)[q]) < j,
            decreases headers@.len() - j,
        {
            let path = headers[j].path();
            let hash = hash_bytes(path.to_bytes().as_slice());
            let ghost old_index = index;
            let ghost old_paths = paths@;
            index = index.with(hash, j);
            paths.push(path);
            proof {
                assert forall|q: int| 0 <= q < j + 1 implies index.bucket(
                    hash_of(join((#[trigger] paths@[q])@)),
                ).contains(q as usize) by {
                    let hq = hash_of(join(paths@[q]@));
                    if q < j {
                        assert(paths@[q] == old_paths[q]);
                        assert(old_index.bucket(hash_of(join(old_paths[q]@))).contains(q as usize));
                        let a = choose|a: int|
                            0 <= a < old_index.bucket(hq).len() && old_index.bucket(hq)[a]
                                == q as usize;
                        if hq == hash {
                            assert(index.bucket(hq)[a] == q as usize);
                        } else {
                            assert(index.bucket(hq) == old_index.bucket(hq));
                        }
                    } else {
                        assert(index.bucket(hq)[old_index.bucket(hq).len() as int] == q as usize);
                    }
                }
                assert forall|h: u64, q: int| 0 <= q < index.bucket(h).len() implies (
                #[trigger] index.bucket(h)[q]) < j + 1 by {
                    if h == hash {
                        if q < old_index.bucket(h).len() {
                            assert(index.bucket(h)[q] == old_index.bucket(h)[q]);
                        }
                    } else {
                        assert(index.bucket(h) == old_index.bucket(h));
                        assert(old_index.bucket(h)[q] < j);
                    }
                }
            }
            j += 1;
        }
        SharedRecords { headers, paths, index }
    }

    /// The number of records.
    pub fn len(&self) -> (r: usize)
        ensures
            r == self.records().len(),
    {
        self.headers.len()
    }

    /// The place of the last record that names the path `path`.
    fn last_place(&self, path: &NormPath) -> (r: Option<usize>)
        ensures
            match r {
                Some(j) => j < self.records().len() && last_with_path(self.records(), path@)
                    == Some(self.records()[j as int]),
                None => last_with_path(self.records(), path@) is None,
            },
    {
        proof {
            use_type_invariant(self);
        }
        let ghost list = self.records();
        let hash = hash_bytes(path.to_bytes().as_slice());
        let mut best: Option<usize> = None;
        match self.index.get(hash) {
            None => {},
            Some(bucket) => {
                let mut q: usize = 0;
                while q < bucket.len()
                    invariant
                        q <= bucket@.len(),
                        bucket@ == self.index.bucket(hash),
                        self.paths@.len() == self.headers@.len(),
                        forall|j: int|
                            0 <= j < self.paths@.len() ==> (#[trigger] self.paths@[j])@ == split(
                                header_path(self.headers@[j]@),
                            ),
                        forall|h: u64, a: int|
                            0 <= a < self.index.bucket(h).len() ==> (#[trigger] self.index.bucket(
                                h,
                            )[a]) < self.paths@.len(),
                        best matches Some(j) ==> j < self.paths@.len() && self.paths@[j as int]@
                            == path@,
                        forall|a: int|
                            0 <= a < q && self.paths@[(#[trigger] bucket@[a]) as int]@ == path@
                                ==> best is Some && bucket@[a] <= best->Some_0,
                    decreases bucket@.len() - q,
                {
                    let j = bucket[q];
                    assert(self.index.bucket(hash)[q as int] < self.paths@.len());
                    if self.paths[j].same(path) {
                        best = match best {
                            Some(b) => if b < j {
                                Some(j)
                            } else {
                                Some(b)
                            },
                            None => Some(j),
                        };
                    }
                    q += 1;
                }
            },
        }
        proof {
            assert(list.len() == self.headers.len());
            assert forall|j: int| 0 <= j < list.len() && split(header_path(#[trigger] list[j]))
                == path@ implies best is Some && j <= best->Some_0 by {
                assert(list[j] == self.headers@[j]@);
                assert(self.paths@[j]@ == path@);
                assert(self.index.bucket(hash_of(join(self.paths@[j]@))).contains(j as usize));
                let bucket = self.index.bucket(hash);
                let a = choose|a: int| 0 <= a < bucket.len() && bucket[a] == j as usize;
                assert(self.paths@[bucket[a] as int]@ == path@);
            }
            match best {
                Some(b) => {
                    assert(list[b as int] == self.headers@[b as int]@);
                    lemma_last_with_path_is(list, path@, b as int);
                },
                None => {
                    lemma_last_with_path(list, path@);
                },
            }
        }
        best
    }

    /// The last record that names the path `path`.
    pub fn last_named(&self, path: &NormPath) -> (r: Option<&HashableHeader>)
        ensures
            match r {
                Some(h) => last_with_path(self.records(), path@) == Some(h@),
                None => last_with_path(self.records(), path@) is None,
            },
    {
        match self.last_place(path) {
            Some(j) => Some(&self.headers[j]),
            None => None,
        }
    }

    /// Whether one of the records names the path `path`.
    pub fn names(&self, path: &NormPath) -> (r: bool)
        ensures
            r == names_path(self.records(), path@),
    {
        proof {
            lemma_last_with_path(self.records(), path@);
        }
        self.last_place(path).is_some()
    }
}

} // verus!
