//! The engine: from the archives of some layers to one archive of what
//! they share and one archive each of what is left.
//!
//! A record is a candidate where every archive has it among the entries that
//! may be shared, all 512 bytes the same. A candidate is shared where its
//! content is the same in every archive as well. The shared layer holds the
//! shared records. The layer of an archive holds those of its records whose
//! path no shared record names, and the entries that are passed through.

use crate::archive::{
    archive_classified, entries_view, get_archive_entries, ArchiveEntry, Classified,
};
use crate::error::Error;
use crate::header::{header_path, header_size, HashableHeader};
use crate::headermap::{
    content_of, get_header_map, keys_of, last_index_of, lemma_keys_of, lemma_last_index_of,
    HeaderMap,
};
use crate::layer::{
    chosen_view, layer_bytes, make_layer_tar, DirectoryPolicy, LayerEntry, Misplaced, PolicyView,
};
use crate::path::split;
use crate::shared::{names_path, SharedRecords};
use crate::util::{
    common_keys, contents, find_common_keys, in_all, keep, key_lists,
    lemma_common_keys, lemma_keep, readers_identical,
};
use vstd::prelude::*;

verus! {

/// Where a run was given up, and why.
#[derive(Clone, Copy, Debug, PartialEq, Eq)]
pub enum Failure {
    /// The archive with this number could not be read; where it could be
    /// read up to an entry, the number of that entry is given.
    Input { archive: usize, entry: Option<usize>, error: Error },
    /// The shared layer could not be written: the entry with this record
    /// could not be placed.
    Common { record: HashableHeader, error: Error },
    /// The layer of the archive with this number could not be written: the
    /// entry with this record could not be placed.
    Individual { archive: usize, record: HashableHeader, error: Error },
}

/// A failure as the contracts see it.
pub enum FailureView {
    Input { archive: usize, entry: Option<usize>, error: Error },
    Common { record: Seq<u8>, error: Error },
    Individual { archive: usize, record: Seq<u8>, error: Error },
}

impl View for Failure {
    type V = FailureView;

    open spec fn view(&self) -> FailureView {
        match *self {
            Failure::Input { archive, entry, error } => FailureView::Input {
                archive,
                entry,
                error,
            },
            Failure::Common { record, error } => FailureView::Common { record: record@, error },
            Failure::Individual { archive, record, error } => FailureView::Individual {
                archive,
                record: record@,
                error,
            },
        }
    }
}

/// What the engine counted on the way.
#[derive(Clone, Copy, Debug, PartialEq, Eq, Structural)]
pub struct Report {
    /// The number of candidates.
    pub candidates: usize,
    /// The sizes that the candidates' records give, added up.
    pub candidate_bytes: u64,
    /// The number of shared records.
    pub shared: usize,
    /// The sizes that the shared records give, added up.
    pub shared_bytes: u64,
}

/// The archives that the engine makes.
#[derive(Debug)]
pub struct Layers {
    /// The archive of what all inputs share.
    pub common: Vec<u8>,
    /// For each input, the archive of what is left of it.
    pub individual: Vec<Vec<u8>>,
    /// What was counted on the way.
    pub report: Report,
}

/// The archives as the contracts see them.
pub struct LayersView {
    pub common: Seq<u8>,
    pub individual: Seq<Seq<u8>>,
    pub report: Report,
}

impl View for Layers {
    type V = LayersView;

    open spec fn view(&self) -> LayersView {
        LayersView {
            common: self.common@,
            individual: Seq::new(self.individual@.len(), |i: int| self.individual@[i]@),
            report: self.report,
        }
    }
}

/// For each archive, the distinct records of its shareable entries.
pub open spec fn key_lists_of(normals: Seq<Seq<(Seq<u8>, Seq<u8>)>>) -> Seq<Seq<Seq<u8>>> {
    Seq::new(normals.len(), |i: int| keys_of(normals[i]))
}

/// The candidates: the records that every archive has.
pub open spec fn candidates_of(normals: Seq<Seq<(Seq<u8>, Seq<u8>)>>) -> Seq<Seq<u8>> {
    common_keys(key_lists_of(normals))
}

/// Whether the record `h` has the same content in every archive.
pub open spec fn same_content(normals: Seq<Seq<(Seq<u8>, Seq<u8>)>>, h: Seq<u8>) -> bool {
    forall|i: int|
        0 <= i < normals.len() ==> content_of(#[trigger] normals[i], h) == content_of(
            normals[0],
            h,
        )
}

/// The shared records: the candidates whose content is the same in every
/// archive.
pub open spec fn shared_of(normals: Seq<Seq<(Seq<u8>, Seq<u8>)>>) -> Seq<Seq<u8>> {
    keep(candidates_of(normals), |h: Seq<u8>| same_content(normals, h))
}

/// The records `keys`, each with the content that `entries` hold for it.
pub open spec fn with_content(keys: Seq<Seq<u8>>, entries: Seq<(Seq<u8>, Seq<u8>)>) -> Seq<
    (Seq<u8>, Seq<u8>),
> {
    Seq::new(keys.len(), |j: int| (keys[j], content_of(entries, keys[j])))
}

/// The entries of the shared layer: the shared records with their content,
/// taken from the first archive.
pub open spec fn common_chosen(normals: Seq<Seq<(Seq<u8>, Seq<u8>)>>) -> Seq<(Seq<u8>, Seq<u8>)> {
    if normals.len() == 0 {
        Seq::empty()
    } else {
        with_content(shared_of(normals), normals[0])
    }
}

/// Whether one of the records `shared` names the path that `h` names.
pub open spec fn names_shared_path(shared: Seq<Seq<u8>>, h: Seq<u8>) -> bool {
    names_path(shared, split(header_path(h)))
}

/// The records that are left to the archive `i`: those whose path no shared
/// record names.
pub open spec fn own_keys(normals: Seq<Seq<(Seq<u8>, Seq<u8>)>>, i: int) -> Seq<Seq<u8>> {
    keep(keys_of(normals[i]), |h: Seq<u8>| !names_shared_path(shared_of(normals), h))
}

/// The chosen entries of the layer of the archive `i`.
pub open spec fn individual_chosen(normals: Seq<Seq<(Seq<u8>, Seq<u8>)>>, i: int) -> Seq<
    (Seq<u8>, Seq<u8>),
> {
    with_content(own_keys(normals, i), normals[i])
}

/// The layers of the first `n` archives. It fails at the first of them whose
/// layer cannot be written.
pub open spec fn individual_layers(
    normals: Seq<Seq<(Seq<u8>, Seq<u8>)>>,
    verbatims: Seq<Seq<(Seq<u8>, Seq<u8>)>>,
    n: int,
) -> Result<Seq<Seq<u8>>, FailureView>
    decreases n,
{
    if n <= 0 {
        Ok(Seq::empty())
    } else {
        match individual_layers(normals, verbatims, n - 1) {
            Err(f) => Err(f),
            Ok(before) => match layer_bytes(
                individual_chosen(normals, n - 1),
                verbatims[n - 1],
                PolicyView::FromCommon(shared_of(normals)),
            ) {
                Err(e) => Err(
                    FailureView::Individual {
                        archive: (n - 1) as usize,
                        record: individual_chosen(normals, n - 1)[e.entry as int].0,
                        error: e.error,
                    },
                ),
                Ok(bytes) => Ok(before.push(bytes)),
            },
        }
    }
}

/// The sum of two sizes, or the largest 64-bit number where it is larger.
pub open spec fn capped_sum(a: u64, b: u64) -> u64 {
    if a + b > u64::MAX {
        u64::MAX
    } else {
        (a + b) as u64
    }
}

/// The sizes that the records `keys` give, added up and capped at the
/// largest 64-bit number. A size that cannot be read counts as nothing.
pub open spec fn declared_bytes(keys: Seq<Seq<u8>>) -> u64
    decreases keys.len(),
{
    if keys.len() == 0 {
        0
    } else {
        capped_sum(
            declared_bytes(keys.drop_last()),
            match header_size(keys.last()) {
                Some(n) => n,
                None => 0,
            },
        )
    }
}

/// What the engine counts.
pub open spec fn report_of(normals: Seq<Seq<(Seq<u8>, Seq<u8>)>>) -> Report {
    Report {
        candidates: candidates_of(normals).len() as usize,
        candidate_bytes: declared_bytes(candidates_of(normals)),
        shared: shared_of(normals).len() as usize,
        shared_bytes: declared_bytes(shared_of(normals)),
    }
}

/// What the engine makes of archives whose entries have been sorted into
/// those that may be shared and those that are passed through.
pub open spec fn commonised(
    normals: Seq<Seq<(Seq<u8>, Seq<u8>)>>,
    verbatims: Seq<Seq<(Seq<u8>, Seq<u8>)>>,
) -> Result<LayersView, FailureView> {
    match layer_bytes(common_chosen(normals), Seq::empty(), PolicyView::Placeholder) {
        Err(e) => Err(
            FailureView::Common { record: common_chosen(normals)[e.entry as int].0, error: e.error },
        ),
        Ok(common) => match individual_layers(normals, verbatims, normals.len() as int) {
            Err(f) => Err(f),
            Ok(individual) => Ok(LayersView { common, individual, report: report_of(normals) }),
        },
    }
}

/// The first `n` archives, read and sorted. It fails at the first of them
/// that cannot be read.
pub open spec fn classified_inputs(archives: Seq<Seq<u8>>, n: int) -> Result<
    Seq<(Seq<(Seq<u8>, Seq<u8>)>, Seq<(Seq<u8>, Seq<u8>)>)>,
    FailureView,
>
    decreases n,
{
    if n <= 0 {
        Ok(Seq::empty())
    } else {
        match classified_inputs(archives, n - 1) {
            Err(f) => Err(f),
            Ok(before) => match archive_classified(archives[n - 1]) {
                Err(e) => Err(
                    FailureView::Input { archive: (n - 1) as usize, entry: e.entry, error: e.error },
                ),
                Ok(c) => Ok(before.push(c)),
            },
        }
    }
}

/// The shareable entries of each of `inputs`.
pub open spec fn firsts(inputs: Seq<(Seq<(Seq<u8>, Seq<u8>)>, Seq<(Seq<u8>, Seq<u8>)>)>) -> Seq<
    Seq<(Seq<u8>, Seq<u8>)>,
> {
    Seq::new(inputs.len(), |i: int| inputs[i].0)
}

/// The entries of each of `inputs` that are passed through.
pub open spec fn seconds(inputs: Seq<(Seq<(Seq<u8>, Seq<u8>)>, Seq<(Seq<u8>, Seq<u8>)>)>) -> Seq<
    Seq<(Seq<u8>, Seq<u8>)>,
> {
    Seq::new(inputs.len(), |i: int| inputs[i].1)
}

/// What the engine makes of the archives `archives`.
pub open spec fn commonised_archives(archives: Seq<Seq<u8>>) -> Result<LayersView, FailureView> {
    match classified_inputs(archives, archives.len() as int) {
        Err(f) => Err(f),
        Ok(inputs) => commonised(firsts(inputs), seconds(inputs)),
    }
}

/// Whether one of `entries` has the record `h`.
pub open spec fn holds_record(entries: Seq<(Seq<u8>, Seq<u8>)>, h: Seq<u8>) -> bool {
    exists|k: int| 0 <= k < entries.len() && (#[trigger] entries[k]).0 == h
}

/// Whether every archive has the record `h` among its shareable entries.
pub open spec fn held_by_all(normals: Seq<Seq<(Seq<u8>, Seq<u8>)>>, h: Seq<u8>) -> bool {
    forall|i: int| 0 <= i < normals.len() ==> holds_record(#[trigger] normals[i], h)
}

/// The keys of a list hold a record exactly if one of the entries has it.
pub proof fn lemma_keys_hold(entries: Seq<(Seq<u8>, Seq<u8>)>, h: Seq<u8>)
    ensures
        keys_of(entries).contains(h) <==> holds_record(entries, h),
{
    lemma_keys_of(entries);
    lemma_last_index_of(entries, h);
    if holds_record(entries, h) {
        let k = choose|k: int| 0 <= k < entries.len() && (#[trigger] entries[k]).0 == h;
        assert(keys_of(entries).contains(entries[k].0));
    }
}

/// A record is shared exactly if every archive has it, all 512 bytes the
/// same, among its shareable entries, and its content is the same in every
/// archive.
pub proof fn lemma_shared_records(normals: Seq<Seq<(Seq<u8>, Seq<u8>)>>, h: Seq<u8>)
    ensures
        shared_of(normals).contains(h) <==> normals.len() > 0 && held_by_all(normals, h)
            && same_content(normals, h),
{
    let lists = key_lists_of(normals);
    lemma_common_keys(lists);
    lemma_keep(candidates_of(normals), |x: Seq<u8>| same_content(normals, x));
    if in_all(lists, h) {
        assert forall|i: int| 0 <= i < normals.len() implies holds_record(
            #[trigger] normals[i],
            h,
        ) by {
            assert(lists[i].contains(h));
            lemma_keys_hold(normals[i], h);
        }
    }
    if held_by_all(normals, h) {
        assert forall|i: int| 0 <= i < lists.len() implies (#[trigger] lists[i]).contains(h) by {
            assert(holds_record(normals[i], h));
            lemma_keys_hold(normals[i], h);
        }
    }
}

/// A record that one archive does not have, or has with another content, is
/// not shared. So a change of one byte of a file's record or of its content
/// in one archive takes the file out of the shared layer.
pub proof fn lemma_difference_excludes(normals: Seq<Seq<(Seq<u8>, Seq<u8>)>>, h: Seq<u8>, i: int)
    requires
        0 <= i < normals.len(),
        !holds_record(normals[i], h) || content_of(normals[i], h) != content_of(normals[0], h),
    ensures
        !shared_of(normals).contains(h),
{
    lemma_shared_records(normals, h);
}

/// The shared layer holds as chosen entries the shared records and no
/// others: a record is written there, apart from the directories made on
/// the way, exactly if it is shared.
pub proof fn lemma_common_layer(normals: Seq<Seq<(Seq<u8>, Seq<u8>)>>, e: (Seq<u8>, Seq<u8>))
    ensures
        crate::layer::lay_out(common_chosen(normals), PolicyView::Placeholder) matches Ok(l) ==> (
        crate::layer::written_as_chosen(l, e) <==> shared_of(normals).contains(e.0) && e.1
            == content_of(normals[0], e.0)),
{
    let chosen = common_chosen(normals);
    crate::layer::lemma_written_as_chosen(chosen, PolicyView::Placeholder, e);
    lemma_shared_records(normals, e.0);
    if chosen.contains(e) {
        let j = choose|j: int| 0 <= j < chosen.len() && chosen[j] == e;
        assert(shared_of(normals)[j] == e.0);
    }
    if shared_of(normals).contains(e.0) && e.1 == content_of(normals[0], e.0) {
        let j = choose|j: int| 0 <= j < shared_of(normals).len() && shared_of(normals)[j] == e.0;
        assert(chosen[j] == e);
    }
}

/// Whether no two of `entries` name the same path.
pub open spec fn paths_distinct(entries: Seq<(Seq<u8>, Seq<u8>)>) -> bool {
    forall|a: int, b: int|
        0 <= a < b < entries.len() ==> split(header_path((#[trigger] entries[a]).0)) != split(
            header_path((#[trigger] entries[b]).0),
        )
}

/// A shareable entry of an archive in which no two of them name the same
/// path is chosen for exactly one layer: for the shared layer where its
/// record is shared, and for the layer of its archive where it is not.
pub proof fn lemma_chosen_once(normals: Seq<Seq<(Seq<u8>, Seq<u8>)>>, i: int, k: int)
    requires
        0 <= i < normals.len(),
        0 <= k < normals[i].len(),
        paths_distinct(normals[i]),
    ensures
        common_chosen(normals).contains(normals[i][k]) <==> shared_of(normals).contains(
            normals[i][k].0,
        ),
        individual_chosen(normals, i).contains(normals[i][k]) <==> !shared_of(normals).contains(
            normals[i][k].0,
        ),
{
    let entries = normals[i];
    let e = entries[k];
    let h = e.0;
    let shared = shared_of(normals);
    let own = own_keys(normals, i);
    let common = common_chosen(normals);
    let mine = individual_chosen(normals, i);
    lemma_shared_records(normals, h);
    lemma_last_index_of(entries, h);
    lemma_keys_of(entries);
    lemma_keep(keys_of(entries), |x: Seq<u8>| !names_shared_path(shared, x));
    // The entry is the only one in its archive with its record.
    assert(last_index_of(entries, h) == k) by {
        let last = last_index_of(entries, h);
        if last != k {
            assert(entries[last].0 == entries[k].0);
            if last < k {
                assert(entries[k].0 != h);
            }
        }
    }
    assert(content_of(entries, h) == e.1);
    if shared.contains(h) {
        assert(content_of(normals[i], h) == content_of(normals[0], h));
        let j = choose|j: int| 0 <= j < shared.len() && shared[j] == h;
        assert(common[j] == e);
        assert(names_shared_path(shared, h));
        if mine.contains(e) {
            let q = choose|q: int| 0 <= q < mine.len() && mine[q] == e;
            assert(own[q] == h);
            assert(own.contains(h));
        }
    } else {
        if common.contains(e) {
            let j = choose|j: int| 0 <= j < common.len() && common[j] == e;
            assert(shared[j] == h);
        }
        if names_shared_path(shared, h) {
            let j = choose|j: int|
                0 <= j < shared.len() && split(header_path(#[trigger] shared[j])) == split(
                    header_path(h),
                );
            let s = shared[j];
            assert(shared.contains(s));
            lemma_shared_records(normals, s);
            assert(holds_record(normals[i], s));
            let other = choose|other: int|
                0 <= other < entries.len() && (#[trigger] entries[other]).0 == s;
            if other < k {
                assert(split(header_path(entries[other].0)) != split(header_path(entries[k].0)));
            } else if k < other {
                assert(split(header_path(entries[k].0)) != split(header_path(entries[other].0)));
            }
        }
        assert(keys_of(entries).contains(entries[k].0));
        assert(own.contains(h));
        let q = choose|q: int| 0 <= q < own.len() && own[q] == h;
        assert(mine[q] == e);
    }
}

/// Every shareable entry of an archive in which no two of them name the same
/// path is written to exactly one layer: to the shared layer or to the layer
/// of its archive, never to both and never to neither.
pub proof fn lemma_written_once(normals: Seq<Seq<(Seq<u8>, Seq<u8>)>>, i: int, k: int)
    requires
        0 <= i < normals.len(),
        0 <= k < normals[i].len(),
        paths_distinct(normals[i]),
        crate::layer::lay_out(common_chosen(normals), PolicyView::Placeholder) is Ok,
        crate::layer::lay_out(
            individual_chosen(normals, i),
            PolicyView::FromCommon(shared_of(normals)),
        ) is Ok,
    ensures
        crate::layer::written_as_chosen(
            crate::layer::lay_out(common_chosen(normals), PolicyView::Placeholder)->Ok_0,
            normals[i][k],
        ) != crate::layer::written_as_chosen(
            crate::layer::lay_out(
                individual_chosen(normals, i),
                PolicyView::FromCommon(shared_of(normals)),
            )->Ok_0,
            normals[i][k],
        ),
{
    lemma_chosen_once(normals, i, k);
    crate::layer::lemma_written_as_chosen(
        common_chosen(normals),
        PolicyView::Placeholder,
        normals[i][k],
    );
    crate::layer::lemma_written_as_chosen(
        individual_chosen(normals, i),
        PolicyView::FromCommon(shared_of(normals)),
        normals[i][k],
    );
}

/// The engine's answer depends on the archives alone: two runs on the same
/// archives give the same layers, byte for byte, or fail in the same way.
pub proof fn lemma_same_archives_same_layers(
    archives: Seq<Seq<u8>>,
    first: Result<LayersView, FailureView>,
    second: Result<LayersView, FailureView>,
)
    requires
        first == commonised_archives(archives),
        second == commonised_archives(archives),
    ensures
        first == second,
{
}

/// The two lists of each of `inputs`.
pub open spec fn inputs_view(inputs: Seq<Classified>) -> Seq<
    (Seq<(Seq<u8>, Seq<u8>)>, Seq<(Seq<u8>, Seq<u8>)>),
> {
    Seq::new(
        inputs.len(),
        |i: int| (entries_view(inputs[i].normal@), entries_view(inputs[i].verbatim@)),
    )
}

/// The records of a list.
pub open spec fn headers_view(list: Seq<HashableHeader>) -> Seq<Seq<u8>> {
    Seq::new(list.len(), |i: int| list[i]@)
}

/// Adds up the sizes that the records give. The sum is capped at the largest
/// 64-bit number, and a size that cannot be read counts as nothing.
pub fn declared_size(list: &Vec<HashableHeader>) -> (r: u64)
    ensures
        r == declared_bytes(headers_view(list@)),
{
    let ghost all = headers_view(list@);
    let mut total: u64 = 0;
    let mut i: usize = 0;
    proof {
        assert(all.take(0) =~= Seq::<Seq<u8>>::empty());
    }
    while i < list.len()
        invariant
            i <= list@.len(),
            all == headers_view(list@),
            total == declared_bytes(all.take(i as int)),
        decreases list@.len() - i,
    {
        let size = match list[i].size() {
            Some(n) => n,
            None => 0,
        };
        proof {
            let now = all.take(i + 1);
            assert(now.drop_last() =~= all.take(i as int));
            assert(now.last() == list@[i as int]@);
        }
        total = if total > u64::MAX - size {
            u64::MAX
        } else {
            total + size
        };
        i += 1;
    }
    proof {
        assert(all.take(i as int) =~= all);
    }
    total
}

/// The content that `entries` hold for the record `h`, which is one of the
/// records of `map`.
fn content_for<'a>(map: &HeaderMap, entries: &'a Vec<ArchiveEntry>, h: &HashableHeader) -> (r:
    &'a [u8])
    requires
        map.maps(entries_view(entries@)),
        map.keys().contains(h@),
    ensures
        r@ == content_of(entries_view(entries@), h@),
{
    let ghost all = entries_view(entries@);
    proof {
        lemma_keys_of(all);
        lemma_last_index_of(all, h@);
    }
    match map.find(h) {
        Some(p) => {
            let slot = map.slot(p);
            assert(all[slot as int] == entries@[slot as int]@);
            entries[slot].data.as_slice()
        },
        None => {
            assert(false);
            &[]
        },
    }
}

/// Pairs each of the records `keys` with the content that `entries` hold for
/// it.
fn choose_entries<'a>(
    keys: &Vec<HashableHeader>,
    map: &HeaderMap,
    entries: &'a Vec<ArchiveEntry>,
) -> (r: Vec<LayerEntry<'a>>)
    requires
        map.maps(entries_view(entries@)),
        forall|j: int| 0 <= j < keys@.len() ==> map.keys().contains(#[trigger] keys@[j]@),
    ensures
        chosen_view(r@) == with_content(headers_view(keys@), entries_view(entries@)),
{
    let mut out: Vec<LayerEntry<'a>> = Vec::new();
    let mut j: usize = 0;
    while j < keys.len()
        invariant
            j <= keys@.len(),
            map.maps(entries_view(entries@)),
            forall|j: int| 0 <= j < keys@.len() ==> map.keys().contains(#[trigger] keys@[j]@),
            out@.len() == j,
            forall|q: int|
                0 <= q < j ==> (#[trigger] out@[q])@ == (
                    keys@[q]@,
                    content_of(entries_view(entries@), keys@[q]@),
                ),
        decreases keys@.len() - j,
    {
        let data = content_for(map, entries, &keys[j]);
        out.push(LayerEntry { header: keys[j], data });
        j += 1;
    }
    assert(chosen_view(out@) =~= with_content(headers_view(keys@), entries_view(entries@)));
    out
}

/// Lists the records of each input's shareable entries.
fn build_maps(inputs: &Vec<Classified>) -> (r: Vec<HeaderMap>)
    ensures
        r@.len() == inputs@.len(),
        forall|i: int|
            0 <= i < r@.len() ==> (#[trigger] r@[i]).maps(entries_view(inputs@[i].normal@)),
        key_lists(r@) == key_lists_of(firsts(inputs_view(inputs@))),
{
    let mut maps: Vec<HeaderMap> = Vec::new();
    let mut i: usize = 0;
    while i < inputs.len()
        invariant
            i <= inputs@.len(),
            maps@.len() == i,
            forall|j: int|
                0 <= j < i ==> (#[trigger] maps@[j]).maps(entries_view(inputs@[j].normal@)),
        decreases inputs@.len() - i,
    {
        let map = get_header_map(&inputs[i].normal);
        maps.push(map);
        i += 1;
    }
    proof {
        let normals = firsts(inputs_view(inputs@));
        assert forall|j: int| 0 <= j < maps@.len() implies key_lists(maps@)[j] == key_lists_of(
            normals,
        )[j] by {
            assert(maps@[j].maps(entries_view(inputs@[j].normal@)));
        }
        assert(key_lists(maps@) =~= key_lists_of(normals));
    }
    maps
}

/// Keeps the candidates whose content is the same in every input.
fn verified_records(
    candidates: &Vec<HashableHeader>,
    maps: &Vec<HeaderMap>,
    inputs: &Vec<Classified>,
) -> (r: Vec<HashableHeader>)
    requires
        maps@.len() == inputs@.len(),
        forall|i: int|
            0 <= i < maps@.len() ==> (#[trigger] maps@[i]).maps(entries_view(inputs@[i].normal@)),
        headers_view(candidates@) == candidates_of(firsts(inputs_view(inputs@))),
    ensures
        headers_view(r@) == shared_of(firsts(inputs_view(inputs@))),
{
    let ghost normals = firsts(inputs_view(inputs@));
    let ghost all = headers_view(candidates@);
    let ghost pred = |h: Seq<u8>| same_content(normals, h);
    let mut out: Vec<HashableHeader> = Vec::new();
    let mut c: usize = 0;
    proof {
        assert(headers_view(out@) =~= keep(all.take(0), pred));
        lemma_common_keys(key_lists_of(normals));
    }
    while c < candidates.len()
        invariant
            c <= candidates@.len(),
            maps@.len() == inputs@.len(),
            forall|i: int|
                0 <= i < maps@.len() ==> (#[trigger] maps@[i]).maps(
                    entries_view(inputs@[i].normal@),
                ),
            normals == firsts(inputs_view(inputs@)),
            all == headers_view(candidates@),
            all == candidates_of(normals),
            pred == (|h: Seq<u8>| same_content(normals, h)),
            forall|h: Seq<u8>| #[trigger]
                all.contains(h) ==> in_all(key_lists_of(normals), h),
            headers_view(out@) == keep(all.take(c as int), pred),
        decreases candidates@.len() - c,
    {
        let h = &candidates[c];
        proof {
            assert(all[c as int] == h@);
            assert(all.contains(h@));
        }
        let mut streams: Vec<&[u8]> = Vec::new();
        let mut i: usize = 0;
        while i < inputs.len()
            invariant
                i <= inputs@.len(),
                maps@.len() == inputs@.len(),
                forall|j: int|
                    0 <= j < maps@.len() ==> (#[trigger] maps@[j]).maps(
                        entries_view(inputs@[j].normal@),
                    ),
                normals == firsts(inputs_view(inputs@)),
                in_all(key_lists_of(normals), h@),
                streams@.len() == i,
                forall|j: int|
                    0 <= j < i ==> (#[trigger] streams@[j])@ == content_of(normals[j], h@),
            decreases inputs@.len() - i,
        {
            proof {
                assert(maps@[i as int].maps(entries_view(inputs@[i as int].normal@)));
                assert(key_lists_of(normals)[i as int].contains(h@));
                assert(normals[i as int] == entries_view(inputs@[i as int].normal@));
            }
            let data = content_for(&maps[i], &inputs[i].normal, h);
            streams.push(data);
            i += 1;
        }
        let same = readers_identical(streams.as_slice());
        proof {
            let cs = contents(streams@);
            assert(cs.len() == normals.len());
            assert forall|j: int| 0 <= j < cs.len() implies #[trigger] cs[j] == content_of(
                normals[j],
                h@,
            ) by {
                assert(cs[j] == streams@[j]@);
            }
            if same {
                assert forall|j: int| 0 <= j < normals.len() implies content_of(
                    #[trigger] normals[j],
                    h@,
                ) == content_of(normals[0], h@) by {
                    assert(cs[j] == cs[0]);
                }
            }
            if same_content(normals, h@) {
                assert forall|j: int| 0 <= j < cs.len() implies #[trigger] cs[j] == cs[0] by {
                    assert(content_of(normals[j], h@) == content_of(normals[0], h@));
                }
            }
            assert(same == pred(h@));
            let now = all.take(c + 1);
            assert(now.drop_last() =~= all.take(c as int));
            assert(now.last() == h@);
        }
        let ghost before = headers_view(out@);
        if same {
            out.push(*h);
            proof {
                assert(headers_view(out@) =~= before.push(h@));
            }
        }
        c += 1;
    }
    proof {
        assert(all.take(c as int) =~= all);
    }
    out
}

/// Keeps the records of `map` whose path none of the shared records names.
fn own_records(map: &HeaderMap, shared: &SharedRecords) -> (r: Vec<HashableHeader>)
    ensures
        headers_view(r@) == keep(
            map.keys(),
            |h: Seq<u8>| !names_shared_path(shared.records(), h),
        ),
        forall|j: int| 0 <= j < r@.len() ==> map.keys().contains(#[trigger] r@[j]@),
{
    let ghost common = shared.records();
    let ghost pred = |h: Seq<u8>| !names_shared_path(common, h);
    let mut out: Vec<HashableHeader> = Vec::new();
    let mut p: usize = 0;
    proof {
        assert(headers_view(out@) =~= keep(map.keys().take(0), pred));
    }
    while p < map.len()
        invariant
            p <= map.keys().len(),
            common == shared.records(),
            pred == (|h: Seq<u8>| !names_shared_path(common, h)),
            headers_view(out@) == keep(map.keys().take(p as int), pred),
            forall|j: int| 0 <= j < out@.len() ==> map.keys().contains(#[trigger] out@[j]@),
        decreases map.keys().len() - p,
    {
        let h = map.key(p);
        let named = shared.names(&h.path());
        proof {
            let now = map.keys().take(p + 1);
            assert(now.drop_last() =~= map.keys().take(p as int));
            assert(now.last() == h@);
            assert(map.keys()[p as int] == h@);
        }
        let ghost before = headers_view(out@);
        if !named {
            out.push(*h);
            proof {
                assert(headers_view(out@) =~= before.push(h@));
            }
        }
        p += 1;
    }
    proof {
        assert(map.keys().take(p as int) =~= map.keys());
    }
    out
}

/// Makes the layers of archives whose entries have been sorted into those
/// that may be shared and those that are passed through.
pub fn commonise_entries(inputs: &Vec<Classified>) -> (r: Result<Layers, Failure>)
    ensures
        match r {
            Ok(layers) => commonised(
                firsts(inputs_view(inputs@)),
                seconds(inputs_view(inputs@)),
            ) == Ok::<_, FailureView>(layers@),
            Err(f) => commonised(firsts(inputs_view(inputs@)), seconds(inputs_view(inputs@)))
                == Err::<LayersView, _>(f@),
        },
{
    let ghost normals = firsts(inputs_view(inputs@));
    let ghost verbatims = seconds(inputs_view(inputs@));
    let maps = build_maps(inputs);
    let candidates = find_common_keys(maps.as_slice());
    proof {
        assert(headers_view(candidates@) =~= candidates_of(normals));
    }
    let shared = verified_records(&candidates, &maps, inputs);
    let report = Report {
        candidates: candidates.len(),
        candidate_bytes: declared_size(&candidates),
        shared: shared.len(),
        shared_bytes: declared_size(&shared),
    };
    proof {
        lemma_common_keys(key_lists_of(normals));
        lemma_keep(candidates_of(normals), |h: Seq<u8>| same_content(normals, h));
    }
    let nothing: Vec<ArchiveEntry> = Vec::new();
    assert(entries_view(nothing@) =~= Seq::empty());
    let chosen: Vec<LayerEntry> = if inputs.len() == 0 {
        Vec::new()
    } else {
        proof {
            assert(maps@[0].maps(entries_view(inputs@[0].normal@)));
            assert(normals[0] == entries_view(inputs@[0].normal@));
            assert forall|j: int| 0 <= j < shared@.len() implies maps@[0].keys().contains(
                #[trigger] shared@[j]@,
            ) by {
                assert(headers_view(shared@)[j] == shared@[j]@);
                assert(shared_of(normals).contains(shared@[j]@));
                assert(candidates_of(normals).contains(shared@[j]@));
                assert(in_all(key_lists_of(normals), shared@[j]@));
                assert(key_lists_of(normals)[0].contains(shared@[j]@));
            }
        }
        choose_entries(&shared, &maps[0], &inputs[0].normal)
    };
    proof {
        assert(chosen_view(chosen@) =~= common_chosen(normals));
    }
    let common = match make_layer_tar(&chosen, &nothing, &DirectoryPolicy::Placeholder) {
        Ok(bytes) => bytes,
        Err(e) => {
            assert(chosen_view(chosen@)[e.entry as int] == chosen@[e.entry as int]@);
            return Err(Failure::Common { record: chosen[e.entry].header, error: e.error });
        },
    };
    let shared_records = SharedRecords::new(shared);
    let policy = DirectoryPolicy::FromCommon(&shared_records);
    proof {
        assert(shared_records.records() =~= shared_of(normals));
    }
    let mut individual: Vec<Vec<u8>> = Vec::new();
    let mut i: usize = 0;
    proof {
        assert(Seq::new(individual@.len(), |j: int| individual@[j]@) =~= Seq::<
            Seq<u8>,
        >::empty());
    }
    while i < inputs.len()
        invariant
            i <= inputs@.len(),
            maps@.len() == inputs@.len(),
            layer_bytes(common_chosen(normals), Seq::empty(), PolicyView::Placeholder) == Ok::<
                _,
                Misplaced,
            >(common@),
            forall|j: int|
                0 <= j < maps@.len() ==> (#[trigger] maps@[j]).maps(
                    entries_view(inputs@[j].normal@),
                ),
            normals == firsts(inputs_view(inputs@)),
            verbatims == seconds(inputs_view(inputs@)),
            shared_records.records() == shared_of(normals),
            policy@ == PolicyView::FromCommon(shared_of(normals)),
            individual_layers(normals, verbatims, i as int) == Ok::<_, FailureView>(
                Seq::new(individual@.len(), |j: int| individual@[j]@),
            ),
        decreases inputs@.len() - i,
    {
        proof {
            assert(maps@[i as int].maps(entries_view(inputs@[i as int].normal@)));
            assert(normals[i as int] == entries_view(inputs@[i as int].normal@));
            assert(verbatims[i as int] == entries_view(inputs@[i as int].verbatim@));
        }
        let own = own_records(&maps[i], &shared_records);
        let chosen = choose_entries(&own, &maps[i], &inputs[i].normal);
        proof {
            assert(headers_view(own@) == own_keys(normals, i as int));
            assert(chosen_view(chosen@) == individual_chosen(normals, i as int));
        }
        let ghost before = Seq::new(individual@.len(), |j: int| individual@[j]@);
        match make_layer_tar(&chosen, &inputs[i].verbatim, &policy) {
            Ok(bytes) => {
                individual.push(bytes);
                proof {
                    assert(Seq::new(individual@.len(), |j: int| individual@[j]@) =~= before.push(
                        bytes@,
                    ));
                }
            },
            Err(e) => {
                let failure = Failure::Individual {
                    archive: i,
                    record: chosen[e.entry].header,
                    error: e.error,
                };
                proof {
                    assert(chosen_view(chosen@)[e.entry as int] == chosen@[e.entry as int]@);
                    assert(individual_layers(normals, verbatims, i + 1) == Err::<
                        Seq<Seq<u8>>,
                        _,
                    >(failure@));
                    lemma_individual_layers_fail(normals, verbatims, i + 1, normals.len() as int);
                }
                return Err(failure);
            },
        }
        i += 1;
    }
    Ok(Layers { common, individual, report })
}

/// Where the layers of the first `n` archives cannot be written, those of
/// more archives fail in the same way.
proof fn lemma_individual_layers_fail(
    normals: Seq<Seq<(Seq<u8>, Seq<u8>)>>,
    verbatims: Seq<Seq<(Seq<u8>, Seq<u8>)>>,
    n: int,
    m: int,
)
    requires
        n <= m,
        individual_layers(normals, verbatims, n) is Err,
    ensures
        individual_layers(normals, verbatims, m) == individual_layers(normals, verbatims, n),
    decreases m - n,
{
    if n < m {
        lemma_individual_layers_fail(normals, verbatims, n, m - 1);
    }
}

/// Where one of the first `n` archives cannot be read, reading more fails in
/// the same way.
proof fn lemma_classified_inputs_fail(archives: Seq<Seq<u8>>, n: int, m: int)
    requires
        n <= m,
        classified_inputs(archives, n) is Err,
    ensures
        classified_inputs(archives, m) == classified_inputs(archives, n),
    decreases m - n,
{
    if n < m {
        lemma_classified_inputs_fail(archives, n, m - 1);
    }
}

/// Splits the archives of some layers into one archive of what they share
/// and one archive each of what is left.
pub fn commonise_tars(archives: &[Vec<u8>]) -> (r: Result<Layers, Failure>)
    ensures
        match r {
            Ok(layers) => commonised_archives(Seq::new(archives@.len(), |i: int| archives@[i]@))
                == Ok::<_, FailureView>(layers@),
            Err(f) => commonised_archives(Seq::new(archives@.len(), |i: int| archives@[i]@))
                == Err::<LayersView, _>(f@),
        },
{
    let ghost all = Seq::new(archives@.len(), |i: int| archives@[i]@);
    let mut inputs: Vec<Classified> = Vec::new();
    let mut i: usize = 0;
    proof {
        assert(inputs_view(inputs@) =~= Seq::empty());
    }
    while i < archives.len()
        invariant
            i <= archives@.len(),
            all == Seq::new(archives@.len(), |i: int| archives@[i]@),
            inputs@.len() == i,
            classified_inputs(all, i as int) == Ok::<_, FailureView>(inputs_view(inputs@)),
        decreases archives@.len() - i,
    {
        let ghost before = inputs_view(inputs@);
        assert(all[i as int] == archives@[i as int]@);
        match get_archive_entries(archives[i].as_slice()) {
            Ok(c) => {
                inputs.push(c);
                proof {
                    assert(inputs_view(inputs@) =~= before.push(
                        (entries_view(c.normal@), entries_view(c.verbatim@)),
                    ));
                }
            },
            Err(e) => {
                proof {
                    assert(classified_inputs(all, i + 1) is Err);
                    lemma_classified_inputs_fail(all, i + 1, all.len() as int);
                }
                return Err(Failure::Input { archive: i, entry: e.entry, error: e.error });
            },
        }
        i += 1;
    }
    commonise_entries(&inputs)
}

} // verus!
