//! Reading an archive: its entries in the order in which they stand, and
//! which of them may be shared between layers.
//!
//! An entry of type `x` carries extended header records for the entry after
//! it. This engine does not apply them. It passes both entries through as
//! they are, and where the second is a directory it also passes through
//! whatever lies below it.

use crate::error::Error;
use crate::header::{
    header_path, is_directory, is_vendor_type, type_flag, well_formed, HashableHeader,
    TYPE_EXTENDED, TYPE_GLOBAL,
};
use crate::path::{bytes_equal, copy_range, is_absolute, is_prefix, split, NormPath, SEPARATOR};
use crate::pax::{lookup, parse_extended_header_data, records_of};
use vstd::prelude::*;
use vstd::slice::slice_subrange;
use vstd::utf8::valid_utf8;

verus! {

/// One entry of an archive: its header record and its content.
#[derive(Debug)]
pub struct ArchiveEntry {
    pub header: HashableHeader,
    pub data: Vec<u8>,
}

impl View for ArchiveEntry {
    type V = (Seq<u8>, Seq<u8>);

    open spec fn view(&self) -> (Seq<u8>, Seq<u8>) {
        (self.header@, self.data@)
    }
}

/// Why an archive is refused, and at which of its entries; there is no entry
/// where the archive cannot be read at all.
#[derive(Clone, Copy, Debug, PartialEq, Eq, Structural)]
pub struct Rejected {
    pub entry: Option<usize>,
    pub error: Error,
}

/// The entries of a list, each as its record and its content.
pub open spec fn entries_view(entries: Seq<ArchiveEntry>) -> Seq<(Seq<u8>, Seq<u8>)> {
    Seq::new(entries.len(), |i: int| entries[i]@)
}

/// The entries that the `tar` crate finds in an archive when it reads it raw,
/// each as its record and its content; `None` where it reports an error.
pub uninterp spec fn archive_entries(archive: Seq<u8>) -> Option<Seq<(Seq<u8>, Seq<u8>)>>;

/// `tar::Archive::entries`, read raw and to the end: each entry's record and
/// its content, in the order of the archive.
#[verifier::external_body]
fn tar_entries(archive: &[u8]) -> (r: Option<Vec<ArchiveEntry>>)
    ensures
        match r {
            Some(v) => archive_entries(archive@) == Some(entries_view(v@)),
            None => archive_entries(archive@) is None,
        },
{
    let mut ar = tar::Archive::new(archive);
    let mut out = Vec::new();
    for e in ar.entries().ok()?.raw(true) {
        let mut e = e.ok()?;
        let mut data = Vec::new();
        std::io::Read::read_to_end(&mut e, &mut data).ok()?;
        out.push(ArchiveEntry { header: HashableHeader { bytes: *e.header().as_bytes() }, data });
    }
    Some(out)
}

/// Whether every record of a list is well formed.
pub open spec fn all_well_formed(entries: Seq<(Seq<u8>, Seq<u8>)>) -> bool {
    forall|i: int| 0 <= i < entries.len() ==> well_formed((#[trigger] entries[i]).0)
}

/// The place of the first record that is not well formed, or the length of
/// the list where all are.
pub open spec fn first_unfit(entries: Seq<(Seq<u8>, Seq<u8>)>) -> int
    decreases entries.len(),
{
    if entries.len() == 0 {
        0
    } else if !well_formed(entries[0].0) {
        0
    } else {
        1 + first_unfit(entries.drop_first())
    }
}

/// `first_unfit` is the place of a record that is not well formed, with none
/// before it, or the length of the list.
pub proof fn lemma_first_unfit(entries: Seq<(Seq<u8>, Seq<u8>)>)
    ensures
        0 <= first_unfit(entries) <= entries.len(),
        forall|j: int| 0 <= j < first_unfit(entries) ==> well_formed((#[trigger] entries[j]).0),
        first_unfit(entries) < entries.len() ==> !well_formed(entries[first_unfit(entries)].0),
        first_unfit(entries) == entries.len() <==> all_well_formed(entries),
    decreases entries.len(),
{
    if entries.len() != 0 && well_formed(entries[0].0) {
        let rest = entries.drop_first();
        lemma_first_unfit(rest);
        assert forall|j: int| 0 <= j < first_unfit(entries) implies well_formed(
            (#[trigger] entries[j]).0,
        ) by {
            if j > 0 {
                assert(entries[j] == rest[j - 1]);
            }
        }
        if all_well_formed(rest) {
            assert forall|j: int| 0 <= j < entries.len() implies well_formed(
                (#[trigger] entries[j]).0,
            ) by {
                if j > 0 {
                    assert(entries[j] == rest[j - 1]);
                }
            }
        }
        if all_well_formed(entries) {
            assert forall|j: int| 0 <= j < rest.len() implies well_formed(
                (#[trigger] rest[j]).0,
            ) by {
                assert(rest[j] == entries[j + 1]);
            }
        }
    } else if entries.len() != 0 {
        assert(!well_formed(entries[0].0));
    }
}

/// A place whose record is not well formed, with only well-formed records
/// before it, is `first_unfit`.
proof fn lemma_first_unfit_is(entries: Seq<(Seq<u8>, Seq<u8>)>, i: int)
    requires
        0 <= i < entries.len(),
        forall|j: int| 0 <= j < i ==> well_formed((#[trigger] entries[j]).0),
        !well_formed(entries[i].0),
    ensures
        first_unfit(entries) == i,
{
    lemma_first_unfit(entries);
    let f = first_unfit(entries);
    if f < i {
        assert(well_formed(entries[f].0));
    } else if f > i {
        assert(well_formed(entries[i].0));
    }
}

/// The entries of an archive. An archive that cannot be read is malformed,
/// and so is one that holds a record that is not well formed; the first such
/// record is named.
pub open spec fn entries_of(archive: Seq<u8>) -> Result<Seq<(Seq<u8>, Seq<u8>)>, Rejected> {
    match archive_entries(archive) {
        Some(entries) => if all_well_formed(entries) {
            Ok(entries)
        } else {
            Err(Rejected { entry: Some(first_unfit(entries) as usize), error: Error::Format })
        },
        None => Err(Rejected { entry: None, error: Error::Format }),
    }
}

/// Reads the entries of an archive.
pub fn read_archive(archive: &[u8]) -> (r: Result<Vec<ArchiveEntry>, Rejected>)
    ensures
        match r {
            Ok(v) => entries_of(archive@) == Ok::<_, Rejected>(entries_view(v@)),
            Err(e) => entries_of(archive@) == Err::<Seq<(Seq<u8>, Seq<u8>)>, _>(e),
        },
{
    let entries = match tar_entries(archive) {
        Some(v) => v,
        None => {
            return Err(Rejected { entry: None, error: Error::Format });
        },
    };
    let mut i: usize = 0;
    while i < entries.len()
        invariant
            i <= entries@.len(),
            archive_entries(archive@) == Some(entries_view(entries@)),
            forall|j: int| 0 <= j < i ==> well_formed((#[trigger] entries_view(entries@)[j]).0),
        decreases entries@.len() - i,
    {
        let ok = entries[i].header.is_well_formed();
        proof {
            assert(entries_view(entries@)[i as int].0 == entries[i as int].header@);
        }
        if !ok {
            proof {
                lemma_first_unfit_is(entries_view(entries@), i as int);
            }
            return Err(Rejected { entry: Some(i), error: Error::Format });
        }
        i += 1;
    }
    Ok(entries)
}

/// The key of the record that gives an entry another path.
pub open spec fn path_key() -> Seq<u8> {
    seq![0x70u8, 0x61u8, 0x74u8, 0x68u8]
}

/// What the reader remembers from one entry to the next.
pub struct ReaderState {
    /// Whether the entry before was an extended header.
    pub pending: bool,
    /// The path that the extended header gives to the entry after it, or no
    /// bytes where it gives none.
    pub override_path: Seq<u8>,
    /// The directories below which everything is passed through.
    pub skipped: Seq<Seq<Seq<u8>>>,
    /// For each entry read so far, whether it may be shared.
    pub shareable: Seq<bool>,
}

/// The reader before the first entry.
pub open spec fn initial_state() -> ReaderState {
    ReaderState {
        pending: false,
        override_path: Seq::empty(),
        skipped: Seq::empty(),
        shareable: Seq::empty(),
    }
}

/// Whether `path` lies below one of the directories `skipped`.
pub open spec fn below_skipped(path: Seq<Seq<u8>>, skipped: Seq<Seq<Seq<u8>>>) -> bool {
    exists|i: int|
        0 <= i < skipped.len() && (#[trigger] skipped[i]).len() < path.len() && is_prefix(
            skipped[i],
            path,
        )
}

/// Whether the path that a directory's record names agrees with the one that
/// the extended header before it gives: where both are given, the record's
/// must be text and the beginning of the other.
pub open spec fn paths_agree(head: Seq<u8>, over: Seq<u8>) -> bool {
    (head.len() == 0) != (over.len() == 0) || (valid_utf8(head) && head.len() <= over.len()
        && over.take(head.len() as int) == head)
}

/// The reader after one more entry.
pub open spec fn step(st: ReaderState, entry: (Seq<u8>, Seq<u8>)) -> Result<ReaderState, Error> {
    let flag = type_flag(entry.0);
    let head = header_path(entry.0);
    if flag == TYPE_GLOBAL {
        Err(Error::Format)
    } else if flag == TYPE_EXTENDED {
        if st.pending {
            Err(Error::Sequence)
        } else {
            match records_of(entry.1) {
                None => Err(Error::Format),
                Some(records) => Ok(
                    ReaderState {
                        pending: true,
                        override_path: match lookup(records, path_key()) {
                            Some(p) => p,
                            None => Seq::empty(),
                        },
                        skipped: st.skipped,
                        shareable: st.shareable.push(false),
                    },
                ),
            }
        }
    } else if is_vendor_type(flag) {
        Err(Error::Format)
    } else if st.pending {
        if is_directory(entry.0) {
            let path = if st.override_path.len() > 0 {
                st.override_path
            } else {
                head
            };
            if !paths_agree(head, st.override_path) || is_absolute(path) {
                Err(Error::Format)
            } else {
                Ok(
                    ReaderState {
                        pending: false,
                        override_path: Seq::empty(),
                        skipped: st.skipped.push(split(path)),
                        shareable: st.shareable.push(false),
                    },
                )
            }
        } else {
            Ok(
                ReaderState {
                    pending: false,
                    override_path: Seq::empty(),
                    skipped: st.skipped,
                    shareable: st.shareable.push(false),
                },
            )
        }
    } else if head.len() == 0 || is_absolute(head) {
        Err(Error::Format)
    } else {
        Ok(
            ReaderState {
                shareable: st.shareable.push(!below_skipped(split(head), st.skipped)),
                ..st
            },
        )
    }
}

/// The reader after the entries from `k` on. Where the reader gives up, the
/// entry at which it does is named. An extended header at the very end has no
/// entry to describe.
pub open spec fn run_from(entries: Seq<(Seq<u8>, Seq<u8>)>, k: int, st: ReaderState) -> Result<
    ReaderState,
    Rejected,
>
    decreases entries.len() - k,
{
    if k >= entries.len() || k < 0 {
        if st.pending {
            Err(Rejected { entry: Some((entries.len() - 1) as usize), error: Error::Sequence })
        } else {
            Ok(st)
        }
    } else {
        match step(st, entries[k]) {
            Err(e) => Err(Rejected { entry: Some(k as usize), error: e }),
            Ok(next) => run_from(entries, k + 1, next),
        }
    }
}

/// For each entry of an archive, whether it may be shared between layers.
pub open spec fn shareable_of(entries: Seq<(Seq<u8>, Seq<u8>)>) -> Result<Seq<bool>, Rejected> {
    match run_from(entries, 0, initial_state()) {
        Ok(st) => Ok(st.shareable),
        Err(e) => Err(e),
    }
}

/// The entries whose mark is `want`, in their order.
pub open spec fn select(entries: Seq<(Seq<u8>, Seq<u8>)>, marks: Seq<bool>, want: bool) -> Seq<
    (Seq<u8>, Seq<u8>),
>
    decreases entries.len(),
{
    if entries.len() == 0 || marks.len() != entries.len() {
        Seq::empty()
    } else if marks.last() == want {
        select(entries.drop_last(), marks.drop_last(), want).push(entries.last())
    } else {
        select(entries.drop_last(), marks.drop_last(), want)
    }
}

/// The entries of an archive in two lists: those that may be shared, and
/// those that are passed through as they are.
pub open spec fn classified(entries: Seq<(Seq<u8>, Seq<u8>)>) -> Result<
    (Seq<(Seq<u8>, Seq<u8>)>, Seq<(Seq<u8>, Seq<u8>)>),
    Rejected,
> {
    match shareable_of(entries) {
        Ok(marks) => Ok((select(entries, marks, true), select(entries, marks, false))),
        Err(e) => Err(e),
    }
}

/// One step adds one mark.
pub proof fn lemma_step_marks(st: ReaderState, entry: (Seq<u8>, Seq<u8>))
    ensures
        step(st, entry) matches Ok(next) ==> next.shareable.len() == st.shareable.len() + 1
            && next.shareable.drop_last() == st.shareable,
{
    match step(st, entry) {
        Ok(next) => {
            assert(next.shareable.drop_last() =~= st.shareable);
        },
        Err(_) => {},
    }
}

/// A run gives every entry a mark.
pub proof fn lemma_run_marks(entries: Seq<(Seq<u8>, Seq<u8>)>, k: int, st: ReaderState)
    requires
        0 <= k <= entries.len(),
        st.shareable.len() == k,
    ensures
        run_from(entries, k, st) matches Ok(last) ==> last.shareable.len() == entries.len()
            && last.shareable.take(k) == st.shareable,
    decreases entries.len() - k,
{
    if k < entries.len() {
        match step(st, entries[k]) {
            Err(_) => {},
            Ok(next) => {
                lemma_step_marks(st, entries[k]);
                lemma_run_marks(entries, k + 1, next);
                match run_from(entries, k + 1, next) {
                    Ok(last) => {
                        assert(last.shareable.take(k) =~= last.shareable.take(k + 1).drop_last());
                    },
                    Err(_) => {},
                }
            },
        }
    } else {
        assert(st.shareable.take(k) =~= st.shareable);
    }
}

/// The two lists that `select` makes hold every entry once between them.
pub proof fn lemma_select_partition(entries: Seq<(Seq<u8>, Seq<u8>)>, marks: Seq<bool>)
    requires
        marks.len() == entries.len(),
    ensures
        select(entries, marks, true).to_multiset().add(
            select(entries, marks, false).to_multiset(),
        ) == entries.to_multiset(),
        select(entries, marks, true).len() + select(entries, marks, false).len() == entries.len(),
    decreases entries.len(),
{
    if entries.len() == 0 {
        assert(entries.to_multiset() =~= select(entries, marks, true).to_multiset().add(
            select(entries, marks, false).to_multiset(),
        )) by {
            entries.to_multiset_ensures();
            select(entries, marks, true).to_multiset_ensures();
            select(entries, marks, false).to_multiset_ensures();
        }
    } else {
        let rest = entries.drop_last();
        let rest_marks = marks.drop_last();
        lemma_select_partition(rest, rest_marks);
        let yes = select(rest, rest_marks, true);
        let no = select(rest, rest_marks, false);
        assert(entries =~= rest.push(entries.last()));
        vstd::seq_lib::to_multiset_build(rest, entries.last());
        vstd::seq_lib::to_multiset_build(yes, entries.last());
        vstd::seq_lib::to_multiset_build(no, entries.last());
        assert(select(entries, marks, true).to_multiset().add(
            select(entries, marks, false).to_multiset(),
        ) =~= entries.to_multiset());
    }
}

/// Every entry of an archive is either one that may be shared or one that is
/// passed through: the two lists hold every entry once between them.
pub proof fn lemma_classified_partition(entries: Seq<(Seq<u8>, Seq<u8>)>)
    ensures
        classified(entries) matches Ok(lists) ==> lists.0.to_multiset().add(
            lists.1.to_multiset(),
        ) == entries.to_multiset() && lists.0.len() + lists.1.len() == entries.len(),
{
    match shareable_of(entries) {
        Ok(marks) => {
            lemma_run_marks(entries, 0, initial_state());
            lemma_select_partition(entries, marks);
        },
        Err(_) => {},
    }
}

/// The entries of an archive, sorted into those that may be shared and those
/// that are passed through.
#[derive(Debug)]
pub struct Classified {
    pub normal: Vec<ArchiveEntry>,
    pub verbatim: Vec<ArchiveEntry>,
}

/// Whether `path` lies below one of the directories `skipped`.
fn is_below_skipped(path: &NormPath, skipped: &Vec<NormPath>) -> (r: bool)
    ensures
        r == below_skipped(path@, Seq::new(skipped@.len(), |i: int| skipped@[i]@)),
{
    let ghost dirs = Seq::new(skipped@.len(), |i: int| skipped@[i]@);
    let mut i: usize = 0;
    while i < skipped.len()
        invariant
            i <= skipped@.len(),
            dirs == Seq::new(skipped@.len(), |i: int| skipped@[i]@),
            forall|j: int|
                0 <= j < i ==> !((#[trigger] dirs[j]).len() < path@.len() && is_prefix(
                    dirs[j],
                    path@,
                )),
        decreases skipped@.len() - i,
    {
        assert(dirs[i as int] == skipped@[i as int]@);
        if skipped[i].len() < path.len() && skipped[i].is_prefix_of(path) {
            return true;
        }
        i += 1;
    }
    false
}

/// Whether the path of a directory's record agrees with the one that the
/// extended header before it gives.
fn check_paths_agree(head: &[u8], over: &[u8]) -> (r: bool)
    ensures
        r == paths_agree(head@, over@),
{
    if (head.len() == 0) != (over.len() == 0) {
        return true;
    }
    if !crate::header::is_text(head) {
        return false;
    }
    if head.len() > over.len() {
        return false;
    }
    let start = slice_subrange(over, 0, head.len());
    assert(start@ =~= over@.take(head@.len() as int));
    bytes_equal(start, head)
}

/// Sorts the entries of an archive into those that may be shared and those
/// that are passed through as they are.
pub fn classify_entries(entries: Vec<ArchiveEntry>) -> (r: Result<Classified, Rejected>)
    ensures
        match r {
            Ok(c) => classified(entries_view(entries@)) == Ok::<_, Rejected>(
                (entries_view(c.normal@), entries_view(c.verbatim@)),
            ),
            Err(e) => classified(entries_view(entries@)) == Err::<
                (Seq<(Seq<u8>, Seq<u8>)>, Seq<(Seq<u8>, Seq<u8>)>),
                _,
            >(e),
        },
{
    let ghost all = entries@;
    let ghost views = entries_view(entries@);
    assert(all.len() == entries.len());
    let ghost mut st = initial_state();
    let mut pending = false;
    let mut override_path: Vec<u8> = Vec::new();
    let mut skipped: Vec<NormPath> = Vec::new();
    let mut normal: Vec<ArchiveEntry> = Vec::new();
    let mut verbatim: Vec<ArchiveEntry> = Vec::new();
    let key: [u8; 4] = [0x70, 0x61, 0x74, 0x68];
    proof {
        assert(key@ =~= path_key());
        assert(st.skipped =~= Seq::new(skipped@.len(), |i: int| skipped@[i]@));
        assert(entries_view(normal@) =~= select(views.take(0), st.shareable, true));
        assert(entries_view(verbatim@) =~= select(views.take(0), st.shareable, false));
    }
    let mut place: usize = 0;
    for e in it: entries
        invariant
            it.seq() == all,
            all.len() <= usize::MAX,
            place == it.index(),
            pending ==> place > 0,
            views == entries_view(all),
            key@ == path_key(),
            st.shareable.len() == it.index(),
            run_from(views, 0, initial_state()) == run_from(views, it.index() as int, st),
            st.pending == pending,
            st.override_path == override_path@,
            st.skipped == Seq::new(skipped@.len(), |i: int| skipped@[i]@),
            entries_view(normal@) == select(views.take(it.index() as int), st.shareable, true),
            entries_view(verbatim@) == select(views.take(it.index() as int), st.shareable, false),
    {
        let ghost k = it.index() as int;
        let ghost before = st;
        proof {
            assert(e == all[k]);
            assert(views[k] == e@);
            lemma_step_marks(st, views[k]);
        }
        let flag = e.header.entry_type();
        let mut share = false;
        if flag == TYPE_GLOBAL {
            return Err(Rejected { entry: Some(place), error: Error::Format });
        } else if flag == TYPE_EXTENDED {
            if pending {
                return Err(Rejected { entry: Some(place), error: Error::Sequence });
            }
            let records = match parse_extended_header_data(e.data.as_slice()) {
                Ok(r) => r,
                Err(_) => {
                    return Err(Rejected { entry: Some(place), error: Error::Format });
                },
            };
            pending = true;
            override_path = match records.get(key.as_slice()) {
                Some(p) => copy_range(p.as_slice(), 0, p.len()),
                None => Vec::new(),
            };
            proof {
                if lookup(records@, path_key()) is Some {
                    assert(override_path@ =~= lookup(records@, path_key())->Some_0);
                } else {
                    assert(override_path@ =~= Seq::<u8>::empty());
                }
            }
        } else if flag >= 0x41 && flag <= 0x5a {
            return Err(Rejected { entry: Some(place), error: Error::Format });
        } else if pending {
            if e.header.is_directory() {
                let head = e.header.path_bytes();
                if !check_paths_agree(head.as_slice(), override_path.as_slice()) {
                    return Err(Rejected { entry: Some(place), error: Error::Format });
                }
                let path = if override_path.len() > 0 {
                    &override_path
                } else {
                    &head
                };
                if path.len() > 0 && path[0] == SEPARATOR {
                    return Err(Rejected { entry: Some(place), error: Error::Format });
                }
                let ghost dirs = Seq::new(skipped@.len(), |i: int| skipped@[i]@);
                let dir = NormPath::parse(path.as_slice());
                skipped.push(dir);
                proof {
                    assert(Seq::new(skipped@.len(), |i: int| skipped@[i]@) =~= dirs.push(
                        split(path@),
                    ));
                }
            }
            pending = false;
            override_path = Vec::new();
            assert(override_path@ =~= Seq::<u8>::empty());
        } else {
            let head = e.header.path_bytes();
            if head.len() == 0 || head[0] == SEPARATOR {
                return Err(Rejected { entry: Some(place), error: Error::Format });
            }
            let path = NormPath::parse(head.as_slice());
            share = !is_below_skipped(&path, &skipped);
        }
        proof {
            st = step(before, views[k])->Ok_0;
            assert(step(before, views[k]) is Ok);
            assert(st.shareable == before.shareable.push(share));
            let now = views.take(k + 1);
            assert(now.drop_last() =~= views.take(k));
            assert(now.last() == views[k]);
            assert(st.shareable.drop_last() =~= before.shareable);
        }
        let ghost normal_before = entries_view(normal@);
        let ghost verbatim_before = entries_view(verbatim@);
        if share {
            normal.push(e);
            proof {
                assert(entries_view(normal@) =~= normal_before.push(views[k]));
            }
        } else {
            verbatim.push(e);
            proof {
                assert(entries_view(verbatim@) =~= verbatim_before.push(views[k]));
            }
        }
        place += 1;
    }
    proof {
        assert(views.take(all.len() as int) =~= views);
    }
    if pending {
        return Err(Rejected { entry: Some(place - 1), error: Error::Sequence });
    }
    Ok(Classified { normal, verbatim })
}

/// Reads an archive and sorts its entries into those that may be shared and
/// those that are passed through as they are.
pub fn get_archive_entries(archive: &[u8]) -> (r: Result<Classified, Rejected>)
    ensures
        match r {
            Ok(c) => archive_classified(archive@) == Ok::<_, Rejected>(
                (entries_view(c.normal@), entries_view(c.verbatim@)),
            ),
            Err(e) => archive_classified(archive@) == Err::<
                (Seq<(Seq<u8>, Seq<u8>)>, Seq<(Seq<u8>, Seq<u8>)>),
                _,
            >(e),
        },
{
    match read_archive(archive) {
        Ok(entries) => classify_entries(entries),
        Err(e) => Err(e),
    }
}

/// The two lists of an archive's entries.
pub open spec fn archive_classified(archive: Seq<u8>) -> Result<
    (Seq<(Seq<u8>, Seq<u8>)>, Seq<(Seq<u8>, Seq<u8>)>),
    Rejected,
> {
    match entries_of(archive) {
        Ok(entries) => classified(entries),
        Err(e) => Err(e),
    }
}

} // verus!
