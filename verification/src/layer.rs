//! Writing a layer: the chosen entries in the order of their paths, each
//! under the directories that lead to it, and then the entries that are
//! passed through as they are.
//!
//! While the chosen entries are written, one directory is open: the one
//! that the last entry lies in, or that entry itself where it is a directory.
//! For the next entry the writer goes up until the open directory leads to
//! it, and then down to the directory that holds it. Every directory on the
//! way down gets a record of its own first, made as the policy says.

use crate::archive::{entries_view, ArchiveEntry};
use crate::error::Error;
use crate::header::{
    has_magic, header_path, is_directory, placeholder_directory, placeholder_record,
    HashableHeader,
};
use crate::order::{sort_by_path, sorted_order};
use crate::path::{
    common_len, copy_range, is_absolute, lemma_common_len, split, NormPath, SEPARATOR,
};
use crate::shared::{last_with_path, lemma_last_with_path, SharedRecords};
use vstd::prelude::*;

verus! {

/// The size of the blocks that an archive is made of.
pub const BLOCK: usize = 512;

/// `n` zero bytes.
pub open spec fn zeros(n: int) -> Seq<u8> {
    Seq::new(n as nat, |i: int| 0u8)
}

/// The number of bytes that fill content of `len` bytes up to whole blocks.
pub open spec fn padding(len: int) -> int {
    if len % (BLOCK as int) == 0 {
        0
    } else {
        BLOCK - len % (BLOCK as int)
    }
}

/// An entry as it stands in an archive: its record, its content, and zeros up
/// to the end of the block.
pub open spec fn entry_block(e: (Seq<u8>, Seq<u8>)) -> Seq<u8> {
    e.0 + e.1 + zeros(padding(e.1.len() as int))
}

/// The entries as they stand in an archive, one after the other.
pub open spec fn blocks(entries: Seq<(Seq<u8>, Seq<u8>)>) -> Seq<u8>
    decreases entries.len(),
{
    if entries.len() == 0 {
        Seq::empty()
    } else {
        blocks(entries.drop_last()) + entry_block(entries.last())
    }
}

/// The archive of the entries: their blocks, and two blocks of zeros that end
/// it.
pub open spec fn archive_bytes(entries: Seq<(Seq<u8>, Seq<u8>)>) -> Seq<u8> {
    blocks(entries) + zeros(2 * BLOCK)
}

/// One more entry adds its block.
pub proof fn lemma_blocks_push(entries: Seq<(Seq<u8>, Seq<u8>)>, e: (Seq<u8>, Seq<u8>))
    ensures
        blocks(entries.push(e)) == blocks(entries) + entry_block(e),
{
    assert(entries.push(e).drop_last() =~= entries);
}

/// The blocks of two lists, one after the other, are those of the joined
/// list.
pub proof fn lemma_blocks_add(a: Seq<(Seq<u8>, Seq<u8>)>, b: Seq<(Seq<u8>, Seq<u8>)>)
    ensures
        blocks(a + b) == blocks(a) + blocks(b),
    decreases b.len(),
{
    if b.len() == 0 {
        assert(a + b =~= a);
        assert(blocks(a) + blocks(b) =~= blocks(a));
    } else {
        lemma_blocks_add(a, b.drop_last());
        assert((a + b).drop_last() =~= a + b.drop_last());
        assert((a + b).last() == b.last());
        assert(blocks(a + b) =~= blocks(a) + blocks(b));
    }
}

/// An archive under construction in memory, kept by `tar::Builder`.
#[verifier::external_body]
pub struct ArchiveWriter {
    inner: tar::Builder<Vec<u8>>,
}

/// The bytes that an archive under construction holds so far.
pub uninterp spec fn written_bytes(w: ArchiveWriter) -> Seq<u8>;

/// `tar::Builder::new` on an empty vector: nothing has been written yet.
#[verifier::external_body]
fn writer_new() -> (w: ArchiveWriter)
    ensures
        written_bytes(w) == Seq::<u8>::empty(),
{
    ArchiveWriter { inner: tar::Builder::new(Vec::new()) }
}

/// `tar::Builder::append` with a byte slice as the content: it writes the 512
/// bytes of the record, the content, and zeros up to the end of the block.
/// Writing to a vector and reading from a slice do not fail.
#[verifier::external_body]
fn writer_append(w: &mut ArchiveWriter, header: &HashableHeader, data: &[u8])
    ensures
        written_bytes(*final(w)) == written_bytes(*old(w)) + entry_block((header@, data@)),
{
    w.inner.append(tar::Header::from_byte_slice(&header.bytes), data).expect("write to memory");
}

/// `tar::Builder::into_inner`: it ends the archive with 1024 zero bytes and
/// hands the vector out.
#[verifier::external_body]
fn writer_finish(w: ArchiveWriter) -> (r: Vec<u8>)
    ensures
        r@ == written_bytes(w) + zeros(2 * BLOCK),
{
    w.inner.into_inner().expect("write to memory")
}

/// How the record of a directory is made that no chosen entry stands for.
#[derive(Debug)]
pub enum DirectoryPolicy<'a> {
    /// A placeholder: full permissions, owner and group 0, time 0.
    Placeholder,
    /// The record that the shared layer has for the directory.
    FromCommon(&'a SharedRecords),
}

/// A policy as the contracts see it.
pub enum PolicyView {
    Placeholder,
    FromCommon(Seq<Seq<u8>>),
}

impl<'a> View for DirectoryPolicy<'a> {
    type V = PolicyView;

    open spec fn view(&self) -> PolicyView {
        match self {
            DirectoryPolicy::Placeholder => PolicyView::Placeholder,
            DirectoryPolicy::FromCommon(list) => PolicyView::FromCommon(list.records()),
        }
    }
}

/// The record that the shared layer has for the directory `dir`: the last of
/// `list` with that path, if it is a directory.
pub open spec fn common_directory(list: Seq<Seq<u8>>, dir: Seq<Seq<u8>>) -> Option<Seq<u8>> {
    match last_with_path(list, dir) {
        Some(h) => if is_directory(h) {
            Some(h)
        } else {
            None
        },
        None => None,
    }
}

/// The record that a policy makes for the directory `dir`, where it can.
pub open spec fn directory_record(policy: PolicyView, dir: Seq<Seq<u8>>) -> Option<Seq<u8>> {
    match policy {
        PolicyView::Placeholder => placeholder_record(dir),
        PolicyView::FromCommon(list) => common_directory(list, dir),
    }
}

/// A record taken from the shared layer is one of its records, names the
/// directory, and is a directory.
pub proof fn lemma_common_directory(list: Seq<Seq<u8>>, dir: Seq<Seq<u8>>)
    ensures
        common_directory(list, dir) matches Some(h) ==> list.contains(h) && split(header_path(h))
            == dir && is_directory(h),
{
    lemma_last_with_path(list, dir);
}

/// The record that a policy makes names the directory and is a directory.
pub proof fn lemma_directory_record(policy: PolicyView, dir: Seq<Seq<u8>>)
    ensures
        directory_record(policy, dir) matches Some(h) ==> split(header_path(h)) == dir
            && is_directory(h),
{
    match policy {
        PolicyView::Placeholder => {
            if placeholder_record(dir) is Some {
                crate::header::lemma_placeholder_record(dir);
            }
        },
        PolicyView::FromCommon(list) => {
            lemma_common_directory(list, dir);
        },
    }
}

impl<'a> DirectoryPolicy<'a> {
    /// Makes the record of the directory `dir`.
    pub fn directory(&self, dir: &NormPath) -> (r: Option<HashableHeader>)
        ensures
            match r {
                Some(h) => directory_record(self@, dir@) == Some(h@),
                None => directory_record(self@, dir@) is None,
            },
    {
        match self {
            DirectoryPolicy::Placeholder => placeholder_directory(dir),
            DirectoryPolicy::FromCommon(list) => match list.last_named(dir) {
                Some(h) => if h.is_directory() {
                    Some(*h)
                } else {
                    None
                },
                None => None,
            },
        }
    }
}

/// An entry that is chosen for a layer: its record, and its content where it
/// lies.
#[derive(Debug)]
pub struct LayerEntry<'a> {
    pub header: HashableHeader,
    pub data: &'a [u8],
}

impl<'a> View for LayerEntry<'a> {
    type V = (Seq<u8>, Seq<u8>);

    open spec fn view(&self) -> (Seq<u8>, Seq<u8>) {
        (self.header@, self.data@)
    }
}

/// The chosen entries, each as its record and its content.
pub open spec fn chosen_view(chosen: Seq<LayerEntry>) -> Seq<(Seq<u8>, Seq<u8>)> {
    Seq::new(chosen.len(), |i: int| chosen[i]@)
}

/// Why a layer cannot be laid out, and at which of the chosen entries.
#[derive(Clone, Copy, Debug, PartialEq, Eq, Structural)]
pub struct Misplaced {
    pub entry: usize,
    pub error: Error,
}

/// What has been laid out of a layer.
pub struct Layout {
    /// The directory that is open.
    pub open_dir: Seq<Seq<u8>>,
    /// The entries written so far.
    pub entries: Seq<(Seq<u8>, Seq<u8>)>,
    /// For each of them, which of the chosen entries it is, or -1 for a
    /// directory that was made on the way.
    pub origin: Seq<int>,
}

/// A layer of which nothing has been laid out: the root is open.
pub open spec fn empty_layout() -> Layout {
    Layout { open_dir: Seq::empty(), entries: Seq::empty(), origin: Seq::empty() }
}

/// The layout after the directories of `path` from depth `from` down to
/// depth `to` have been made. It fails where the policy has no record for
/// one of them.
pub open spec fn with_directories(
    l: Layout,
    path: Seq<Seq<u8>>,
    from: int,
    to: int,
    policy: PolicyView,
) -> Result<Layout, Error>
    decreases to - from,
{
    if from >= to {
        Ok(l)
    } else {
        match directory_record(policy, path.take(from + 1)) {
            None => Err(Error::Path),
            Some(d) => with_directories(
                Layout {
                    open_dir: path.take(from + 1),
                    entries: l.entries.push((d, Seq::empty())),
                    origin: l.origin.push(-1),
                },
                path,
                from + 1,
                to,
                policy,
            ),
        }
    }
}

/// Making directories fails only for want of a record, and adds to what is
/// laid out.
pub proof fn lemma_with_directories(
    l: Layout,
    path: Seq<Seq<u8>>,
    from: int,
    to: int,
    policy: PolicyView,
)
    ensures
        with_directories(l, path, from, to, policy) matches Err(x) ==> x == Error::Path,
    decreases to - from,
{
    if from < to {
        match directory_record(policy, path.take(from + 1)) {
            None => {},
            Some(d) => {
                lemma_with_directories(
                    Layout {
                        open_dir: path.take(from + 1),
                        entries: l.entries.push((d, Seq::empty())),
                        origin: l.origin.push(-1),
                    },
                    path,
                    from + 1,
                    to,
                    policy,
                );
            },
        }
    }
}

/// The depth of the directory that holds `path`.
pub open spec fn depth_above(path: Seq<Seq<u8>>) -> int {
    if path.len() > 0 {
        path.len() - 1
    } else {
        0
    }
}

/// The layout after the chosen entry `e`, which is the `k`-th, has been
/// placed. An entry without the format marker is malformed. An entry cannot
/// be placed where its record names no path or one that starts at the file
/// system's root, where the open directory is the entry itself or lies below
/// it, or where a directory on the way down cannot be made.
pub open spec fn place(l: Layout, e: (Seq<u8>, Seq<u8>), k: int, policy: PolicyView) -> Result<
    Layout,
    Error,
> {
    let raw = header_path(e.0);
    let path = split(raw);
    let shared = common_len(l.open_dir, path) as int;
    if !has_magic(e.0) {
        Err(Error::Format)
    } else if raw.len() == 0 || is_absolute(raw) || (path.len() > 0 && shared == path.len()) {
        Err(Error::Path)
    } else {
        match with_directories(l, path, shared, depth_above(path), policy) {
            Err(x) => Err(x),
            Ok(m) => Ok(
                Layout {
                    open_dir: if is_directory(e.0) {
                        path
                    } else {
                        path.take(depth_above(path))
                    },
                    entries: m.entries.push(e),
                    origin: m.origin.push(k),
                },
            ),
        }
    }
}

/// The layout after the chosen entries have been placed in the order `order`,
/// from its `p`-th member on. Where an entry cannot be placed, it is named.
pub open spec fn lay_out_from(
    chosen: Seq<(Seq<u8>, Seq<u8>)>,
    order: Seq<int>,
    p: int,
    l: Layout,
    policy: PolicyView,
) -> Result<Layout, Misplaced>
    decreases order.len() - p,
{
    if p >= order.len() || p < 0 {
        Ok(l)
    } else {
        match place(l, chosen[order[p]], order[p], policy) {
            Err(x) => Err(Misplaced { entry: order[p] as usize, error: x }),
            Ok(m) => lay_out_from(chosen, order, p + 1, m, policy),
        }
    }
}

/// The paths that the records of the chosen entries name.
pub open spec fn chosen_paths(chosen: Seq<(Seq<u8>, Seq<u8>)>) -> Seq<Seq<u8>> {
    Seq::new(chosen.len(), |i: int| header_path(chosen[i].0))
}

/// The layout of the chosen entries, placed in the order of their paths.
pub open spec fn lay_out(chosen: Seq<(Seq<u8>, Seq<u8>)>, policy: PolicyView) -> Result<
    Layout,
    Misplaced,
> {
    lay_out_from(chosen, sorted_order(chosen_paths(chosen)), 0, empty_layout(), policy)
}

/// The entries of a layer: the chosen entries laid out, and then the entries
/// that are passed through, as they are and in their order.
pub open spec fn layer_entries(
    chosen: Seq<(Seq<u8>, Seq<u8>)>,
    verbatim: Seq<(Seq<u8>, Seq<u8>)>,
    policy: PolicyView,
) -> Result<Seq<(Seq<u8>, Seq<u8>)>, Misplaced> {
    match lay_out(chosen, policy) {
        Ok(l) => Ok(l.entries + verbatim),
        Err(x) => Err(x),
    }
}

/// The archive of a layer.
pub open spec fn layer_bytes(
    chosen: Seq<(Seq<u8>, Seq<u8>)>,
    verbatim: Seq<(Seq<u8>, Seq<u8>)>,
    policy: PolicyView,
) -> Result<Seq<u8>, Misplaced> {
    match layer_entries(chosen, verbatim, policy) {
        Ok(entries) => Ok(archive_bytes(entries)),
        Err(x) => Err(x),
    }
}

/// Whether the record `h` is that of the directory `dir`.
pub open spec fn names_directory(h: Seq<u8>, dir: Seq<Seq<u8>>) -> bool {
    is_directory(h) && split(header_path(h)) == dir
}

/// Whether one of the entries before place `pos` is the directory `dir`.
pub open spec fn has_directory_before(
    entries: Seq<(Seq<u8>, Seq<u8>)>,
    pos: int,
    dir: Seq<Seq<u8>>,
) -> bool {
    exists|q: int| 0 <= q < pos && q < entries.len() && names_directory((#[trigger] entries[q]).0, dir)
}

/// Whether every directory above the entry at place `pos` stands before it.
pub open spec fn ancestors_precede(entries: Seq<(Seq<u8>, Seq<u8>)>, pos: int) -> bool {
    forall|j: int|
        0 < j < split(header_path(entries[pos].0)).len() ==> has_directory_before(
            entries,
            pos,
            #[trigger] split(header_path(entries[pos].0)).take(j),
        )
}

/// Whether a layout is sound: every entry has the directories above it
/// before it, and the open directory and those above it have been written.
pub open spec fn sound(l: Layout) -> bool {
    &&& l.origin.len() == l.entries.len()
    &&& forall|pos: int| 0 <= pos < l.entries.len() ==> #[trigger] ancestors_precede(l.entries, pos)
    &&& forall|j: int|
        0 < j <= l.open_dir.len() ==> has_directory_before(
            l.entries,
            l.entries.len() as int,
            #[trigger] l.open_dir.take(j),
        )
}

/// The chosen entries that a layout holds, by their numbers and in the order
/// in which they were written.
pub open spec fn picks(origin: Seq<int>) -> Seq<int>
    decreases origin.len(),
{
    if origin.len() == 0 {
        Seq::empty()
    } else if origin.last() >= 0 {
        picks(origin.drop_last()).push(origin.last())
    } else {
        picks(origin.drop_last())
    }
}

/// What `picks` holds: the numbers in `origin` that are not negative.
pub proof fn lemma_picks(origin: Seq<int>)
    ensures
        forall|k: int| #[trigger] picks(origin).contains(k) <==> k >= 0 && origin.contains(k),
    decreases origin.len(),
{
    if origin.len() != 0 {
        let rest = origin.drop_last();
        let last = origin.last();
        lemma_picks(rest);
        assert forall|k: int| #[trigger] picks(origin).contains(k) <==> k >= 0 && origin.contains(
            k,
        ) by {
            if k >= 0 && origin.contains(k) {
                let i = choose|i: int| 0 <= i < origin.len() && origin[i] == k;
                if i < rest.len() {
                    assert(rest[i] == k);
                    assert(rest.contains(k));
                    assert(picks(rest).contains(k));
                    let j = choose|j: int| 0 <= j < picks(rest).len() && picks(rest)[j] == k;
                    assert(picks(origin)[j] == k);
                } else {
                    assert(picks(origin)[picks(rest).len() as int] == k);
                }
            }
            if picks(origin).contains(k) {
                let j = choose|j: int| 0 <= j < picks(origin).len() && picks(origin)[j] == k;
                if j < picks(rest).len() {
                    assert(picks(rest)[j] == k);
                    assert(picks(rest).contains(k));
                    let i = choose|i: int| 0 <= i < rest.len() && rest[i] == k;
                    assert(origin[i] == k);
                } else {
                    assert(origin[origin.len() - 1] == k);
                }
            }
        }
    }
}

/// Whether the entries of a layout are what their origin says: a chosen
/// entry as it is, or else a directory without content.
pub open spec fn faithful(l: Layout, chosen: Seq<(Seq<u8>, Seq<u8>)>) -> bool {
    &&& l.origin.len() == l.entries.len()
    &&& forall|pos: int|
        0 <= pos < l.entries.len() ==> if (#[trigger] l.origin[pos]) >= 0 {
            l.origin[pos] < chosen.len() && l.entries[pos] == chosen[l.origin[pos]]
        } else {
            is_directory(l.entries[pos].0) && l.entries[pos].1.len() == 0
        }
}

/// What was written stays where it is when more is written.
proof fn lemma_directory_stays(
    before: Seq<(Seq<u8>, Seq<u8>)>,
    after: Seq<(Seq<u8>, Seq<u8>)>,
    pos: int,
    later: int,
    dir: Seq<Seq<u8>>,
)
    requires
        before.len() <= after.len(),
        after.take(before.len() as int) == before,
        pos <= later,
        has_directory_before(before, pos, dir),
    ensures
        has_directory_before(after, later, dir),
{
    let q = choose|q: int|
        0 <= q < pos && q < before.len() && names_directory((#[trigger] before[q]).0, dir);
    assert(after.take(before.len() as int)[q] == after[q]);
    assert(names_directory(after[q].0, dir));
}

/// An entry that had the directories above it before it still has them when
/// more is written.
proof fn lemma_ancestors_stay(
    before: Seq<(Seq<u8>, Seq<u8>)>,
    after: Seq<(Seq<u8>, Seq<u8>)>,
    pos: int,
)
    requires
        before.len() <= after.len(),
        after.take(before.len() as int) == before,
        0 <= pos < before.len(),
        ancestors_precede(before, pos),
    ensures
        ancestors_precede(after, pos),
{
    assert(after.take(before.len() as int)[pos] == after[pos]);
    let path = split(header_path(after[pos].0));
    assert forall|j: int| 0 < j < path.len() implies has_directory_before(
        after,
        pos,
        #[trigger] path.take(j),
    ) by {
        assert(has_directory_before(before, pos, path.take(j)));
        lemma_directory_stays(before, after, pos, pos, path.take(j));
    }
}

/// Making directories on the way down keeps a layout sound and faithful, and
/// writes every directory on the way.
proof fn lemma_with_directories_sound(
    l: Layout,
    path: Seq<Seq<u8>>,
    from: int,
    to: int,
    policy: PolicyView,
    chosen: Seq<(Seq<u8>, Seq<u8>)>,
)
    requires
        0 <= from <= to <= path.len(),
        l.origin.len() == l.entries.len(),
        faithful(l, chosen),
        forall|pos: int| 0 <= pos < l.entries.len() ==> #[trigger] ancestors_precede(l.entries, pos),
        forall|j: int|
            0 < j <= from ==> has_directory_before(
                l.entries,
                l.entries.len() as int,
                #[trigger] path.take(j),
            ),
    ensures
        with_directories(l, path, from, to, policy) matches Ok(m) ==> {
            &&& m.origin.len() == m.entries.len()
            &&& faithful(m, chosen)
            &&& l.entries.len() <= m.entries.len()
            &&& m.entries.take(l.entries.len() as int) == l.entries
            &&& picks(m.origin) == picks(l.origin)
            &&& forall|pos: int|
                0 <= pos < m.entries.len() ==> #[trigger] ancestors_precede(m.entries, pos)
            &&& forall|j: int|
                0 < j <= to ==> has_directory_before(
                    m.entries,
                    m.entries.len() as int,
                    #[trigger] path.take(j),
                )
        },
    decreases to - from,
{
    if from >= to {
        assert(l.entries.take(l.entries.len() as int) =~= l.entries);
    } else {
        let dir = path.take(from + 1);
        match directory_record(policy, dir) {
            None => {},
            Some(d) => {
                lemma_directory_record(policy, dir);
                let next = Layout {
                    open_dir: dir,
                    entries: l.entries.push((d, Seq::empty())),
                    origin: l.origin.push(-1),
                };
                let at = l.entries.len() as int;
                assert(next.entries.take(at) =~= l.entries);
                assert(next.origin.drop_last() =~= l.origin);
                assert forall|pos: int| 0 <= pos < next.entries.len() implies #[trigger] ancestors_precede(
                    next.entries,
                    pos,
                ) by {
                    if pos < at {
                        lemma_ancestors_stay(l.entries, next.entries, pos);
                    } else {
                        assert forall|j: int| 0 < j < dir.len() implies has_directory_before(
                            next.entries,
                            pos,
                            #[trigger] dir.take(j),
                        ) by {
                            assert(dir.take(j) =~= path.take(j));
                            lemma_directory_stays(l.entries, next.entries, at, at, path.take(j));
                        }
                    }
                }
                assert forall|j: int| 0 < j <= from + 1 implies has_directory_before(
                    next.entries,
                    next.entries.len() as int,
                    #[trigger] path.take(j),
                ) by {
                    if j <= from {
                        lemma_directory_stays(l.entries, next.entries, at, at + 1, path.take(j));
                    } else {
                        assert(names_directory(next.entries[at].0, path.take(j)));
                    }
                }
                assert(faithful(next, chosen)) by {
                    assert forall|pos: int| 0 <= pos < next.entries.len() implies if (
                    #[trigger] next.origin[pos]) >= 0 {
                        next.origin[pos] < chosen.len() && next.entries[pos]
                            == chosen[next.origin[pos]]
                    } else {
                        is_directory(next.entries[pos].0) && next.entries[pos].1.len() == 0
                    } by {
                        if pos < at {
                            assert(next.origin[pos] == l.origin[pos]);
                            assert(next.entries[pos] == l.entries[pos]);
                        }
                    }
                }
                lemma_with_directories_sound(next, path, from + 1, to, policy, chosen);
                match with_directories(next, path, from + 1, to, policy) {
                    Ok(m) => {
                        assert(m.entries.take(at) =~= m.entries.take(at + 1).take(at));
                    },
                    Err(_) => {},
                }
            },
        }
    }
}

/// Placing one entry keeps a layout sound and faithful, and adds the entry
/// to what it holds.
proof fn lemma_place_sound(
    l: Layout,
    chosen: Seq<(Seq<u8>, Seq<u8>)>,
    k: int,
    policy: PolicyView,
)
    requires
        0 <= k < chosen.len(),
        sound(l),
        faithful(l, chosen),
    ensures
        place(l, chosen[k], k, policy) matches Ok(m) ==> sound(m) && faithful(m, chosen) && picks(
            m.origin,
        ) == picks(l.origin).push(k),
{
    let e = chosen[k];
    let path = split(header_path(e.0));
    let shared = common_len(l.open_dir, path) as int;
    let above = depth_above(path);
    match place(l, e, k, policy) {
        Err(_) => {},
        Ok(m) => {
            lemma_common_len(l.open_dir, path);
            assert forall|j: int| 0 < j <= shared implies has_directory_before(
                l.entries,
                l.entries.len() as int,
                #[trigger] path.take(j),
            ) by {
                assert(path.take(j) =~= path.take(shared).take(j));
                assert(l.open_dir.take(j) =~= l.open_dir.take(shared).take(j));
                assert(has_directory_before(
                    l.entries,
                    l.entries.len() as int,
                    l.open_dir.take(j),
                ));
            }
            lemma_with_directories_sound(l, path, shared, above, policy, chosen);
            let mid = with_directories(l, path, shared, above, policy)->Ok_0;
            let at = mid.entries.len() as int;
            assert(m.entries == mid.entries.push(e));
            assert(m.entries.take(at) =~= mid.entries);
            assert(m.origin.drop_last() =~= mid.origin);
            assert forall|pos: int| 0 <= pos < m.entries.len() implies #[trigger] ancestors_precede(
                m.entries,
                pos,
            ) by {
                if pos < at {
                    lemma_ancestors_stay(mid.entries, m.entries, pos);
                } else {
                    assert forall|j: int| 0 < j < path.len() implies has_directory_before(
                        m.entries,
                        pos,
                        #[trigger] path.take(j),
                    ) by {
                        lemma_directory_stays(mid.entries, m.entries, at, at, path.take(j));
                    }
                }
            }
            assert forall|j: int| 0 < j <= m.open_dir.len() implies has_directory_before(
                m.entries,
                m.entries.len() as int,
                #[trigger] m.open_dir.take(j),
            ) by {
                if j <= above {
                    assert(m.open_dir.take(j) =~= path.take(j));
                    lemma_directory_stays(mid.entries, m.entries, at, at + 1, path.take(j));
                } else {
                    assert(m.open_dir.take(j) =~= path);
                    assert(names_directory(m.entries[at].0, path));
                }
            }
            assert(faithful(m, chosen)) by {
                assert forall|pos: int| 0 <= pos < m.entries.len() implies if (
                #[trigger] m.origin[pos]) >= 0 {
                    m.origin[pos] < chosen.len() && m.entries[pos] == chosen[m.origin[pos]]
                } else {
                    is_directory(m.entries[pos].0) && m.entries[pos].1.len() == 0
                } by {
                    if pos < at {
                        assert(m.origin[pos] == mid.origin[pos]);
                        assert(m.entries[pos] == mid.entries[pos]);
                    }
                }
            }
        },
    }
}

/// Placing the rest of the chosen entries keeps a layout sound and faithful,
/// and adds them in their order to what it holds.
proof fn lemma_lay_out_from_sound(
    chosen: Seq<(Seq<u8>, Seq<u8>)>,
    order: Seq<int>,
    p: int,
    l: Layout,
    policy: PolicyView,
)
    requires
        0 <= p <= order.len(),
        forall|q: int| 0 <= q < order.len() ==> 0 <= #[trigger] order[q] < chosen.len(),
        sound(l),
        faithful(l, chosen),
    ensures
        lay_out_from(chosen, order, p, l, policy) matches Ok(m) ==> sound(m) && faithful(
            m,
            chosen,
        ) && picks(m.origin) == picks(l.origin) + order.skip(p),
    decreases order.len() - p,
{
    if p >= order.len() {
        assert(picks(l.origin) + order.skip(p) =~= picks(l.origin));
    } else {
        lemma_place_sound(l, chosen, order[p], policy);
        match place(l, chosen[order[p]], order[p], policy) {
            Err(_) => {},
            Ok(next) => {
                lemma_lay_out_from_sound(chosen, order, p + 1, next, policy);
                assert(picks(l.origin).push(order[p]) + order.skip(p + 1) =~= picks(l.origin)
                    + order.skip(p));
            },
        }
    }
}

/// In a layer that can be laid out, every entry has the directories that
/// lead to it before it: for each directory above the path that its record
/// names, an earlier entry is a directory with that path. The layer holds
/// every chosen entry once, as it is and in the order of the paths, and
/// whatever else it holds is a directory without content.
pub proof fn lemma_lay_out(chosen: Seq<(Seq<u8>, Seq<u8>)>, policy: PolicyView)
    ensures
        lay_out(chosen, policy) matches Ok(l) ==> {
            &&& forall|pos: int|
                0 <= pos < l.entries.len() ==> #[trigger] ancestors_precede(l.entries, pos)
            &&& faithful(l, chosen)
            &&& picks(l.origin) == sorted_order(chosen_paths(chosen))
        },
{
    let order = sorted_order(chosen_paths(chosen));
    crate::order::lemma_sorted_order(chosen_paths(chosen));
    let l = empty_layout();
    assert(sound(l)) by {
        assert forall|j: int| 0 < j <= l.open_dir.len() implies has_directory_before(
            l.entries,
            l.entries.len() as int,
            #[trigger] l.open_dir.take(j),
        ) by {}
    }
    lemma_lay_out_from_sound(chosen, order, 0, l, policy);
    assert(picks(l.origin) + order.skip(0) =~= order);
}

/// Whether a layout holds `e` as one of the chosen entries.
pub open spec fn written_as_chosen(l: Layout, e: (Seq<u8>, Seq<u8>)) -> bool {
    exists|pos: int|
        0 <= pos < l.entries.len() && pos < l.origin.len() && l.origin[pos] >= 0
            && #[trigger] l.entries[pos] == e
}

/// A layer that can be laid out holds as chosen entries exactly those that
/// were chosen.
pub proof fn lemma_written_as_chosen(
    chosen: Seq<(Seq<u8>, Seq<u8>)>,
    policy: PolicyView,
    e: (Seq<u8>, Seq<u8>),
)
    ensures
        lay_out(chosen, policy) matches Ok(l) ==> (written_as_chosen(l, e) <==> chosen.contains(e)),
{
    match lay_out(chosen, policy) {
        Err(_) => {},
        Ok(l) => {
            lemma_lay_out(chosen, policy);
            crate::order::lemma_sorted_order(chosen_paths(chosen));
            lemma_picks(l.origin);
            if written_as_chosen(l, e) {
                let pos = choose|pos: int|
                    0 <= pos < l.entries.len() && pos < l.origin.len() && l.origin[pos] >= 0
                        && #[trigger] l.entries[pos] == e;
                assert(chosen[l.origin[pos]] == e);
            }
            if chosen.contains(e) {
                let k = choose|k: int| 0 <= k < chosen.len() && chosen[k] == e;
                assert(sorted_order(chosen_paths(chosen)).contains(k));
                assert(picks(l.origin).contains(k));
                assert(l.origin.contains(k));
                let pos = choose|pos: int| 0 <= pos < l.origin.len() && l.origin[pos] == k;
                assert(l.entries[pos] == e);
            }
        },
    }
}

/// A layer without chosen entries holds the entries that are passed through
/// and nothing else, whatever the policy.
pub proof fn lemma_layer_of_verbatim(verbatim: Seq<(Seq<u8>, Seq<u8>)>, policy: PolicyView)
    ensures
        layer_entries(Seq::empty(), verbatim, policy) == Ok::<_, Misplaced>(verbatim),
        layer_bytes(Seq::empty(), verbatim, policy) == Ok::<_, Misplaced>(archive_bytes(verbatim)),
{
    let none = Seq::<(Seq<u8>, Seq<u8>)>::empty();
    assert(chosen_paths(none) =~= Seq::<Seq<u8>>::empty());
    assert(sorted_order(chosen_paths(none)) =~= Seq::<int>::empty());
    assert(empty_layout().entries + verbatim =~= verbatim);
}

/// Where the entry at place `k` starts in the archive of `entries`.
pub open spec fn block_start(entries: Seq<(Seq<u8>, Seq<u8>)>, k: int) -> int {
    blocks(entries.take(k)).len() as int
}

/// The archive holds every entry as it is: at the place where the entry
/// starts stand the bytes of its record, and behind them those of its
/// content.
pub proof fn lemma_archive_holds(entries: Seq<(Seq<u8>, Seq<u8>)>, k: int)
    requires
        0 <= k < entries.len(),
    ensures
        block_start(entries, k) + entries[k].0.len() + entries[k].1.len() <= archive_bytes(
            entries,
        ).len(),
        archive_bytes(entries).subrange(
            block_start(entries, k),
            block_start(entries, k) + entries[k].0.len(),
        ) == entries[k].0,
        archive_bytes(entries).subrange(
            block_start(entries, k) + entries[k].0.len(),
            block_start(entries, k) + entries[k].0.len() + entries[k].1.len(),
        ) == entries[k].1,
{
    let head = entries.take(k);
    let tail = entries.skip(k + 1);
    let e = entries[k];
    assert(entries =~= head.push(e) + tail);
    lemma_blocks_add(head.push(e), tail);
    lemma_blocks_push(head, e);
    let all = archive_bytes(entries);
    let start = block_start(entries, k);
    assert(all =~= blocks(head) + e.0 + e.1 + zeros(padding(e.1.len() as int)) + blocks(tail)
        + zeros(1024));
    assert(all.subrange(start, start + e.0.len()) =~= e.0);
    assert(all.subrange(start + e.0.len(), start + e.0.len() + e.1.len()) =~= e.1);
}

/// Entries that are written again as they were read come out unchanged:
/// the layer of nothing but passed-through entries is their archive, and in
/// it stand the bytes of every record and of every content as they were.
pub proof fn lemma_unchanged_entries(
    entries: Seq<(Seq<u8>, Seq<u8>)>,
    policy: PolicyView,
    k: int,
)
    requires
        0 <= k < entries.len(),
    ensures
        layer_bytes(Seq::empty(), entries, policy) == Ok::<_, Misplaced>(archive_bytes(entries)),
        archive_bytes(entries).subrange(
            block_start(entries, k),
            block_start(entries, k) + entries[k].0.len(),
        ) == entries[k].0,
        archive_bytes(entries).subrange(
            block_start(entries, k) + entries[k].0.len(),
            block_start(entries, k) + entries[k].0.len() + entries[k].1.len(),
        ) == entries[k].1,
{
    lemma_layer_of_verbatim(entries, policy);
    lemma_archive_holds(entries, k);
}

/// Writes the archive of a layer.
pub fn make_layer_tar(
    chosen: &Vec<LayerEntry>,
    verbatim: &Vec<ArchiveEntry>,
    policy: &DirectoryPolicy,
) -> (r: Result<Vec<u8>, Misplaced>)
    ensures
        match r {
            Ok(bytes) => layer_bytes(chosen_view(chosen@), entries_view(verbatim@), policy@) == Ok::<
                _,
                Misplaced,
            >(bytes@),
            Err(e) => layer_bytes(chosen_view(chosen@), entries_view(verbatim@), policy@) == Err::<
                Seq<u8>,
                _,
            >(e) && e.entry < chosen@.len(),
        },
{
    let ghost sel = chosen_view(chosen@);
    let ghost pol = policy@;
    let mut paths: Vec<Vec<u8>> = Vec::new();
    let mut i: usize = 0;
    while i < chosen.len()
        invariant
            i <= chosen@.len(),
            sel == chosen_view(chosen@),
            paths@.len() == i,
            forall|j: int| 0 <= j < i ==> (#[trigger] paths@[j])@ == header_path(sel[j].0),
        decreases chosen@.len() - i,
    {
        let bytes = chosen[i].header.path_bytes();
        assert(sel[i as int] == chosen@[i as int]@);
        paths.push(bytes);
        i += 1;
    }
    let ghost keys = chosen_paths(sel);
    proof {
        assert(Seq::new(paths@.len(), |i: int| paths@[i]@) =~= keys);
    }
    let order_exec = sort_by_path(&paths);
    let ghost order = sorted_order(keys);
    let mut w = writer_new();
    let mut open_dir = NormPath::root();
    let ghost mut l = empty_layout();
    let nothing: Vec<u8> = Vec::new();
    let mut p: usize = 0;
    while p < order_exec.len()
        invariant
            p <= order_exec@.len(),
            sel == chosen_view(chosen@),
            pol == policy@,
            keys == chosen_paths(sel),
            order == sorted_order(keys),
            order == Seq::new(order_exec@.len(), |p: int| order_exec@[p] as int),
            paths@.len() == chosen@.len(),
            forall|j: int| 0 <= j < paths@.len() ==> (#[trigger] paths@[j])@ == header_path(sel[j].0),
            forall|q: int| 0 <= q < order_exec@.len() ==> #[trigger] order_exec@[q] < chosen@.len(),
            nothing@ == Seq::<u8>::empty(),
            lay_out(sel, pol) == lay_out_from(sel, order, p as int, l, pol),
            l.open_dir == open_dir@,
            written_bytes(w) == blocks(l.entries),
        decreases order_exec@.len() - p,
    {
        let k = order_exec[p];
        assert(order[p as int] == k);
        let e = &chosen[k];
        assert(sel[k as int] == e@);
        let ghost start = l;
        if !e.header.has_magic() {
            return Err(Misplaced { entry: k, error: Error::Format });
        }
        let raw = &paths[k];
        if raw.len() == 0 || raw[0] == SEPARATOR {
            return Err(Misplaced { entry: k, error: Error::Path });
        }
        let path = NormPath::parse(raw.as_slice());
        let shared = open_dir.shared_with(&path);
        if path.len() > 0 && shared == path.len() {
            return Err(Misplaced { entry: k, error: Error::Path });
        }
        let above = if path.len() > 0 {
            path.len() - 1
        } else {
            0
        };
        proof {
            lemma_common_len(open_dir@, path@);
            lemma_with_directories(start, path@, shared as int, above as int, pol);
        }
        open_dir.truncate(shared);
        let mut j: usize = shared;
        while j < above
            invariant
                shared <= j <= above,
                above == depth_above(path@),
                pol == policy@,
                nothing@ == Seq::<u8>::empty(),
                open_dir@ == path@.take(j as int),
                sel == chosen_view(chosen@),
                k < chosen@.len(),
                with_directories(start, path@, shared as int, above as int, pol) is Err
                    ==> layer_bytes(sel, entries_view(verbatim@), pol) == Err::<Seq<u8>, _>(
                    Misplaced { entry: k, error: Error::Path },
                ),
                with_directories(start, path@, shared as int, above as int, pol)
                    == with_directories(l, path@, j as int, above as int, pol),
                written_bytes(w) == blocks(l.entries),
            decreases above - j,
        {
            let piece = copy_range(path.part(j).as_slice(), 0, path.part(j).len());
            assert(piece@ =~= path@[j as int]);
            open_dir.push(piece);
            assert(open_dir@ =~= path@.take(j + 1));
            let made = match policy.directory(&open_dir) {
                Some(d) => d,
                None => {
                    return Err(Misplaced { entry: k, error: Error::Path });
                },
            };
            writer_append(&mut w, &made, nothing.as_slice());
            proof {
                lemma_blocks_push(l.entries, (made@, Seq::empty()));
                l = Layout {
                    open_dir: path@.take(j + 1),
                    entries: l.entries.push((made@, Seq::empty())),
                    origin: l.origin.push(-1),
                };
            }
            j += 1;
        }
        writer_append(&mut w, &e.header, e.data);
        proof {
            lemma_blocks_push(l.entries, e@);
        }
        if e.header.is_directory() && path.len() > 0 {
            let piece = copy_range(path.part(above).as_slice(), 0, path.part(above).len());
            assert(piece@ =~= path@[above as int]);
            open_dir.push(piece);
            assert(open_dir@ =~= path@);
        }
        proof {
            if path@.len() == 0 {
                assert(open_dir@ =~= path@);
                assert(path@.take(0) =~= path@);
            }
            l = Layout {
                open_dir: open_dir@,
                entries: l.entries.push(e@),
                origin: l.origin.push(k as int),
            };
            assert(place(start, e@, k as int, pol) == Ok::<_, Error>(l));
        }
        p += 1;
    }
    let ghost placed = l.entries;
    let ghost rest = entries_view(verbatim@);
    let mut v: usize = 0;
    proof {
        assert(placed + rest.take(0) =~= placed);
    }
    while v < verbatim.len()
        invariant
            v <= verbatim@.len(),
            rest == entries_view(verbatim@),
            written_bytes(w) == blocks(placed + rest.take(v as int)),
        decreases verbatim@.len() - v,
    {
        writer_append(&mut w, &verbatim[v].header, verbatim[v].data.as_slice());
        proof {
            let before = placed + rest.take(v as int);
            assert(rest[v as int] == verbatim@[v as int]@);
            lemma_blocks_push(before, rest[v as int]);
            assert(before.push(rest[v as int]) =~= placed + rest.take(v + 1));
        }
        v += 1;
    }
    proof {
        assert(rest.take(v as int) =~= rest);
    }
    Ok(writer_finish(w))
}

} // verus!
