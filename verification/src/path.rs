//! Paths inside an archive: byte strings cut into components at `/`.
//!
//! A path is compared by its components. Empty components and `.` carry no
//! meaning and are dropped, so `a//b/`, `./a/b` and `a/b` are the same path.
//! The empty list of components is the archive root.

use vstd::prelude::*;

verus! {

/// The byte that separates the components of a path.
pub const SEPARATOR: u8 = 0x2f;

/// The byte of which the component `.` is made.
pub const DOT: u8 = 0x2e;

/// The index of the first `b` in `s`, or the length of `s` if there is none.
pub open spec fn index_of(s: Seq<u8>, b: u8) -> int
    decreases s.len(),
{
    if s.len() == 0 {
        0
    } else if s[0] == b {
        0
    } else {
        1 + index_of(s.drop_first(), b)
    }
}

/// `index_of` lies within the sequence, nothing before it is `b`, and where it
/// is inside the sequence it points at a `b`.
pub proof fn lemma_index_of(s: Seq<u8>, b: u8)
    ensures
        0 <= index_of(s, b) <= s.len(),
        forall|j: int| 0 <= j < index_of(s, b) ==> s[j] != b,
        index_of(s, b) < s.len() ==> s[index_of(s, b)] == b,
    decreases s.len(),
{
    if s.len() != 0 && s[0] != b {
        let t = s.drop_first();
        lemma_index_of(t, b);
        assert forall|j: int| 0 <= j < index_of(s, b) implies s[j] != b by {
            if j > 0 {
                assert(s[j] == t[j - 1]);
            }
        }
    }
}

/// The first position that holds `b`, with nothing equal to `b` before it, is
/// `index_of`.
pub proof fn lemma_index_of_is(s: Seq<u8>, b: u8, i: int)
    requires
        0 <= i <= s.len(),
        forall|j: int| 0 <= j < i ==> s[j] != b,
        i == s.len() || s[i] == b,
    ensures
        index_of(s, b) == i,
    decreases s.len(),
{
    if s.len() != 0 && i != 0 {
        let t = s.drop_first();
        assert forall|j: int| 0 <= j < i - 1 implies t[j] != b by {
            assert(t[j] == s[j + 1]);
        }
        lemma_index_of_is(t, b, i - 1);
    }
}

/// Finds the first `b` in `s`.
pub fn position(s: &[u8], b: u8) -> (r: usize)
    ensures
        r == index_of(s@, b),
{
    let mut i: usize = 0;
    while i < s.len() && s[i] != b
        invariant
            i <= s.len(),
            forall|j: int| 0 <= j < i ==> s@[j] != b,
        decreases s.len() - i,
    {
        i += 1;
    }
    proof {
        lemma_index_of_is(s@, b, i as int);
    }
    i
}

/// Whether a piece between two separators counts as a component.
pub open spec fn is_component(piece: Seq<u8>) -> bool {
    piece.len() > 0 && piece != seq![DOT]
}

/// The components of a path.
pub open spec fn split(p: Seq<u8>) -> Seq<Seq<u8>>
    decreases p.len(),
{
    if p.len() == 0 {
        Seq::empty()
    } else {
        let i = index_of(p, SEPARATOR);
        let piece = p.take(i);
        let rest = if 0 <= i < p.len() {
            split(p.skip(i + 1))
        } else {
            Seq::empty()
        };
        if is_component(piece) {
            seq![piece] + rest
        } else {
            rest
        }
    }
}

/// Whether a path starts at the file system's root rather than the archive's.
pub open spec fn is_absolute(p: Seq<u8>) -> bool {
    p.len() > 0 && p[0] == SEPARATOR
}

/// The components written out with one separator between neighbours.
pub open spec fn join(parts: Seq<Seq<u8>>) -> Seq<u8>
    decreases parts.len(),
{
    if parts.len() == 0 {
        Seq::empty()
    } else if parts.len() == 1 {
        parts[0]
    } else {
        join(parts.drop_last()) + seq![SEPARATOR] + parts.last()
    }
}

/// Whether `a` is `b` or one of the directories above `b`.
pub open spec fn is_prefix(a: Seq<Seq<u8>>, b: Seq<Seq<u8>>) -> bool {
    a.len() <= b.len() && b.take(a.len() as int) == a
}

/// How many leading components `a` and `b` share.
pub open spec fn common_len(a: Seq<Seq<u8>>, b: Seq<Seq<u8>>) -> nat
    decreases a.len(),
{
    if a.len() == 0 || b.len() == 0 || a[0] != b[0] {
        0
    } else {
        1 + common_len(a.drop_first(), b.drop_first())
    }
}

/// `common_len` is the length of the longest shared prefix.
pub proof fn lemma_common_len(a: Seq<Seq<u8>>, b: Seq<Seq<u8>>)
    ensures
        common_len(a, b) <= a.len(),
        common_len(a, b) <= b.len(),
        a.take(common_len(a, b) as int) == b.take(common_len(a, b) as int),
        common_len(a, b) < a.len() && common_len(a, b) < b.len() ==> a[common_len(a, b) as int]
            != b[common_len(a, b) as int],
    decreases a.len(),
{
    if a.len() == 0 || b.len() == 0 || a[0] != b[0] {
        assert(a.take(0) =~= b.take(0));
    } else {
        let a1 = a.drop_first();
        let b1 = b.drop_first();
        lemma_common_len(a1, b1);
        let n = common_len(a1, b1) as int;
        assert(a.take(n + 1) =~= seq![a[0]] + a1.take(n));
        assert(b.take(n + 1) =~= seq![b[0]] + b1.take(n));
        if n + 1 < a.len() && n + 1 < b.len() {
            assert(a[n + 1] == a1[n]);
            assert(b[n + 1] == b1[n]);
        }
    }
}

/// A number of components that both sequences share, with the next component
/// differing or missing, is `common_len`.
pub proof fn lemma_common_len_is(a: Seq<Seq<u8>>, b: Seq<Seq<u8>>, n: int)
    requires
        0 <= n <= a.len(),
        n <= b.len(),
        forall|j: int| 0 <= j < n ==> a[j] == b[j],
        n == a.len() || n == b.len() || a[n] != b[n],
    ensures
        common_len(a, b) == n,
    decreases a.len(),
{
    if n != 0 {
        assert(a[0] == b[0]);
        let a1 = a.drop_first();
        let b1 = b.drop_first();
        assert forall|j: int| 0 <= j < n - 1 implies a1[j] == b1[j] by {
            assert(a1[j] == a[j + 1]);
            assert(b1[j] == b[j + 1]);
        }
        if n < a.len() && n < b.len() {
            assert(a1[n - 1] == a[n]);
            assert(b1[n - 1] == b[n]);
        }
        lemma_common_len_is(a1, b1, n - 1);
    }
}

/// Whether `a` comes before `b`, or is `b`, in the order of their bytes.
pub open spec fn bytes_le(a: Seq<u8>, b: Seq<u8>) -> bool
    decreases a.len(),
{
    if a.len() == 0 {
        true
    } else if b.len() == 0 {
        false
    } else if a[0] != b[0] {
        a[0] < b[0]
    } else {
        bytes_le(a.drop_first(), b.drop_first())
    }
}

/// The order of bytes is total.
pub proof fn lemma_bytes_le_total(a: Seq<u8>, b: Seq<u8>)
    ensures
        bytes_le(a, b) || bytes_le(b, a),
    decreases a.len(),
{
    if a.len() != 0 && b.len() != 0 && a[0] == b[0] {
        lemma_bytes_le_total(a.drop_first(), b.drop_first());
    }
}

/// The order of bytes is transitive.
pub proof fn lemma_bytes_le_trans(a: Seq<u8>, b: Seq<u8>, c: Seq<u8>)
    requires
        bytes_le(a, b),
        bytes_le(b, c),
    ensures
        bytes_le(a, c),
    decreases a.len(),
{
    if a.len() != 0 && b.len() != 0 && c.len() != 0 && a[0] == b[0] && b[0] == c[0] {
        lemma_bytes_le_trans(a.drop_first(), b.drop_first(), c.drop_first());
    }
}

/// Compares two byte strings in the order of their bytes.
pub fn bytes_before_or_equal(a: &[u8], b: &[u8]) -> (r: bool)
    ensures
        r == bytes_le(a@, b@),
{
    let mut i: usize = 0;
    proof {
        assert(a@.skip(0) =~= a@);
        assert(b@.skip(0) =~= b@);
    }
    while i < a.len() && i < b.len() && a[i] == b[i]
        invariant
            i <= a.len(),
            i <= b.len(),
            bytes_le(a@, b@) == bytes_le(a@.skip(i as int), b@.skip(i as int)),
        decreases a.len() - i,
    {
        proof {
            let x = a@.skip(i as int);
            let y = b@.skip(i as int);
            assert(x[0] == y[0]);
            assert(x.drop_first() =~= a@.skip(i + 1));
            assert(y.drop_first() =~= b@.skip(i + 1));
        }
        i += 1;
    }
    proof {
        let x = a@.skip(i as int);
        let y = b@.skip(i as int);
        if i < a.len() && i < b.len() {
            assert(x[0] == a@[i as int]);
            assert(y[0] == b@[i as int]);
        }
    }
    if i == a.len() {
        true
    } else if i == b.len() {
        false
    } else {
        a[i] < b[i]
    }
}

/// Whether two byte strings hold the same bytes.
pub fn bytes_equal(a: &[u8], b: &[u8]) -> (r: bool)
    ensures
        r == (a@ == b@),
{
    if a.len() != b.len() {
        return false;
    }
    let mut i: usize = 0;
    while i < a.len()
        invariant
            i <= a.len(),
            a.len() == b.len(),
            forall|j: int| 0 <= j < i ==> a@[j] == b@[j],
        decreases a.len() - i,
    {
        if a[i] != b[i] {
            return false;
        }
        i += 1;
    }
    assert(a@ =~= b@);
    true
}

/// Copies `s[from..to]` into a vector of its own.
pub fn copy_range(s: &[u8], from: usize, to: usize) -> (r: Vec<u8>)
    requires
        from <= to <= s.len(),
    ensures
        r@ == s@.subrange(from as int, to as int),
{
    let mut r: Vec<u8> = Vec::new();
    let mut i: usize = from;
    while i < to
        invariant
            from <= i <= to <= s.len(),
            r@ == s@.subrange(from as int, i as int),
        decreases to - i,
    {
        r.push(s[i]);
        assert(r@ =~= s@.subrange(from as int, i + 1));
        i += 1;
    }
    r
}

/// A path as the list of its components.
#[derive(Debug)]
pub struct NormPath {
    parts: Vec<Vec<u8>>,
}

impl View for NormPath {
    type V = Seq<Seq<u8>>;

    closed spec fn view(&self) -> Seq<Seq<u8>> {
        Seq::new(self.parts@.len(), |i: int| self.parts@[i]@)
    }
}

impl NormPath {
    /// The archive root: the path without components.
    pub fn root() -> (r: NormPath)
        ensures
            r@ == Seq::<Seq<u8>>::empty(),
    {
        let r = NormPath { parts: Vec::new() };
        assert(r@ =~= Seq::<Seq<u8>>::empty());
        r
    }

    /// Cuts a path into its components.
    pub fn parse(p: &[u8]) -> (r: NormPath)
        ensures
            r@ == split(p@),
    {
        let mut parts: Vec<Vec<u8>> = Vec::new();
        let mut start: usize = 0;
        let ghost mut done: Seq<Seq<u8>> = Seq::empty();
        proof {
            assert(p@.skip(0) =~= p@);
            assert(done =~= Seq::new(parts@.len(), |i: int| parts@[i]@));
            assert(split(p@) =~= done + split(p@.skip(0)));
        }
        while start < p.len()
            invariant
                start <= p.len(),
                done == Seq::new(parts@.len(), |i: int| parts@[i]@),
                split(p@) == done + split(p@.skip(start as int)),
            decreases p.len() - start,
        {
            let ghost rest = p@.skip(start as int);
            let mut end: usize = start;
            while end < p.len() && p[end] != SEPARATOR
                invariant
                    start <= end <= p.len(),
                    forall|j: int| start <= j < end ==> p@[j] != SEPARATOR,
                decreases p.len() - end,
            {
                end += 1;
            }
            proof {
                assert forall|j: int| 0 <= j < end - start implies rest[j] != SEPARATOR by {
                    assert(rest[j] == p@[start + j]);
                }
                lemma_index_of_is(rest, SEPARATOR, end - start);
                assert(rest.take(end - start) =~= p@.subrange(start as int, end as int));
                if end < p.len() {
                    assert(rest.skip(end - start + 1) =~= p@.skip(end + 1));
                }
            }
            let keep = end > start && !(end - start == 1 && p[start] == DOT);
            proof {
                let piece = p@.subrange(start as int, end as int);
                if end - start == 1 {
                    assert(piece =~= seq![p@[start as int]]);
                    if p@[start as int] != DOT {
                        assert(piece[0] != seq![DOT][0]);
                    }
                }
                assert(keep == is_component(piece));
            }
            if keep {
                let piece = copy_range(p, start, end);
                parts.push(piece);
                proof {
                    done = done.push(piece@);
                    assert(done =~= Seq::new(parts@.len(), |i: int| parts@[i]@));
                }
            }
            proof {
                if end == p.len() {
                    assert(p@.skip(p.len() as int) =~= Seq::<u8>::empty());
                }
                assert(split(rest) == if is_component(rest.take(end - start)) {
                    seq![rest.take(end - start)] + (if end < p.len() {
                        split(rest.skip(end - start + 1))
                    } else {
                        Seq::empty()
                    })
                } else {
                    if end < p.len() {
                        split(rest.skip(end - start + 1))
                    } else {
                        Seq::empty()
                    }
                });
            }
            if end < p.len() {
                start = end + 1;
            } else {
                start = end;
            }
            proof {
                assert(split(p@) =~= done + split(p@.skip(start as int)));
            }
        }
        proof {
            assert(p@.skip(start as int) =~= Seq::<u8>::empty());
            assert(split(p@) =~= done);
        }
        NormPath { parts }
    }

    /// The number of components.
    pub fn len(&self) -> (r: usize)
        ensures
            r == self@.len(),
    {
        self.parts.len()
    }

    /// The component at `i`.
    pub fn part(&self, i: usize) -> (r: &Vec<u8>)
        requires
            i < self@.len(),
        ensures
            r@ == self@[i as int],
    {
        &self.parts[i]
    }

    /// A copy of the first `n` components.
    pub fn prefix(&self, n: usize) -> (r: NormPath)
        requires
            n <= self@.len(),
        ensures
            r@ == self@.take(n as int),
    {
        let mut parts: Vec<Vec<u8>> = Vec::new();
        let mut i: usize = 0;
        while i < n
            invariant
                i <= n <= self.parts@.len(),
                parts@.len() == i,
                forall|j: int| 0 <= j < i ==> parts@[j]@ == self.parts@[j]@,
            decreases n - i,
        {
            let piece = copy_range(self.parts[i].as_slice(), 0, self.parts[i].len());
            assert(piece@ =~= self.parts@[i as int]@);
            parts.push(piece);
            i += 1;
        }
        let r = NormPath { parts };
        assert(r@ =~= self@.take(n as int));
        r
    }

    /// Drops all but the first `n` components.
    pub fn truncate(&mut self, n: usize)
        requires
            n <= old(self)@.len(),
        ensures
            final(self)@ == old(self)@.take(n as int),
    {
        self.parts.truncate(n);
        assert(self@ =~= old(self)@.take(n as int));
    }

    /// Appends one component.
    pub fn push(&mut self, piece: Vec<u8>)
        ensures
            final(self)@ == old(self)@.push(piece@),
    {
        self.parts.push(piece);
        assert(self@ =~= old(self)@.push(piece@));
    }

    /// How many leading components this path shares with `other`.
    pub fn shared_with(&self, other: &NormPath) -> (r: usize)
        ensures
            r == common_len(self@, other@),
    {
        let mut i: usize = 0;
        while i < self.parts.len() && i < other.parts.len() && bytes_equal(
            self.parts[i].as_slice(),
            other.parts[i].as_slice(),
        )
            invariant
                i <= self.parts@.len(),
                i <= other.parts@.len(),
                forall|j: int| 0 <= j < i ==> self@[j] == other@[j],
            decreases self.parts@.len() - i,
        {
            i += 1;
        }
        proof {
            lemma_common_len_is(self@, other@, i as int);
        }
        i
    }

    /// Whether both paths have the same components.
    pub fn same(&self, other: &NormPath) -> (r: bool)
        ensures
            r == (self@ == other@),
    {
        if self.parts.len() != other.parts.len() {
            return false;
        }
        let n = self.shared_with(other);
        proof {
            lemma_common_len(self@, other@);
            if n == self@.len() {
                assert(self@ =~= self@.take(n as int));
                assert(other@ =~= other@.take(n as int));
            }
        }
        n == self.parts.len()
    }

    /// Whether this path is `other` or a directory above it.
    pub fn is_prefix_of(&self, other: &NormPath) -> (r: bool)
        ensures
            r == is_prefix(self@, other@),
    {
        if self.parts.len() > other.parts.len() {
            return false;
        }
        let n = self.shared_with(other);
        proof {
            lemma_common_len(self@, other@);
            if n == self@.len() {
                assert(self@ =~= self@.take(n as int));
            } else {
                if other@.take(self@.len() as int) == self@ {
                    assert(other@.take(self@.len() as int)[n as int] == other@[n as int]);
                }
            }
        }
        n == self.parts.len()
    }

    /// The path as bytes, with one separator between components.
    pub fn to_bytes(&self) -> (r: Vec<u8>)
        ensures
            r@ == join(self@),
    {
        let mut out: Vec<u8> = Vec::new();
        let mut i: usize = 0;
        while i < self.parts.len()
            invariant
                i <= self.parts@.len(),
                out@ == join(self@.take(i as int)),
            decreases self.parts@.len() - i,
        {
            let ghost before = out@;
            if i > 0 {
                out.push(SEPARATOR);
            }
            out.extend_from_slice(self.parts[i].as_slice());
            proof {
                let next = self@.take(i + 1);
                assert(next.drop_last() =~= self@.take(i as int));
                assert(next.last() == self.parts@[i as int]@);
                if i == 0 {
                    assert(before =~= Seq::<u8>::empty());
                    assert(out@ =~= next[0]);
                } else {
                    assert(out@ =~= before + seq![SEPARATOR] + next.last());
                }
            }
            i += 1;
        }
        proof {
            assert(self@.take(self@.len() as int) =~= self@);
        }
        out
    }
}

} // verus!
