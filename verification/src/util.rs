//! Helpers of the engine: the records that all archives share, the comparison
//! of contents, and the wording of sizes.

use crate::header::HashableHeader;
use crate::headermap::{distinct, HeaderMap};
use vstd::prelude::*;
use vstd::string::StringExecFns;

verus! {

/// The members of `s` for which `p` holds, in their order.
pub open spec fn keep(s: Seq<Seq<u8>>, p: spec_fn(Seq<u8>) -> bool) -> Seq<Seq<u8>>
    decreases s.len(),
{
    if s.len() == 0 {
        Seq::empty()
    } else if p(s.last()) {
        keep(s.drop_last(), p).push(s.last())
    } else {
        keep(s.drop_last(), p)
    }
}

/// What `keep` keeps: the members for which `p` holds, and each as often as
/// it stood in `s`.
pub proof fn lemma_keep(s: Seq<Seq<u8>>, p: spec_fn(Seq<u8>) -> bool)
    ensures
        keep(s, p).len() <= s.len(),
        forall|h: Seq<u8>| #[trigger] keep(s, p).contains(h) <==> s.contains(h) && p(h),
        distinct(s) ==> distinct(keep(s, p)),
    decreases s.len(),
{
    if s.len() != 0 {
        let rest = s.drop_last();
        let kept = keep(rest, p);
        lemma_keep(rest, p);
        assert forall|h: Seq<u8>| #[trigger] keep(s, p).contains(h) <==> s.contains(h) && p(
            h,
        ) by {
            if s.contains(h) && p(h) {
                let i = choose|i: int| 0 <= i < s.len() && s[i] == h;
                if i < rest.len() {
                    assert(rest[i] == h);
                    assert(rest.contains(h));
                    assert(kept.contains(h));
                    let j = choose|j: int| 0 <= j < kept.len() && kept[j] == h;
                    assert(keep(s, p)[j] == h);
                } else {
                    assert(keep(s, p)[kept.len() as int] == h);
                }
            }
            if keep(s, p).contains(h) {
                let j = choose|j: int| 0 <= j < keep(s, p).len() && keep(s, p)[j] == h;
                if j < kept.len() {
                    assert(kept[j] == h);
                    assert(kept.contains(h));
                    let i = choose|i: int| 0 <= i < rest.len() && rest[i] == h;
                    assert(s[i] == h);
                } else {
                    assert(s[s.len() - 1] == h);
                }
            }
        }
        if distinct(s) {
            assert forall|i: int, j: int| 0 <= i < j < rest.len() implies #[trigger] rest[i]
                != #[trigger] rest[j] by {
                assert(rest[i] == s[i]);
                assert(rest[j] == s[j]);
            }
            if p(s.last()) {
                assert forall|i: int, j: int| 0 <= i < j < keep(s, p).len() implies #[trigger] keep(
                    s,
                    p,
                )[i] != #[trigger] keep(s, p)[j] by {
                    if j == kept.len() {
                        assert(kept[i] == keep(s, p)[i]);
                        assert(kept.contains(kept[i]));
                        let a = choose|a: int| 0 <= a < rest.len() && rest[a] == kept[i];
                        assert(s[a] == rest[a]);
                        assert(s[a] != s[s.len() - 1]);
                    } else {
                        assert(kept[i] != kept[j]);
                    }
                }
            }
        }
    }
}

/// Whether every one of `maps` holds the record `h`.
pub open spec fn in_all(maps: Seq<Seq<Seq<u8>>>, h: Seq<u8>) -> bool {
    forall|i: int| 0 <= i < maps.len() ==> (#[trigger] maps[i]).contains(h)
}

/// The records that every one of `maps` holds, in the order of the first.
/// Where there are no maps there are none.
pub open spec fn common_keys(maps: Seq<Seq<Seq<u8>>>) -> Seq<Seq<u8>> {
    if maps.len() == 0 {
        Seq::empty()
    } else {
        keep(maps[0], |h: Seq<u8>| in_all(maps, h))
    }
}

/// The keys of each of `hms`.
pub open spec fn key_lists(hms: Seq<HeaderMap>) -> Seq<Seq<Seq<u8>>> {
    Seq::new(hms.len(), |i: int| hms[i].keys())
}

/// A record is common exactly if every map holds it, and it comes once.
pub proof fn lemma_common_keys(maps: Seq<Seq<Seq<u8>>>)
    ensures
        forall|h: Seq<u8>| #[trigger]
            common_keys(maps).contains(h) <==> maps.len() > 0 && in_all(maps, h),
        maps.len() > 0 && distinct(maps[0]) ==> distinct(common_keys(maps)),
{
    if maps.len() > 0 {
        lemma_keep(maps[0], |h: Seq<u8>| in_all(maps, h));
        assert forall|h: Seq<u8>| in_all(maps, h) implies maps[0].contains(h) by {}
    }
}

/// The records that all of `hms` hold.
pub fn find_common_keys(hms: &[HeaderMap]) -> (r: Vec<HashableHeader>)
    ensures
        Seq::new(r@.len(), |i: int| r@[i]@) == common_keys(key_lists(hms@)),
{
    let ghost maps = key_lists(hms@);
    let ghost pred = |h: Seq<u8>| in_all(maps, h);
    let mut out: Vec<HashableHeader> = Vec::new();
    if hms.len() == 0 {
        assert(Seq::new(out@.len(), |i: int| out@[i]@) =~= Seq::<Seq<u8>>::empty());
        return out;
    }
    let first = &hms[0];
    let mut p: usize = 0;
    proof {
        assert(maps[0] == hms@[0].keys());
        assert(Seq::new(out@.len(), |i: int| out@[i]@) =~= keep(maps[0].take(0), pred));
    }
    while p < first.len()
        invariant
            p <= first.keys().len(),
            hms@.len() > 0,
            *first == hms@[0],
            maps == key_lists(hms@),
            pred == (|h: Seq<u8>| in_all(maps, h)),
            Seq::new(out@.len(), |i: int| out@[i]@) == keep(maps[0].take(p as int), pred),
        decreases first.keys().len() - p,
    {
        let h = first.key(p);
        let mut i: usize = 1;
        let mut everywhere = true;
        proof {
            assert(maps[0] == first.keys());
            assert(maps[0].contains(h@)) by {
                assert(maps[0][p as int] == h@);
            }
        }
        while i < hms.len() && everywhere
            invariant
                1 <= i <= hms@.len(),
                maps == key_lists(hms@),
                maps[0].contains(h@),
                everywhere ==> forall|j: int| 0 <= j < i ==> (#[trigger] maps[j]).contains(h@),
                !everywhere ==> !in_all(maps, h@),
            decreases hms@.len() - i + if everywhere { 1int } else { 0int },
        {
            assert(maps[i as int] == hms@[i as int].keys());
            if hms[i].contains(h) {
                i += 1;
            } else {
                everywhere = false;
            }
        }
        proof {
            let now = maps[0].take(p + 1);
            assert(now.drop_last() =~= maps[0].take(p as int));
            assert(now.last() == h@);
            assert(everywhere == pred(h@));
        }
        let ghost before = Seq::new(out@.len(), |i: int| out@[i]@);
        if everywhere {
            out.push(*h);
            proof {
                assert(Seq::new(out@.len(), |i: int| out@[i]@) =~= before.push(h@));
            }
        }
        p += 1;
    }
    proof {
        assert(maps[0].take(p as int) =~= maps[0]);
    }
    out
}

/// The character of the digit `d`.
pub open spec fn digit_char(d: nat) -> char {
    if d == 0 {
        '0'
    } else if d == 1 {
        '1'
    } else if d == 2 {
        '2'
    } else if d == 3 {
        '3'
    } else if d == 4 {
        '4'
    } else if d == 5 {
        '5'
    } else if d == 6 {
        '6'
    } else if d == 7 {
        '7'
    } else if d == 8 {
        '8'
    } else {
        '9'
    }
}

/// The number `n` as decimal digits, with no zeros in front.
pub open spec fn decimal_digits(n: nat) -> Seq<char>
    decreases n,
{
    if n < 10 {
        seq![digit_char(n)]
    } else {
        decimal_digits(n / 10).push(digit_char(n % 10))
    }
}

/// One digit as text.
fn digit_text(d: u64) -> (r: &'static str)
    requires
        d < 10,
    ensures
        r@ == seq![digit_char(d as nat)],
{
    proof {
        reveal_strlit("0");
        reveal_strlit("1");
        reveal_strlit("2");
        reveal_strlit("3");
        reveal_strlit("4");
        reveal_strlit("5");
        reveal_strlit("6");
        reveal_strlit("7");
        reveal_strlit("8");
        reveal_strlit("9");
    }
    let r = if d == 0 {
        "0"
    } else if d == 1 {
        "1"
    } else if d == 2 {
        "2"
    } else if d == 3 {
        "3"
    } else if d == 4 {
        "4"
    } else if d == 5 {
        "5"
    } else if d == 6 {
        "6"
    } else if d == 7 {
        "7"
    } else if d == 8 {
        "8"
    } else {
        "9"
    };
    assert(r@ =~= seq![digit_char(d as nat)]);
    r
}

/// Appends `n` in decimal digits to `text`.
fn append_decimal(text: &mut String, n: u64)
    ensures
        final(text)@ == old(text)@ + decimal_digits(n as nat),
    decreases n,
{
    if n >= 10 {
        append_decimal(text, n / 10);
    }
    text.append(digit_text(n % 10));
    proof {
        if n >= 10 {
            assert(text@ =~= old(text)@ + decimal_digits(n as nat));
        } else {
            assert(text@ =~= old(text)@ + decimal_digits(n as nat));
        }
    }
}

/// The smallest number of bytes that is given in kilobytes.
pub const KILO_FROM: u64 = 99 * 1024 + 1;

/// The smallest number of bytes that is given in megabytes.
pub const MEGA_FROM: u64 = 99 * 1024 * 1024 + 1;

/// A number of bytes in words: a tilde, the number in the largest unit of
/// which it holds more than 99, rounded down, and the unit.
pub open spec fn num_bytes_text(num: u64) -> Seq<char> {
    if num >= MEGA_FROM {
        seq!['~'] + decimal_digits((num / 1024 / 1024) as nat) + seq!['M', 'B']
    } else if num >= KILO_FROM {
        seq!['~'] + decimal_digits((num / 1024) as nat) + seq!['K', 'B']
    } else {
        seq!['~'] + decimal_digits(num as nat) + seq!['B']
    }
}

/// Words a number of bytes for a report.
pub fn format_num_bytes(num: u64) -> (r: String)
    ensures
        r@ == num_bytes_text(num),
{
    proof {
        reveal_strlit("~");
        reveal_strlit("MB");
        reveal_strlit("KB");
        reveal_strlit("B");
    }
    let mut text = String::from_str("~");
    assert(text@ =~= seq!['~']);
    if num >= MEGA_FROM {
        append_decimal(&mut text, num / 1024 / 1024);
        text.append("MB");
        assert("MB"@ =~= seq!['M', 'B']);
    } else if num >= KILO_FROM {
        append_decimal(&mut text, num / 1024);
        text.append("KB");
        assert("KB"@ =~= seq!['K', 'B']);
    } else {
        append_decimal(&mut text, num);
        text.append("B");
        assert("B"@ =~= seq!['B']);
    }
    text
}

/// How many bytes of each content are compared at a time.
pub const CHUNK: usize = 512;

/// Whether all of `rs` hold the same bytes.
pub open spec fn all_identical(rs: Seq<Seq<u8>>) -> bool {
    forall|i: int| 0 <= i < rs.len() ==> #[trigger] rs[i] == rs[0]
}

/// The contents of `rs`.
pub open spec fn contents(rs: Seq<&[u8]>) -> Seq<Seq<u8>> {
    Seq::new(rs.len(), |i: int| rs[i]@)
}

/// Whether the bytes of `a` and `b` from `from` up to `to` are the same.
fn same_range(a: &[u8], b: &[u8], from: usize, to: usize) -> (r: bool)
    requires
        from <= to <= a@.len(),
        to <= b@.len(),
    ensures
        r == (a@.subrange(from as int, to as int) == b@.subrange(from as int, to as int)),
{
    let mut i: usize = from;
    while i < to
        invariant
            from <= i <= to <= a@.len(),
            to <= b@.len(),
            forall|j: int| from <= j < i ==> a@[j] == b@[j],
        decreases to - i,
    {
        if a[i] != b[i] {
            proof {
                let x = a@.subrange(from as int, to as int);
                let y = b@.subrange(from as int, to as int);
                assert(x[i - from] != y[i - from]);
            }
            return false;
        }
        i += 1;
    }
    assert(a@.subrange(from as int, to as int) =~= b@.subrange(from as int, to as int));
    true
}

/// Compares contents in step, `chunk` bytes of each at a time, and stops at
/// the first difference. The size of the steps does not change the answer.
pub fn identical_in_steps(rs: &[&[u8]], chunk: usize) -> (r: bool)
    requires
        chunk > 0,
    ensures
        r == all_identical(contents(rs@)),
{
    if rs.len() == 0 {
        return true;
    }
    let ghost all = contents(rs@);
    let base = rs[0];
    let mut done: usize = 0;
    proof {
        assert forall|i: int| 0 <= i < all.len() implies (#[trigger] all[i]).take(0) == all[0].take(
            0,
        ) by {
            assert(all[i].take(0) =~= all[0].take(0));
        }
    }
    loop
        invariant
            chunk > 0,
            rs@.len() > 0,
            all == contents(rs@),
            base@ == all[0],
            done <= base@.len(),
            forall|i: int| 0 <= i < all.len() ==> done <= (#[trigger] all[i]).len(),
            forall|i: int|
                0 <= i < all.len() ==> (#[trigger] all[i]).take(done as int) == all[0].take(
                    done as int,
                ),
        decreases base@.len() - done,
    {
        let end = if base.len() - done > chunk {
            done + chunk
        } else {
            base.len()
        };
        let mut i: usize = 1;
        while i < rs.len()
            invariant
                1 <= i <= rs@.len(),
                all == contents(rs@),
                base@ == all[0],
                done <= end <= base@.len(),
                chunk > 0,
                end == if base@.len() - done > chunk {
                    done + chunk
                } else {
                    base@.len() as int
                },
                forall|j: int| 0 <= j < all.len() ==> done <= (#[trigger] all[j]).len(),
                forall|j: int|
                    0 <= j < all.len() ==> (#[trigger] all[j]).take(done as int) == all[0].take(
                        done as int,
                    ),
                forall|j: int| 0 <= j < i ==> end <= (#[trigger] all[j]).len(),
                forall|j: int| 0 <= j < i ==> (end == done ==> (#[trigger] all[j]).len() == end),
                forall|j: int|
                    0 <= j < i ==> (#[trigger] all[j]).take(end as int) == all[0].take(end as int),
            decreases rs@.len() - i,
        {
            let other = rs[i];
            assert(other@ == all[i as int]);
            let other_end = if other.len() - done > chunk {
                done + chunk
            } else {
                other.len()
            };
            if other_end != end {
                proof {
                    assert(all[i as int].len() != all[0].len());
                }
                return false;
            }
            if !same_range(base, other, done, end) {
                proof {
                    if all[i as int] == all[0] {
                        assert(base@.subrange(done as int, end as int) =~= other@.subrange(
                            done as int,
                            end as int,
                        ));
                    }
                }
                return false;
            }
            proof {
                let x = all[i as int].take(end as int);
                let y = all[0].take(end as int);
                assert(x =~= all[i as int].take(done as int) + other@.subrange(
                    done as int,
                    end as int,
                ));
                assert(y =~= all[0].take(done as int) + base@.subrange(done as int, end as int));
            }
            i += 1;
        }
        if end == done {
            proof {
                assert forall|j: int| 0 <= j < all.len() implies #[trigger] all[j] == all[0] by {
                    assert(all[j].take(end as int) =~= all[j]);
                    assert(all[0].take(end as int) =~= all[0]);
                }
            }
            return true;
        }
        done = end;
    }
}

/// Whether all contents hold the same bytes.
pub fn readers_identical(rs: &[&[u8]]) -> (r: bool)
    ensures
        r == all_identical(contents(rs@)),
{
    identical_in_steps(rs, CHUNK)
}

/// Borrows each of `strings` as a slice.
pub fn to_string_slices(strings: &[String]) -> (r: Vec<&str>)
    ensures
        r@.len() == strings@.len(),
        forall|i: int| 0 <= i < r@.len() ==> (#[trigger] r@[i])@ == strings@[i]@,
{
    let mut out: Vec<&str> = Vec::new();
    let mut i: usize = 0;
    while i < strings.len()
        invariant
            i <= strings@.len(),
            out@.len() == i,
            forall|j: int| 0 <= j < i ==> (#[trigger] out@[j])@ == strings@[j]@,
        decreases strings@.len() - i,
    {
        out.push(strings[i].as_str());
        i += 1;
    }
    out
}

} // verus!
