//! Byte-string utilities.
//!
//! Paths and persisted text are handled as UTF-8 byte strings; a path is a
//! sequence of name components.  Everything here is pure computation on
//! bytes, verified against direct mathematical statements.

use vstd::prelude::*;
use vstd::std_specs::cmp::PartialEqSpec;

verus! {

/// The path separator in archive entry names.
pub const SEPARATOR: u8 = 47;

/// The `.` byte that separates a file name from its extension.
pub const DOT: u8 = 46;

/// The view of a sequence of byte-string components.
pub open spec fn path_view(p: Seq<Vec<u8>>) -> Seq<Seq<u8>> {
    p.map_values(|c: Vec<u8>| c@)
}

/// Byte-string equality, decided in executable code.
pub fn bytes_eq(a: &Vec<u8>, b: &Vec<u8>) -> (r: bool)
    ensures
        r == (a@ == b@),
{
    let r = <Vec<u8> as PartialEq>::eq(a, b);
    proof {
        if r {
            assert(a@ =~= b@);
        } else {
            if a@ == b@ {
                assert(a.eq_spec(b));
            }
        }
    }
    r
}

/// Component-path equality, decided in executable code.
pub fn path_eq(a: &Vec<Vec<u8>>, b: &Vec<Vec<u8>>) -> (r: bool)
    ensures
        r == (path_view(a@) == path_view(b@)),
{
    let r = <Vec<Vec<u8>> as PartialEq>::eq(a, b);
    proof {
        if r {
            assert forall|i: int| 0 <= i < a@.len() implies path_view(a@)[i] == path_view(
                b@,
            )[i] by {
                assert(a@[i].eq_spec(&b@[i]));
                assert(a@[i]@ =~= b@[i]@);
            }
            assert(path_view(a@) =~= path_view(b@));
        } else {
            if path_view(a@) == path_view(b@) {
                assert(a@.len() == b@.len()) by {
                    assert(path_view(a@).len() == path_view(b@).len());
                }
                assert forall|i: int| 0 <= i < a@.len() implies a@[i].eq_spec(&b@[i]) by {
                    assert(path_view(a@)[i] == path_view(b@)[i]);
                }
                assert(a.eq_spec(b));
            }
        }
    }
    r
}

/// One component path is an initial segment of another.
pub open spec fn is_prefix_of(p: Seq<Seq<u8>>, q: Seq<Seq<u8>>) -> bool {
    p.len() <= q.len() && forall|i: int| 0 <= i < p.len() ==> q[i] == p[i]
}

/// Decides whether `p` is an initial segment of `q`.
pub fn path_has_prefix(q: &Vec<Vec<u8>>, p: &Vec<Vec<u8>>) -> (r: bool)
    ensures
        r == is_prefix_of(path_view(p@), path_view(q@)),
{
    if p.len() > q.len() {
        return false;
    }
    let mut i: usize = 0;
    while i < p.len()
        invariant
            0 <= i <= p@.len(),
            p@.len() <= q@.len(),
            forall|j: int| 0 <= j < i ==> path_view(q@)[j] == path_view(p@)[j],
        decreases p@.len() - i,
    {
        if !bytes_eq(&q[i], &p[i]) {
            assert(path_view(q@)[i as int] != path_view(p@)[i as int]);
            return false;
        }
        assert(path_view(q@)[i as int] == path_view(p@)[i as int]);
        i += 1;
    }
    true
}

/// The byte string obtained by joining `segs` with the byte `sep` between
/// neighbouring segments.
pub open spec fn join_with(segs: Seq<Seq<u8>>, sep: u8) -> Seq<u8>
    decreases segs.len(),
{
    if segs.len() == 0 {
        Seq::empty()
    } else if segs.len() == 1 {
        segs[0]
    } else {
        segs[0] + seq![sep] + join_with(segs.drop_first(), sep)
    }
}

/// Joining after appending one more segment appends one separator and the
/// segment.
pub proof fn lemma_join_push(segs: Seq<Seq<u8>>, sep: u8, last: Seq<u8>)
    requires
        segs.len() >= 1,
    ensures
        join_with(segs.push(last), sep) == join_with(segs, sep) + seq![sep] + last,
    decreases segs.len(),
{
    if segs.len() == 1 {
        let two = segs.push(last);
        assert(two.drop_first() =~= seq![last]);
        assert(join_with(two.drop_first(), sep) == last);
        assert(join_with(two, sep) == segs[0] + seq![sep] + last);
    } else {
        lemma_join_push(segs.drop_first(), sep, last);
        assert(segs.push(last).drop_first() =~= segs.drop_first().push(last));
        assert(join_with(segs.push(last), sep) == segs[0] + seq![sep] + join_with(
            segs.drop_first().push(last),
            sep,
        ));
        assert(segs[0] + seq![sep] + (join_with(segs.drop_first(), sep) + seq![sep] + last) =~= (
        segs[0] + seq![sep] + join_with(segs.drop_first(), sep)) + seq![sep] + last);
    }
}

/// Extending the final segment by one byte extends the join by that byte.
pub proof fn lemma_join_extend_last(segs: Seq<Seq<u8>>, sep: u8, last: Seq<u8>, b: u8)
    ensures
        join_with(segs.push(last.push(b)), sep) == join_with(segs.push(last), sep).push(b),
    decreases segs.len(),
{
    if segs.len() == 0 {
        assert(segs.push(last.push(b)) =~= seq![last.push(b)]);
        assert(segs.push(last) =~= seq![last]);
        assert(join_with(segs.push(last.push(b)), sep) == last.push(b));
        assert(join_with(segs.push(last), sep).push(b) =~= last.push(b));
    } else {
        lemma_join_extend_last(segs.drop_first(), sep, last, b);
        assert(segs.push(last.push(b)).drop_first() =~= segs.drop_first().push(last.push(b)));
        assert(segs.push(last).drop_first() =~= segs.drop_first().push(last));
        if segs.len() == 0 {
        } else {
            assert(join_with(segs.push(last.push(b)), sep) == segs[0] + seq![sep] + join_with(
                segs.drop_first().push(last.push(b)),
                sep,
            ));
            assert(segs[0] + seq![sep] + join_with(segs.drop_first().push(last), sep).push(b) =~= (
            segs[0] + seq![sep] + join_with(segs.drop_first().push(last), sep)).push(b));
        }
    }
}

/// Splits a byte string at every occurrence of `sep`.
///
/// The result is pinned down exactly: joining the segments with `sep`
/// gives the input back, and no segment contains `sep`.
pub fn split_bytes(name: &Vec<u8>, sep: u8) -> (r: Vec<Vec<u8>>)
    ensures
        r@.len() >= 1,
        join_with(path_view(r@), sep) == name@,
        forall|k: int| 0 <= k < r@.len() ==> !(#[trigger] path_view(r@)[k]).contains(sep),
{
    let mut segs: Vec<Vec<u8>> = Vec::new();
    let mut cur: Vec<u8> = Vec::new();
    let mut i: usize = 0;
    proof {
        assert(path_view(segs@).push(cur@) =~= seq![cur@]);
        assert(name@.take(0) =~= Seq::<u8>::empty());
    }
    while i < name.len()
        invariant
            0 <= i <= name@.len(),
            join_with(path_view(segs@).push(cur@), sep) == name@.take(i as int),
            forall|k: int| 0 <= k < segs@.len() ==> !(#[trigger] path_view(segs@)[k]).contains(
                sep,
            ),
            !cur@.contains(sep),
        decreases name@.len() - i,
    {
        let b = name[i];
        proof {
            assert(name@.take(i + 1) =~= name@.take(i as int).push(name@[i as int]));
        }
        if b == sep {
            let ghost old_segs = segs@;
            let ghost old_cur = cur@;
            segs.push(cur);
            cur = Vec::new();
            proof {
                lemma_join_push(path_view(old_segs).push(old_cur), sep, Seq::<u8>::empty());
                assert(path_view(segs@) =~= path_view(old_segs).push(old_cur));
                assert(path_view(segs@).push(cur@) =~= path_view(old_segs).push(old_cur).push(
                    Seq::<u8>::empty(),
                ));
                assert(join_with(path_view(segs@).push(cur@), sep) =~= name@.take(i as int)
                    + seq![sep] + Seq::<u8>::empty());
                assert(name@.take(i as int) + seq![sep] + Seq::<u8>::empty() =~= name@.take(
                    i + 1,
                ));
            }
        } else {
            let ghost old_cur = cur@;
            cur.push(b);
            proof {
                lemma_join_extend_last(path_view(segs@), sep, old_cur, b);
                assert(cur@ =~= old_cur.push(b));
                assert(join_with(path_view(segs@).push(cur@), sep) == name@.take(i as int).push(
                    b,
                ));
                assert(forall|j: int|
                    0 <= j < cur@.len() ==> cur@[j] == if j < old_cur.len() {
                        old_cur[j]
                    } else {
                        b
                    });
                assert(!cur@.contains(sep));
            }
        }
        i += 1;
    }
    proof {
        assert(name@.take(name@.len() as int) =~= name@);
    }
    let ghost final_segs = segs@;
    let ghost final_cur = cur@;
    segs.push(cur);
    proof {
        assert(path_view(segs@) =~= path_view(final_segs).push(final_cur));
    }
    segs
}

/// The view of a list of component paths.
pub open spec fn paths_view(s: Seq<Vec<Vec<u8>>>) -> Seq<Seq<Seq<u8>>> {
    s.map_values(|p: Vec<Vec<u8>>| path_view(p@))
}

/// An element-wise copy of a byte string.
pub fn clone_bytes(v: &Vec<u8>) -> (r: Vec<u8>)
    ensures
        r@ == v@,
{
    let mut r: Vec<u8> = Vec::new();
    let mut i: usize = 0;
    while i < v.len()
        invariant
            0 <= i <= v@.len(),
            r@ =~= v@.take(i as int),
        decreases v@.len() - i,
    {
        r.push(v[i]);
        proof {
            assert(r@ =~= v@.take(i + 1));
        }
        i += 1;
    }
    proof {
        assert(v@.take(v@.len() as int) =~= v@);
    }
    r
}

/// An element-wise copy of the first `k` components of a path.
pub fn prefix_path(p: &Vec<Vec<u8>>, k: usize) -> (r: Vec<Vec<u8>>)
    requires
        k <= p@.len(),
    ensures
        path_view(r@) == path_view(p@).take(k as int),
{
    let mut r: Vec<Vec<u8>> = Vec::new();
    let mut i: usize = 0;
    while i < k
        invariant
            0 <= i <= k <= p@.len(),
            path_view(r@) =~= path_view(p@).take(i as int),
        decreases k - i,
    {
        let ghost old_r = r@;
        r.push(clone_bytes(&p[i]));
        proof {
            assert(path_view(old_r).len() == old_r.len());
            assert(path_view(old_r).len() == i);
            assert(old_r.len() == i);
            assert(r@.len() == i + 1);
            assert forall|j: int| 0 <= j < i + 1 implies path_view(r@)[j] == path_view(p@).take(
                i + 1,
            )[j] by {
                assert(path_view(r@)[j] == r@[j]@);
                if j < i {
                    assert(r@[j] == old_r[j]);
                    assert(path_view(old_r)[j] == old_r[j]@);
                    assert(path_view(old_r)[j] == path_view(p@).take(i as int)[j]);
                } else {
                    assert(r@[j]@ == p@[i as int]@);
                }
            }
            assert(path_view(r@) =~~= path_view(p@).take(i + 1));
        }
        i += 1;
    }
    r
}

/// An element-wise copy of a component path.
pub fn clone_path(p: &Vec<Vec<u8>>) -> (r: Vec<Vec<u8>>)
    ensures
        path_view(r@) == path_view(p@),
{
    let r = prefix_path(p, p.len());
    proof {
        assert(path_view(p@).take(p@.len() as int) =~~= path_view(p@));
    }
    r
}

/// The path made of `base` followed by the components of `tail` from
/// position `k` on.
pub fn remap_path(base: &Vec<Vec<u8>>, tail: &Vec<Vec<u8>>, k: usize) -> (r: Vec<Vec<u8>>)
    requires
        k <= tail@.len(),
    ensures
        path_view(r@) == path_view(base@) + path_view(tail@).skip(k as int),
{
    let mut r = clone_path(base);
    let mut i: usize = k;
    while i < tail.len()
        invariant
            k <= i <= tail@.len(),
            path_view(r@) =~= path_view(base@) + path_view(tail@).subrange(k as int, i as int),
        decreases tail@.len() - i,
    {
        let ghost old_r = r@;
        r.push(clone_bytes(&tail[i]));
        proof {
            assert(path_view(old_r).len() == old_r.len());
            assert(old_r.len() == base@.len() + (i - k));
            assert(r@.len() == base@.len() + (i + 1 - k));
            assert forall|j: int|
                0 <= j < r@.len() implies path_view(r@)[j] == (path_view(base@) + path_view(
                tail@,
            ).subrange(k as int, i + 1))[j] by {
                assert(path_view(r@)[j] == r@[j]@);
                if j < old_r.len() {
                    assert(r@[j] == old_r[j]);
                    assert(path_view(old_r)[j] == old_r[j]@);
                } else {
                    assert(r@[j]@ == tail@[i as int]@);
                }
            }
            assert(path_view(r@) =~~= path_view(base@) + path_view(tail@).subrange(
                k as int,
                i + 1,
            ));
        }
        i += 1;
    }
    proof {
        assert(path_view(tail@).subrange(k as int, tail@.len() as int) =~~= path_view(
            tail@,
        ).skip(k as int));
    }
    r
}

/// Appends one component to a copy of `base`.
pub fn push_component(base: &Vec<Vec<u8>>, name: &Vec<u8>) -> (r: Vec<Vec<u8>>)
    ensures
        path_view(r@) == path_view(base@).push(name@),
{
    let mut r = clone_path(base);
    r.push(clone_bytes(name));
    proof {
        assert(path_view(r@) =~~= path_view(base@).push(name@));
    }
    r
}

/// ASCII lower-casing of one byte.
pub open spec fn lower_byte(b: u8) -> u8 {
    if 65 <= b <= 90 {
        (b + 32) as u8
    } else {
        b
    }
}

/// ASCII lower-casing of a byte string.
pub open spec fn lower_bytes(s: Seq<u8>) -> Seq<u8> {
    s.map_values(|b: u8| lower_byte(b))
}

/// Returns the ASCII lower-cased copy of `s`.
pub fn to_lower(s: &Vec<u8>) -> (r: Vec<u8>)
    ensures
        r@ == lower_bytes(s@),
{
    let mut r: Vec<u8> = Vec::new();
    let mut i: usize = 0;
    while i < s.len()
        invariant
            0 <= i <= s@.len(),
            r@ =~= lower_bytes(s@).take(i as int),
        decreases s@.len() - i,
    {
        let b = s[i];
        if 65 <= b && b <= 90 {
            r.push(b + 32);
        } else {
            r.push(b);
        }
        proof {
            assert(r@ =~= lower_bytes(s@).take(i + 1));
        }
        i += 1;
    }
    proof {
        assert(lower_bytes(s@).take(s@.len() as int) =~= lower_bytes(s@));
    }
    r
}

/// `needle` occurs as a contiguous run inside `hay`.
pub open spec fn contains_seq(hay: Seq<u8>, needle: Seq<u8>) -> bool {
    exists|k: int|
        0 <= k <= hay.len() - needle.len() && #[trigger] hay.subrange(k, k + needle.len())
            == needle
}

/// `needle` matches `hay` byte for byte at offset `k`.
fn matches_at(hay: &Vec<u8>, needle: &Vec<u8>, k: usize) -> (r: bool)
    requires
        k + needle@.len() <= hay@.len(),
    ensures
        r == (hay@.subrange(k as int, k + needle@.len()) == needle@),
{
    let hay_len = hay.len();
    let mut j: usize = 0;
    while j < needle.len()
        invariant
            k + needle@.len() <= hay@.len(),
            hay_len == hay@.len(),
            0 <= j <= needle@.len(),
            forall|j0: int| 0 <= j0 < j ==> hay@[k + j0] == needle@[j0],
        decreases needle@.len() - j,
    {
        if hay[k + j] != needle[j] {
            proof {
                assert(hay@.subrange(k as int, k + needle@.len())[j as int] == hay@[k + j]);
            }
            return false;
        }
        j += 1;
    }
    proof {
        assert(hay@.subrange(k as int, k + needle@.len()) =~= needle@);
    }
    true
}

/// Decides whether `needle` occurs as a contiguous run inside `hay`.
pub fn contains_bytes(hay: &Vec<u8>, needle: &Vec<u8>) -> (r: bool)
    ensures
        r == contains_seq(hay@, needle@),
{
    if needle.len() > hay.len() {
        return false;
    }
    if needle.len() == 0 {
        proof {
            assert(hay@.subrange(0, 0 + needle@.len() as int) =~= needle@);
        }
        return true;
    }
    let hay_len = hay.len();
    let mut k: usize = 0;
    while k <= hay.len() - needle.len()
        invariant
            1 <= needle@.len() <= hay@.len(),
            hay_len == hay@.len(),
            0 <= k <= hay@.len() - needle@.len() + 1,
            forall|k0: int|
                0 <= k0 < k ==> #[trigger] hay@.subrange(k0, k0 + needle@.len()) != needle@,
        decreases hay@.len() - needle@.len() + 1 - k,
    {
        if matches_at(hay, needle, k) {
            return true;
        }
        k += 1;
    }
    proof {
        if contains_seq(hay@, needle@) {
            let k0 = choose|k0: int|
                0 <= k0 <= hay@.len() - needle@.len() && #[trigger] hay@.subrange(
                    k0,
                    k0 + needle@.len(),
                ) == needle@;
            assert(hay@.subrange(k0, k0 + needle@.len()) != needle@);
        }
    }
    false
}

} // verus!
