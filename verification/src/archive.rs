//! Mod-package installation.
//!
//! An archive is decoded by the `zip` crate behind trusted wrappers; the
//! installer itself is verified: it derives the destination folder from
//! the archive name, enforces the no-overwrite collision policy, skips
//! entry names that cannot be confined under the extraction root, places
//! every other entry there with its decoded bytes, and never touches
//! anything outside that root.

use vstd::prelude::*;

use crate::errors::FsError;
use crate::text::{
    clone_bytes, is_prefix_of, join_with, path_eq, path_has_prefix, path_view, push_component,
    remap_path, split_bytes,
};
use crate::tree::{prefixes_of, FsTree, TreeView};

verus! {

#[verifier::external_type_specification]
#[verifier::external_body]
#[verifier::reject_recursive_types(R)]
pub struct ExZipArchive<R>(zip::read::ZipArchive<R>);

#[verifier::external_type_specification]
#[verifier::external_body]
#[verifier::reject_recursive_types(T)]
pub struct ExCursor<T>(std::io::Cursor<T>);

/// What parsing a byte string as an archive yields: nothing when the
/// central directory cannot be read, else one pair per entry in declared
/// order — the declared name, and the decompressed bytes or nothing when
/// that entry cannot be opened and fully read.  A function of the bytes
/// alone.
pub uninterp spec fn zip_parse_of(bytes: Seq<u8>) -> Option<Seq<(Seq<u8>, Option<Seq<u8>>)>>;

/// The entries a parsed archive value holds, in the same reading.
pub uninterp spec fn zip_entry_list(a: &zip::read::ZipArchive<std::io::Cursor<Vec<u8>>>) -> Seq<
    (Seq<u8>, Option<Seq<u8>>),
>;

/// Relies on zip's `ZipArchive::new`: parses the central directory of
/// the archive bytes, deterministically in them; an unreadable archive
/// yields an error, mapped to `None`.
#[verifier::external_body]
fn zip_open(bytes: Vec<u8>) -> (r: Option<zip::read::ZipArchive<std::io::Cursor<Vec<u8>>>>)
    ensures
        r is Some <==> zip_parse_of(bytes@) is Some,
        r matches Some(a) ==> Some(zip_entry_list(&a)) == zip_parse_of(bytes@),
{
    zip::read::ZipArchive::new(std::io::Cursor::new(bytes)).ok()
}

/// Relies on zip's `ZipArchive::len`: the number of entries.
#[verifier::external_body]
fn zip_len(a: &zip::read::ZipArchive<std::io::Cursor<Vec<u8>>>) -> (r: usize)
    ensures
        r == zip_entry_list(a).len(),
{
    a.len()
}

/// Relies on zip's `ZipArchive::by_index` and `Read::read_to_end`: the
/// declared name and decompressed bytes of entry `i`; both the failure
/// of reading an entry and the bytes read are deterministic in the
/// archive bytes.
#[verifier::external_body]
fn zip_entry(a: &mut zip::read::ZipArchive<std::io::Cursor<Vec<u8>>>, i: usize) -> (r: Option<
    (Vec<u8>, Vec<u8>),
>)
    requires
        i < zip_entry_list(&*old(a)).len(),
    ensures
        zip_entry_list(&*final(a)) == zip_entry_list(&*old(a)),
        r matches Some(e) ==> zip_entry_list(&*old(a))[i as int] == (e.0@, Some(e.1@)),
        r is None ==> zip_entry_list(&*old(a))[i as int].1 is None,
{
    match a.by_index(i) {
        Ok(mut f) => {
            let name = f.name().as_bytes().to_vec();
            let mut buf = Vec::new();
            match std::io::Read::read_to_end(&mut f, &mut buf) {
                Ok(_) => Some((name, buf)),
                Err(_) => None,
            }
        },
        Err(_) => None,
    }
}

/// The largest index of a `.` byte that is not the first byte of the
/// name, or a negative value if there is none.
pub open spec fn last_dot(name: Seq<u8>) -> int
    decreases name.len(),
{
    if name.len() <= 1 {
        -1
    } else if name.last() == 46 {
        name.len() - 1
    } else {
        last_dot(name.drop_last())
    }
}

/// The archive name with its final extension stripped.
pub open spec fn stem_of(name: Seq<u8>) -> Seq<u8> {
    if last_dot(name) < 0 {
        name
    } else {
        name.take(last_dot(name))
    }
}

/// The last dot position within the first `j` bytes.
fn last_dot_upto(name: &Vec<u8>, j: usize) -> (r: Option<usize>)
    requires
        j <= name@.len(),
    ensures
        match r {
            Some(k) => 1 <= k < j && k == last_dot(name@.take(j as int)),
            None => last_dot(name@.take(j as int)) < 0,
        },
    decreases j,
{
    if j <= 1 {
        None
    } else if name[j - 1] == 46 {
        proof {
            assert(name@.take(j as int).last() == name@[j - 1]);
        }
        Some(j - 1)
    } else {
        let r = last_dot_upto(name, j - 1);
        proof {
            assert(name@.take(j as int).last() == name@[j - 1]);
            assert(name@.take(j as int).drop_last() =~~= name@.take(j - 1));
        }
        r
    }
}

/// Strips the final extension from an archive file name.
pub fn stem_of_name(name: &Vec<u8>) -> (r: Vec<u8>)
    ensures
        r@ == stem_of(name@),
{
    proof {
        assert(name@.take(name@.len() as int) =~~= name@);
    }
    match last_dot_upto(name, name.len()) {
        Some(k) => {
            let mut out: Vec<u8> = Vec::new();
            let mut i: usize = 0;
            while i < k
                invariant
                    i <= k < name@.len(),
                    out@ =~= name@.take(i as int),
                decreases k - i,
            {
                out.push(name[i]);
                proof {
                    assert(out@ =~~= name@.take(i + 1));
                }
                i += 1;
            }
            out
        },
        None => clone_bytes(name),
    }
}

/// A safe entry-name component: non-empty, free of the separator, not
/// `.` and not the parent-traversal marker `..`.
pub open spec fn safe_comp(c: Seq<u8>) -> bool {
    c.len() > 0 && !c.contains(47) && c != seq![46u8] && c != seq![46u8, 46u8]
}

/// The name carries the trailing-separator directory marker.
pub open spec fn dir_marked(name: Seq<u8>) -> bool {
    name.len() > 0 && name.last() == 47
}

/// `c` is the (unique) safe decomposition of the entry name: joining it
/// with the separator gives the name back, a directory marker aside,
/// and every component is safe.
pub open spec fn valid_split(name: Seq<u8>, c: Seq<Seq<u8>>) -> bool {
    &&& c.len() > 0
    &&& forall|k: int| 0 <= k < c.len() ==> safe_comp(#[trigger] c[k])
    &&& if dir_marked(name) {
        join_with(c.push(Seq::empty()), 47) == name
    } else {
        join_with(c, 47) == name
    }
}

/// The entry name can be confined: some safe decomposition exists.
pub open spec fn entry_confinable(name: Seq<u8>) -> bool {
    exists|c: Seq<Seq<u8>>| valid_split(name, c)
}

/// The safe decomposition of a confinable entry name.
pub open spec fn comps_of(name: Seq<u8>) -> Seq<Seq<u8>> {
    choose|c: Seq<Seq<u8>>| valid_split(name, c)
}

/// The last byte of a join is the last byte of its final segment.
proof fn lemma_join_last(segs: Seq<Seq<u8>>, sep: u8)
    requires
        segs.len() >= 1,
        segs.last().len() > 0,
    ensures
        join_with(segs, sep).len() > 0,
        join_with(segs, sep).last() == segs.last().last(),
    decreases segs.len(),
{
    if segs.len() == 1 {
    } else {
        lemma_join_last(segs.drop_first(), sep);
        assert(segs.drop_first().last() == segs.last());
        assert(join_with(segs, sep) == segs[0] + seq![sep] + join_with(segs.drop_first(), sep));
        assert(join_with(segs, sep).last() == join_with(segs.drop_first(), sep).last());
    }
}

/// Joining separator-free segments is injective.
proof fn lemma_join_inj(c1: Seq<Seq<u8>>, c2: Seq<Seq<u8>>, sep: u8)
    requires
        c1.len() >= 1,
        c2.len() >= 1,
        forall|k: int| 0 <= k < c1.len() ==> !(#[trigger] c1[k]).contains(sep),
        forall|k: int| 0 <= k < c2.len() ==> !(#[trigger] c2[k]).contains(sep),
        join_with(c1, sep) == join_with(c2, sep),
    ensures
        c1 == c2,
    decreases c1.len(),
{
    let j = join_with(c1, sep);
    if c1.len() == 1 && c2.len() == 1 {
        assert(c1 =~~= c2);
    } else if c1.len() == 1 {
        assert(j == c2[0] + seq![sep] + join_with(c2.drop_first(), sep));
        assert(j[c2[0].len() as int] == sep);
        assert(c1[0][c2[0].len() as int] == sep);
        assert(c1[0].contains(sep));
        assert(false);
    } else if c2.len() == 1 {
        assert(j == c1[0] + seq![sep] + join_with(c1.drop_first(), sep));
        assert(j[c1[0].len() as int] == sep);
        assert(c2[0][c1[0].len() as int] == sep);
        assert(c2[0].contains(sep));
        assert(false);
    } else {
        let l1 = c1[0].len() as int;
        let l2 = c2[0].len() as int;
        assert(j == c1[0] + seq![sep] + join_with(c1.drop_first(), sep));
        assert(j == c2[0] + seq![sep] + join_with(c2.drop_first(), sep));
        assert(j[l1] == sep);
        assert(j[l2] == sep);
        if l1 < l2 {
            assert(c2[0][l1] == sep);
            assert(c2[0].contains(sep));
            assert(false);
        }
        if l2 < l1 {
            assert(c1[0][l2] == sep);
            assert(c1[0].contains(sep));
            assert(false);
        }
        assert(l1 == l2);
        assert forall|i: int| 0 <= i < l1 implies c1[0][i] == c2[0][i] by {
            assert(j[i] == c1[0][i]);
            assert(j[i] == c2[0][i]);
        }
        assert(c1[0] =~~= c2[0]);
        assert((c1[0] + seq![sep]).len() == l1 + 1);
        assert((c2[0] + seq![sep]).len() == l1 + 1);
        assert(j.len() == l1 + 1 + join_with(c1.drop_first(), sep).len());
        assert(j.len() == l1 + 1 + join_with(c2.drop_first(), sep).len());
        assert forall|i: int| 0 <= i < join_with(c1.drop_first(), sep).len() implies j.skip(
            l1 + 1,
        )[i] == join_with(c1.drop_first(), sep)[i] by {
            assert(j[l1 + 1 + i] == join_with(c1.drop_first(), sep)[i]);
        }
        assert(join_with(c1.drop_first(), sep) =~~= j.skip(l1 + 1));
        assert forall|i: int| 0 <= i < join_with(c2.drop_first(), sep).len() implies j.skip(
            l1 + 1,
        )[i] == join_with(c2.drop_first(), sep)[i] by {
            assert(j[l1 + 1 + i] == join_with(c2.drop_first(), sep)[i]);
        }
        assert(join_with(c2.drop_first(), sep) =~~= j.skip(l1 + 1));
        lemma_join_inj(c1.drop_first(), c2.drop_first(), sep);
        assert(c1.drop_first() == c2.drop_first());
        assert(c1.len() == c2.len());
        assert forall|i: int| 0 <= i < c1.len() implies c1[i] == c2[i] by {
            if i >= 1 {
                assert(c1.drop_first()[i - 1] == c1[i]);
                assert(c2.drop_first()[i - 1] == c2[i]);
            }
        }
        assert(c1 =~~= c2);
    }
}

/// A confinable name has exactly one safe decomposition.
proof fn lemma_valid_split_unique(name: Seq<u8>, a: Seq<Seq<u8>>, b: Seq<Seq<u8>>)
    requires
        valid_split(name, a),
        valid_split(name, b),
    ensures
        a == b,
{
    if dir_marked(name) {
        assert(forall|k: int|
            0 <= k < a.push(Seq::<u8>::empty()).len() ==> !(#[trigger] a.push(
                Seq::<u8>::empty(),
            )[k]).contains(47));
        assert(forall|k: int|
            0 <= k < b.push(Seq::<u8>::empty()).len() ==> !(#[trigger] b.push(
                Seq::<u8>::empty(),
            )[k]).contains(47));
        lemma_join_inj(a.push(Seq::empty()), b.push(Seq::empty()), 47);
        assert(a.push(Seq::<u8>::empty()).len() == b.push(Seq::<u8>::empty()).len());
        assert(a.len() == b.len());
        assert forall|i: int| 0 <= i < a.len() implies a[i] == b[i] by {
            assert(a.push(Seq::<u8>::empty())[i] == a[i]);
            assert(b.push(Seq::<u8>::empty())[i] == b[i]);
        }
        assert(a =~~= b);
    } else {
        lemma_join_inj(a, b, 47);
    }
}

/// Splits an entry name on `/` and accepts it only when every component
/// is safe; a trailing separator marks a directory entry.
fn safe_components(name: &Vec<u8>) -> (r: Option<(bool, Vec<Vec<u8>>)>)
    ensures
        match r {
            Some(p) => p.0 == dir_marked(name@) && valid_split(name@, path_view(p.1@))
                && path_view(p.1@) == comps_of(name@),
            None => !entry_confinable(name@),
        },
{
    let is_dir = name.len() > 0 && name[name.len() - 1] == 47;
    let mut segs = split_bytes(name, 47);
    let ghost segsv = path_view(segs@);
    proof {
        if name@.len() > 0 {
            assert(name@.last() == name@[name@.len() - 1]);
        }
    }
    if is_dir {
        proof {
            if segsv.last().len() > 0 {
                lemma_join_last(segsv, 47);
                assert(segsv.last().last() == 47);
                assert(segsv.last().contains(47));
                assert(false);
            }
        }
        segs.pop();
        proof {
            assert(path_view(segs@) =~~= segsv.drop_last());
            assert(segsv.drop_last().push(Seq::<u8>::empty()) =~~= segsv);
        }
        if segs.len() == 0 {
            proof {
                assert(segsv.len() == 1);
                assert(join_with(segsv, 47) == segsv[0]);
                assert(name@.len() == 0);
                assert(false);
            }
            return None;
        }
    } else {
        if segs.len() == 0 {
            proof {
                assert(false);
            }
            return None;
        }
    }
    let ghost base = path_view(segs@);
    let mut k: usize = 0;
    while k < segs.len()
        invariant
            base == path_view(segs@),
            segsv == if dir_marked(name@) {
                base.push(Seq::<u8>::empty())
            } else {
                base
            },
            base.len() >= 1,
            join_with(segsv, 47) == name@,
            forall|k0: int| 0 <= k0 < segsv.len() ==> !(#[trigger] segsv[k0]).contains(47),
            k <= segs@.len(),
            forall|k0: int| 0 <= k0 < k ==> safe_comp(#[trigger] path_view(segs@)[k0]),
        decreases segs@.len() - k,
    {
        let c = &segs[k];
        let bad = c.len() == 0 || (c.len() == 1 && c[0] == 46) || (c.len() == 2 && c[0] == 46
            && c[1] == 46);
        proof {
            let cv = path_view(segs@)[k as int];
            assert(cv == segs@[k as int]@);
            if cv == seq![46u8] {
                assert(cv.len() == 1 && cv[0] == 46);
            }
            if cv == seq![46u8, 46u8] {
                assert(cv.len() == 2 && cv[0] == 46 && cv[1] == 46);
            }
            if k < segsv.len() {
                assert(segsv[k as int] == base[k as int]);
            }
        }
        if bad {
            proof {
                if entry_confinable(name@) {
                    let c2 = choose|c2: Seq<Seq<u8>>| valid_split(name@, c2);
                    assert(valid_split(name@, c2));
                    if dir_marked(name@) {
                        assert(forall|k0: int|
                            0 <= k0 < c2.push(Seq::<u8>::empty()).len() ==> !(#[trigger] c2.push(
                                Seq::<u8>::empty(),
                            )[k0]).contains(47));
                        lemma_join_inj(c2.push(Seq::empty()), segsv, 47);
                        assert(c2.push(Seq::<u8>::empty()) == base.push(Seq::<u8>::empty()));
                        assert(c2.len() == base.len());
                        assert forall|i: int| 0 <= i < c2.len() implies c2[i] == base[i] by {
                            assert(c2.push(Seq::<u8>::empty())[i] == c2[i]);
                            assert(base.push(Seq::<u8>::empty())[i] == base[i]);
                        }
                        assert(c2 =~~= base);
                    } else {
                        assert(forall|k0: int|
                            0 <= k0 < base.len() ==> !(#[trigger] base[k0]).contains(47));
                        lemma_join_inj(c2, base, 47);
                    }
                    assert(c2.len() == base.len());
                    assert(0 <= k < c2.len());
                    assert(safe_comp(c2[k as int]));
                    assert(base[k as int] == c2[k as int]);
                    assert(safe_comp(base[k as int]));
                    assert(base[k as int] == segs@[k as int]@);
                    let cv = segs@[k as int]@;
                    if cv.len() == 1 && cv[0] == 46 {
                        assert(cv =~~= seq![46u8]);
                    }
                    if cv.len() == 2 && cv[0] == 46 && cv[1] == 46 {
                        assert(cv =~~= seq![46u8, 46u8]);
                    }
                    assert(false);
                }
            }
            return None;
        }
        k += 1;
    }
    proof {
        assert(valid_split(name@, base));
        let c2 = comps_of(name@);
        assert(valid_split(name@, c2));
        lemma_valid_split_unique(name@, base, c2);
    }
    Some((is_dir, segs))
}

/// An initial segment of a concatenation is an initial segment of the
/// front, or the front plus an initial segment of the back.
proof fn lemma_concat_take(a: Seq<Seq<u8>>, b: Seq<Seq<u8>>, t: int)
    requires
        0 <= t <= a.len() + b.len(),
    ensures
        t <= a.len() ==> (a + b).take(t) == a.take(t),
        t > a.len() ==> (a + b).take(t) == a + b.take(t - a.len()),
{
    if t <= a.len() {
        assert((a + b).take(t) =~~= a.take(t));
    } else {
        assert((a + b).take(t) =~~= a + b.take(t - a.len()));
    }
}

/// Appending to a common front preserves and reflects the prefix order.
proof fn lemma_prefix_cancel(a: Seq<Seq<u8>>, x: Seq<Seq<u8>>, y: Seq<Seq<u8>>)
    requires
        is_prefix_of(a + x, a + y),
    ensures
        is_prefix_of(x, y),
{
    assert forall|i: int| 0 <= i < x.len() implies y[i] == x[i] by {
        assert((a + x)[a.len() + i] == x[i]);
        assert((a + y)[a.len() + i] == y[i]);
    }
}

/// Everything the installer may have touched lies at or below the
/// extraction root `ev`; all earlier entries survive untouched.
pub open spec fn confined(v0: TreeView, ev: Seq<Seq<u8>>, v1: TreeView) -> bool {
    &&& forall|q: Seq<Seq<u8>>|
        #[trigger] v1.files.dom().contains(q) ==> v0.files.dom().contains(q) || is_prefix_of(
            ev,
            q,
        )
    &&& forall|q: Seq<Seq<u8>>|
        #[trigger] v0.files.dom().contains(q) ==> v1.files.dom().contains(q) && v1.files[q]
            == v0.files[q]
    &&& forall|q: Seq<Seq<u8>>|
        #[trigger] v1.dirs.contains(q) ==> v0.dirs.contains(q) || prefixes_of(ev).contains(q)
            || is_prefix_of(ev, q)
    &&& forall|q: Seq<Seq<u8>>| #[trigger] v0.dirs.contains(q) ==> v1.dirs.contains(q)
}

/// No file stands anywhere on the chain to `p`, `p` itself included.
pub open spec fn chain_clear(v: TreeView, p: Seq<Seq<u8>>) -> bool {
    forall|k: int| 0 <= k <= p.len() ==> !v.files.dom().contains(#[trigger] p.take(k))
}

/// Every entry of the archive could be read to the end.
pub open spec fn all_readable(es: Seq<(Seq<u8>, Option<Seq<u8>>)>) -> bool {
    forall|k: int| 0 <= k < es.len() ==> (#[trigger] es[k]).1 is Some
}

/// No confinable file entry's path is a proper prefix of another
/// confinable entry's path, nor equal to a directory entry's path:
/// exactly the archives whose entries can all be materialized.
pub open spec fn entries_compatible(es: Seq<(Seq<u8>, Option<Seq<u8>>)>) -> bool {
    forall|k1: int, k2: int|
        #![trigger es[k1], es[k2]]
        0 <= k1 < es.len() && 0 <= k2 < es.len() && entry_confinable(es[k1].0)
            && entry_confinable(es[k2].0) && !dir_marked(es[k1].0) && is_prefix_of(
            comps_of(es[k1].0),
            comps_of(es[k2].0),
        ) ==> comps_of(es[k1].0) == comps_of(es[k2].0) && !dir_marked(es[k2].0)
}

/// The fixed facts about the pre-state and the fresh extraction root.
#[verifier::opaque]
pub open spec fn extraction_setting(v0: TreeView, ev: Seq<Seq<u8>>) -> bool {
    &&& v0.wf()
    &&& !v0.dirs.contains(ev)
    &&& !v0.files.dom().contains(ev)
    &&& forall|q: Seq<Seq<u8>>| #[trigger] v0.files.dom().contains(q) ==> !is_prefix_of(ev, q)
    &&& forall|q: Seq<Seq<u8>>| #[trigger] v0.dirs.contains(q) ==> !is_prefix_of(ev, q)
    &&& forall|t: int| 0 <= t <= ev.len() ==> !v0.files.dom().contains(#[trigger] ev.take(t))
}

/// The state after extracting the first `n` entries below `ev`: every
/// confinable directory entry's folder exists; every confinable file
/// entry not overwritten by a later one holds its decoded bytes; every
/// file below `ev` is such an entry's image; every new directory below
/// `ev` sits on the chain of some entry.
#[verifier::opaque]
pub open spec fn entries_extracted(
    ev: Seq<Seq<u8>>,
    es: Seq<(Seq<u8>, Option<Seq<u8>>)>,
    n: int,
    v: TreeView,
) -> bool {
    &&& forall|k: int|
        #![trigger es[k]]
        0 <= k < n && entry_confinable(es[k].0) && dir_marked(es[k].0) ==> v.dirs.contains(
            ev + comps_of(es[k].0),
        )
    &&& forall|k: int|
        #![trigger es[k]]
        0 <= k < n && entry_confinable(es[k].0) && !dir_marked(es[k].0) && (forall|k2: int|
            k < k2 < n ==> !(entry_confinable((#[trigger] es[k2]).0) && !dir_marked(es[k2].0)
                && comps_of(es[k2].0) == comps_of(es[k].0))) ==> v.files.dom().contains(
            ev + comps_of(es[k].0),
        ) && (es[k].1 matches Some(d) && v.files[ev + comps_of(es[k].0)] == d)
    &&& forall|q: Seq<Seq<u8>>|
        #[trigger] v.files.dom().contains(q) && is_prefix_of(ev, q) ==> exists|k: int|
            0 <= k < n && entry_confinable((#[trigger] es[k]).0) && !dir_marked(es[k].0) && q == ev
                + comps_of(es[k].0)
    &&& forall|q: Seq<Seq<u8>>|
        #[trigger] v.dirs.contains(q) && is_prefix_of(ev, q) && q != ev ==> exists|k: int|
            0 <= k < n && entry_confinable((#[trigger] es[k]).0) && is_prefix_of(
                q,
                ev + (if dir_marked(es[k].0) {
                    comps_of(es[k].0)
                } else {
                    comps_of(es[k].0).drop_last()
                }),
            )
}

/// Before entry `m` is applied, its destination is clear: no directory
/// stands on a file entry's path and no file blocks any chain below the
/// extraction root.
proof fn lemma_apply_pre(
    v0: TreeView,
    ev: Seq<Seq<u8>>,
    es: Seq<(Seq<u8>, Option<Seq<u8>>)>,
    m: int,
    v: TreeView,
)
    requires
        extraction_setting(v0, ev),
        confined(v0, ev, v),
        entries_extracted(ev, es, m, v),
        entries_compatible(es),
        0 <= m < es.len(),
        entry_confinable(es[m].0),
    ensures
        !dir_marked(es[m].0) ==> !v.dirs.contains(ev + comps_of(es[m].0)),
        forall|t: int|
            0 <= t < (ev + comps_of(es[m].0)).len() ==> !v.files.dom().contains(
                #[trigger] (ev + comps_of(es[m].0)).take(t),
            ),
        dir_marked(es[m].0) ==> !v.files.dom().contains(ev + comps_of(es[m].0)),
        comps_of(es[m].0).len() > 0,
{
    reveal(extraction_setting);
    reveal(entries_extracted);
    let c = comps_of(es[m].0);
    let dest = ev + c;
    assert(valid_split(es[m].0, c));
    assert(c.len() > 0);
    assert(is_prefix_of(ev, dest)) by {
        assert(dest.take(ev.len() as int) =~~= ev);
    }
    if !dir_marked(es[m].0) && v.dirs.contains(dest) {
        assert(dest != ev);
        let k = choose|k: int|
            0 <= k < m && entry_confinable((#[trigger] es[k]).0) && is_prefix_of(
                dest,
                ev + (if dir_marked(es[k].0) {
                    comps_of(es[k].0)
                } else {
                    comps_of(es[k].0).drop_last()
                }),
            );
        let bound = if dir_marked(es[k].0) {
            comps_of(es[k].0)
        } else {
            comps_of(es[k].0).drop_last()
        };
        lemma_prefix_cancel(ev, c, bound);
        if dir_marked(es[k].0) {
            assert(is_prefix_of(c, comps_of(es[k].0)));
            assert(c == comps_of(es[k].0) && !dir_marked(es[k].0));
            assert(false);
        } else {
            assert(is_prefix_of(c, comps_of(es[k].0))) by {
                assert(is_prefix_of(bound, comps_of(es[k].0)));
            }
            assert(c.len() <= bound.len() < comps_of(es[k].0).len());
            assert(c == comps_of(es[k].0));
            assert(false);
        }
    }
    assert forall|t: int| 0 <= t < dest.len() implies !v.files.dom().contains(
        #[trigger] dest.take(t),
    ) by {
        lemma_concat_take(ev, c, t);
        if t <= ev.len() {
            assert(dest.take(t) == ev.take(t));
            if v.files.dom().contains(ev.take(t)) {
                assert(!v0.files.dom().contains(ev.take(t)));
                assert(is_prefix_of(ev, ev.take(t)));
                assert(ev.take(t).len() == t);
                assert(false);
            }
        } else {
            let tc = c.take(t - ev.len());
            assert(dest.take(t) == ev + tc);
            if v.files.dom().contains(ev + tc) {
                assert(is_prefix_of(ev, ev + tc)) by {
                    assert((ev + tc).take(ev.len() as int) =~~= ev);
                }
                let k = choose|k: int|
                    0 <= k < m && entry_confinable((#[trigger] es[k]).0) && !dir_marked(es[k].0)
                        && ev + tc == ev + comps_of(es[k].0);
                crate::tree::FsTree::lemma_concat_cancel(ev, tc, comps_of(es[k].0));
                assert(is_prefix_of(comps_of(es[k].0), c)) by {
                    assert(comps_of(es[k].0) == tc);
                }
                assert(comps_of(es[k].0).len() < c.len());
                assert(comps_of(es[k].0) == comps_of(es[m].0));
                assert(false);
            }
        }
    }
    if dir_marked(es[m].0) && v.files.dom().contains(dest) {
        let k = choose|k: int|
            0 <= k < m && entry_confinable((#[trigger] es[k]).0) && !dir_marked(es[k].0) && dest
                == ev + comps_of(es[k].0);
        crate::tree::FsTree::lemma_concat_cancel(ev, c, comps_of(es[k].0));
        assert(is_prefix_of(comps_of(es[k].0), c)) by {
            assert(comps_of(es[k].0) == c);
        }
        assert(comps_of(es[k].0) == c && !dir_marked(es[m].0));
        assert(false);
    }
}

/// Applying entry `m` carries the extraction state one step forward.
proof fn lemma_apply_step(
    v0: TreeView,
    ev: Seq<Seq<u8>>,
    es: Seq<(Seq<u8>, Option<Seq<u8>>)>,
    m: int,
    v: TreeView,
    w: TreeView,
)
    requires
        extraction_setting(v0, ev),
        confined(v0, ev, v),
        entries_extracted(ev, es, m, v),
        0 <= m < es.len(),
        entry_confinable(es[m].0),
        dir_marked(es[m].0) ==> w == v.with_dir_chain(ev + comps_of(es[m].0)),
        !dir_marked(es[m].0) ==> (es[m].1 matches Some(d) && w == v.with_file(
            ev + comps_of(es[m].0),
            d,
        )),
        v.dirs.contains(ev),
    ensures
        confined(v0, ev, w),
        entries_extracted(ev, es, m + 1, w),
        w.dirs.contains(ev),
{
    reveal(extraction_setting);
    reveal(entries_extracted);
    let c = comps_of(es[m].0);
    let dest = ev + c;
    assert(valid_split(es[m].0, c));
    let bound = if dir_marked(es[m].0) {
        c
    } else {
        c.drop_last()
    };
    let added = prefixes_of(ev + bound);
    assert(c.len() > 0) by {
        assert(valid_split(es[m].0, c));
    }
    if !dir_marked(es[m].0) {
        assert(ev + c.drop_last() =~~= (ev + c).drop_last());
        assert(added == prefixes_of(dest.drop_last()));
    }
    assert forall|q: Seq<Seq<u8>>| added.contains(q) implies prefixes_of(ev).contains(q)
        || (is_prefix_of(ev, q) && is_prefix_of(q, ev + bound)) by {
        let t = choose|t: int| 0 <= t <= (ev + bound).len() && q == #[trigger] (ev + bound).take(t);
        lemma_concat_take(ev, bound, t);
        if t <= ev.len() {
            assert(q == ev.take(t));
        } else {
            assert(q == ev + bound.take(t - ev.len()));
            assert(is_prefix_of(ev, q)) by {
                assert(q.take(ev.len() as int) =~~= ev);
            }
            assert(is_prefix_of(q, ev + bound));
        }
    }
    // confinement
    assert forall|q: Seq<Seq<u8>>| #[trigger] w.dirs.contains(q) implies v0.dirs.contains(q)
        || prefixes_of(ev).contains(q) || is_prefix_of(ev, q) by {
        if !v.dirs.contains(q) {
            assert(added.contains(q));
        }
    }
    if !dir_marked(es[m].0) {
        assert(is_prefix_of(ev, dest)) by {
            assert(dest.take(ev.len() as int) =~~= ev);
        }
        assert forall|q: Seq<Seq<u8>>| #[trigger] v0.files.dom().contains(q) implies
            w.files.dom().contains(q) && w.files[q] == v0.files[q] by {
            assert(q != dest);
        }
    }
    // the extraction state, clause by clause
    assert forall|k: int|
        0 <= k < m + 1 && entry_confinable((#[trigger] es[k]).0) && dir_marked(es[k].0) implies
        w.dirs.contains(ev + comps_of(es[k].0)) by {
        if k == m {
            assert(prefixes_of(ev + c).contains(ev + c)) by {
                assert(ev + c == (ev + c).take((ev + c).len() as int));
            }
        }
    }
    assert forall|k: int|
        0 <= k < m + 1 && entry_confinable((#[trigger] es[k]).0) && !dir_marked(es[k].0) && (
        forall|k2: int|
            k < k2 < m + 1 ==> !(entry_confinable((#[trigger] es[k2]).0) && !dir_marked(es[k2].0)
                && comps_of(es[k2].0) == comps_of(es[k].0))) implies w.files.dom().contains(
        ev + comps_of(es[k].0),
    ) && (es[k].1 matches Some(d) && w.files[ev + comps_of(es[k].0)] == d) by {
        if k == m {
        } else {
            assert(!(entry_confinable(es[m].0) && !dir_marked(es[m].0) && comps_of(es[m].0)
                == comps_of(es[k].0)));
            if !dir_marked(es[m].0) {
                assert(comps_of(es[m].0) != comps_of(es[k].0));
                assert(ev + comps_of(es[k].0) != dest) by {
                    if ev + comps_of(es[k].0) == dest {
                        crate::tree::FsTree::lemma_concat_cancel(ev, comps_of(es[k].0), c);
                    }
                }
            }
        }
    }
    assert forall|q: Seq<Seq<u8>>|
        #[trigger] w.files.dom().contains(q) && is_prefix_of(ev, q) implies exists|k: int|
        0 <= k < m + 1 && entry_confinable((#[trigger] es[k]).0) && !dir_marked(es[k].0) && q == ev
            + comps_of(es[k].0) by {
        if !dir_marked(es[m].0) && q == dest {
            assert(0 <= m < m + 1 && entry_confinable((es[m]).0) && !dir_marked(es[m].0) && q == ev
                + comps_of(es[m].0));
        } else {
            assert(v.files.dom().contains(q));
            let k = choose|k: int|
                0 <= k < m && entry_confinable((#[trigger] es[k]).0) && !dir_marked(es[k].0) && q
                    == ev + comps_of(es[k].0);
        }
    }
    assert forall|q: Seq<Seq<u8>>|
        #[trigger] w.dirs.contains(q) && is_prefix_of(ev, q) && q != ev implies exists|k: int|
        0 <= k < m + 1 && entry_confinable((#[trigger] es[k]).0) && is_prefix_of(
            q,
            ev + (if dir_marked(es[k].0) {
                comps_of(es[k].0)
            } else {
                comps_of(es[k].0).drop_last()
            }),
        ) by {
        if v.dirs.contains(q) {
            let k = choose|k: int|
                0 <= k < m && entry_confinable((#[trigger] es[k]).0) && is_prefix_of(
                    q,
                    ev + (if dir_marked(es[k].0) {
                        comps_of(es[k].0)
                    } else {
                        comps_of(es[k].0).drop_last()
                    }),
                );
        } else {
            assert(added.contains(q));
            if prefixes_of(ev).contains(q) {
                let t = choose|t: int| 0 <= t <= ev.len() && q == #[trigger] ev.take(t);
                assert(q.len() <= ev.len());
                assert(q =~~= ev);
                assert(false);
            }
            assert(is_prefix_of(q, ev + bound));
            assert(0 <= m < m + 1 && entry_confinable((es[m]).0) && is_prefix_of(
                q,
                ev + (if dir_marked(es[m].0) {
                    comps_of(es[m].0)
                } else {
                    comps_of(es[m].0).drop_last()
                }),
            ));
        }
    }
}

/// A skipped entry leaves the extraction state as it was.
proof fn lemma_skip_step(
    ev: Seq<Seq<u8>>,
    es: Seq<(Seq<u8>, Option<Seq<u8>>)>,
    m: int,
    v: TreeView,
)
    requires
        entries_extracted(ev, es, m, v),
        0 <= m < es.len(),
        !entry_confinable(es[m].0),
    ensures
        entries_extracted(ev, es, m + 1, v),
{
    reveal(entries_extracted);
    assert forall|k: int|
        0 <= k < m + 1 && entry_confinable((#[trigger] es[k]).0) && !dir_marked(es[k].0) && (
        forall|k2: int|
            k < k2 < m + 1 ==> !(entry_confinable((#[trigger] es[k2]).0) && !dir_marked(es[k2].0)
                && comps_of(es[k2].0) == comps_of(es[k].0))) implies v.files.dom().contains(
        ev + comps_of(es[k].0),
    ) && (es[k].1 matches Some(d) && v.files[ev + comps_of(es[k].0)] == d) by {
        assert(k < m);
        assert(forall|k2: int|
            k < k2 < m ==> !(entry_confinable((#[trigger] es[k2]).0) && !dir_marked(es[k2].0)
                && comps_of(es[k2].0) == comps_of(es[k].0)));
    }
}

/// Extracts the archive at `archive_path` into a fresh folder named
/// after the archive, directly under `target_dir`.
///
/// The folder must not exist yet; entries whose names cannot be safely
/// confined under it are skipped; every other entry is placed below it
/// with its decoded bytes; and nothing outside it is ever created or
/// changed, whether the extraction succeeds or aborts half-way.
#[verifier::rlimit(100)]
pub fn install(fs: &mut FsTree, archive_path: &Vec<Vec<u8>>, target_dir: &Vec<Vec<u8>>) -> (r:
    Result<Vec<Vec<u8>>, FsError>)
    requires
        old(fs).inv(),
    ensures
        final(fs).inv(),
        ({
            let apv = path_view(archive_path@);
            let tvv = path_view(target_dir@);
            let ev = tvv.push(stem_of(apv.last()));
            let pre = old(fs)@;
            let post = final(fs)@;
            let present = pre.files.dom().contains(apv);
            let stem_ok = stem_of(apv.last()).len() > 0;
            let chain_ok = chain_clear(pre, tvv);
            let fresh = !pre.dirs.contains(ev) && !pre.files.dom().contains(ev);
            let parse = zip_parse_of(pre.files[apv]);
            match r {
                Ok(p) => present && stem_ok && chain_ok && fresh && path_view(p@) == ev
                    && post.dirs.contains(ev) && confined(pre, ev, post) && (parse matches Some(es)
                    && all_readable(es) && entries_compatible(es) && entries_extracted(
                    ev,
                    es,
                    es.len() as int,
                    post,
                )),
                Err(e) => {
                    &&& !present ==> post == pre
                    &&& (e == FsError::NotFound) <==> (!present && !pre.dirs.contains(apv))
                    &&& (e == FsError::NotAFile) <==> (!present && pre.dirs.contains(apv))
                    &&& (e == FsError::NotADirectory) <==> false
                    &&& (e == FsError::ParseFailure) <==> (present && stem_ok && chain_ok && fresh
                        && parse is None)
                    &&& (e == FsError::ParseFailure) ==> post == pre.with_dir_chain(
                        tvv,
                    ).with_dir_chain(ev)
                    &&& (e == FsError::InvalidName) <==> (present && !stem_ok)
                    &&& (e == FsError::InvalidName) ==> post == pre
                    &&& (e == FsError::AlreadyExists) <==> (present && stem_ok && chain_ok
                        && !fresh)
                    &&& (e == FsError::AlreadyExists) ==> post == pre.with_dir_chain(tvv)
                    &&& (e == FsError::IoFailure) <==> (present && stem_ok && (!chain_ok || (
                    chain_ok && fresh && (parse matches Some(es) && (!all_readable(es)
                        || !entries_compatible(es))))))
                    &&& (e == FsError::IoFailure && !chain_clear(pre, tvv)) ==> post == pre
                    &&& present ==> confined(pre, ev, post)
                },
            }
        }),
{
    let ghost v0 = old(fs)@;
    let bytes = match fs.read_file(archive_path) {
        Ok(b) => b,
        Err(e) => { return Err(e); },
    };
    let ghost apv = path_view(archive_path@);
    let last = &archive_path[archive_path.len() - 1];
    let folder = stem_of_name(last);
    proof {
        assert(apv.last() == last@);
    }
    if folder.len() == 0 {
        return Err(FsError::InvalidName);
    }
    let extract = push_component(target_dir, &folder);
    let ghost ev = path_view(extract@);
    let ghost tvv = path_view(target_dir@);
    proof {
        assert(ev == tvv.push(stem_of(apv.last())));
    }
    match fs.create_tree(target_dir) {
        Ok(()) => {},
        Err(_) => {
            proof {
                assert(fs@ == v0);
                assert(confined(v0, ev, fs@));
                assert(!chain_clear(v0, tvv));
            }
            return Err(FsError::IoFailure);
        },
    }
    proof {
        assert(chain_clear(v0, tvv));
    }
    if fs.exists_path(&extract) {
        proof {
            if fs@.dirs.contains(ev) && !v0.dirs.contains(ev) {
                assert(prefixes_of(tvv).contains(ev));
                let k = choose|k: int| 0 <= k <= tvv.len() && ev == #[trigger] tvv.take(k);
                assert(false);
            }
            assert forall|q: Seq<Seq<u8>>| #[trigger] fs@.dirs.contains(q) implies
                v0.dirs.contains(q) || prefixes_of(ev).contains(q) || is_prefix_of(ev, q) by {
                if prefixes_of(tvv).contains(q) {
                    let k = choose|k: int| 0 <= k <= tvv.len() && q == #[trigger] tvv.take(k);
                    assert(ev.take(k) =~~= tvv.take(k));
                    assert(prefixes_of(ev).contains(q));
                }
            }
        }
        return Err(FsError::AlreadyExists);
    }
    proof {
        assert(!v0.dirs.contains(ev) && !v0.files.dom().contains(ev));
        assert forall|q: Seq<Seq<u8>>| #[trigger] v0.files.dom().contains(q) implies
            !is_prefix_of(ev, q) by {
            if is_prefix_of(ev, q) {
                if q.len() == ev.len() {
                    assert(q =~~= ev);
                } else {
                    v0.lemma_dir_prefix_closure(q.drop_last(), ev.len() as int);
                    assert(q.drop_last().take(ev.len() as int) =~~= ev);
                }
            }
        }
        assert forall|q: Seq<Seq<u8>>| #[trigger] v0.dirs.contains(q) implies !is_prefix_of(
            ev,
            q,
        ) by {
            if is_prefix_of(ev, q) {
                v0.lemma_dir_prefix_closure(q, ev.len() as int);
                assert(q.take(ev.len() as int) =~~= ev);
            }
        }
        assert forall|t: int| 0 <= t <= ev.len() implies !v0.files.dom().contains(
            #[trigger] ev.take(t),
        ) by {
            if t <= tvv.len() {
                assert(ev.take(t) =~~= tvv.take(t));
            } else {
                assert(ev.take(t) =~~= ev);
            }
        }
        assert(extraction_setting(v0, ev)) by {
            reveal(extraction_setting);
        }
    }
    match fs.create_tree(&extract) {
        Ok(()) => {},
        Err(_) => {
            proof {
                reveal(extraction_setting);
                let k = choose|k: int|
                    0 <= k <= ev.len() && v0.files.dom().contains(#[trigger] ev.take(k));
                assert(false);
            }
            return Err(FsError::IoFailure);
        },
    }
    let ghost v2 = fs@;
    proof {
        assert(v2 == v0.with_dir_chain(tvv).with_dir_chain(ev));
        assert(fs@.dirs.contains(ev)) by {
            assert(prefixes_of(ev).contains(ev)) by {
                assert(ev == ev.take(ev.len() as int));
            }
        }
        assert(confined(v0, ev, fs@)) by {
            assert forall|q: Seq<Seq<u8>>| #[trigger] fs@.dirs.contains(q) implies
                v0.dirs.contains(q) || prefixes_of(ev).contains(q) || is_prefix_of(ev, q) by {
                if prefixes_of(tvv).contains(q) {
                    let k = choose|k: int| 0 <= k <= tvv.len() && q == #[trigger] tvv.take(k);
                    assert(ev.take(k) =~~= tvv.take(k));
                    assert(prefixes_of(ev).contains(q));
                }
            }
        }
    }
    let mut archive = match zip_open(bytes) {
        Some(a) => a,
        None => { return Err(FsError::ParseFailure); },
    };
    let ghost es = zip_entry_list(&archive);
    let n = zip_len(&archive);
    // phase one: read every entry out of the archive
    let mut loaded: Vec<(Vec<u8>, Vec<u8>)> = Vec::new();
    let mut idx: usize = 0;
    while idx < n
        invariant
            fs.inv(),
            v0 == old(fs)@,
            apv == path_view(archive_path@),
            tvv == path_view(target_dir@),
            ev == tvv.push(stem_of(apv.last())),
            v0.files.dom().contains(apv),
            stem_of(apv.last()).len() > 0,
            chain_clear(v0, tvv),
            !v0.dirs.contains(ev),
            !v0.files.dom().contains(ev),
            Some(es) == zip_parse_of(v0.files[apv]),
            es == zip_entry_list(&archive),
            n == es.len(),
            0 <= idx <= n,
            fs@ == v2,
            confined(v0, ev, v2),
            loaded@.len() == idx,
            forall|k: int|
                0 <= k < idx ==> #[trigger] es[k] == (loaded@[k].0@, Some(loaded@[k].1@)),
        decreases n - idx,
    {
        match zip_entry(&mut archive, idx) {
            Some(e) => {
                loaded.push(e);
            },
            None => {
                proof {
                    assert(es[idx as int].1 is None);
                    assert(!all_readable(es));
                }
                return Err(FsError::IoFailure);
            },
        }
        idx += 1;
    }
    proof {
        assert(all_readable(es));
    }
    // phase two: decompose every entry name
    let mut plans: Vec<(bool, bool, Vec<Vec<u8>>)> = Vec::new();
    let mut k: usize = 0;
    while k < loaded.len()
        invariant
            fs.inv(),
            v0 == old(fs)@,
            apv == path_view(archive_path@),
            tvv == path_view(target_dir@),
            ev == tvv.push(stem_of(apv.last())),
            v0.files.dom().contains(apv),
            stem_of(apv.last()).len() > 0,
            chain_clear(v0, tvv),
            !v0.dirs.contains(ev),
            !v0.files.dom().contains(ev),
            Some(es) == zip_parse_of(v0.files[apv]),
            loaded@.len() == es.len(),
            forall|k0: int|
                0 <= k0 < es.len() ==> #[trigger] es[k0] == (loaded@[k0].0@, Some(
                    loaded@[k0].1@,
                )),
            fs@ == v2,
            confined(v0, ev, v2),
            0 <= k <= loaded@.len(),
            plans@.len() == k,
            forall|k0: int|
                0 <= k0 < k ==> (#[trigger] plans@[k0]).0 == entry_confinable(es[k0].0) && (
                plans@[k0].0 ==> plans@[k0].1 == dir_marked(es[k0].0) && path_view(
                    plans@[k0].2@,
                ) == comps_of(es[k0].0)),
        decreases loaded@.len() - k,
    {
        match safe_components(&loaded[k].0) {
            Some(p) => {
                let (isd, c) = p;
                plans.push((true, isd, c));
            },
            None => {
                plans.push((false, false, Vec::new()));
            },
        }
        proof {
            assert(loaded@[k as int].0@ == es[k as int].0);
        }
        k += 1;
    }
    // phase three: reject archives whose entries collide with each other
    let mut k1: usize = 0;
    while k1 < plans.len()
        invariant
            fs.inv(),
            v0 == old(fs)@,
            apv == path_view(archive_path@),
            tvv == path_view(target_dir@),
            ev == tvv.push(stem_of(apv.last())),
            v0.files.dom().contains(apv),
            stem_of(apv.last()).len() > 0,
            chain_clear(v0, tvv),
            !v0.dirs.contains(ev),
            !v0.files.dom().contains(ev),
            Some(es) == zip_parse_of(v0.files[apv]),
            all_readable(es),
            plans@.len() == es.len(),
            forall|k0: int|
                0 <= k0 < es.len() ==> (#[trigger] plans@[k0]).0 == entry_confinable(es[k0].0) && (
                plans@[k0].0 ==> plans@[k0].1 == dir_marked(es[k0].0) && path_view(
                    plans@[k0].2@,
                ) == comps_of(es[k0].0)),
            fs@ == v2,
            confined(v0, ev, v2),
            0 <= k1 <= plans@.len(),
            forall|a: int, b: int|
                #![trigger es[a], es[b]]
                0 <= a < k1 && 0 <= b < es.len() && entry_confinable(es[a].0)
                    && entry_confinable(es[b].0) && !dir_marked(es[a].0) && is_prefix_of(
                    comps_of(es[a].0),
                    comps_of(es[b].0),
                ) ==> comps_of(es[a].0) == comps_of(es[b].0) && !dir_marked(es[b].0),
        decreases plans@.len() - k1,
    {
        if plans[k1].0 && !plans[k1].1 {
            let mut k2: usize = 0;
            while k2 < plans.len()
                invariant
                    v0 == old(fs)@,
                    apv == path_view(archive_path@),
                    tvv == path_view(target_dir@),
                    ev == tvv.push(stem_of(apv.last())),
                    v0.files.dom().contains(apv),
                    stem_of(apv.last()).len() > 0,
                    chain_clear(v0, tvv),
                    !v0.dirs.contains(ev),
                    !v0.files.dom().contains(ev),
                    Some(es) == zip_parse_of(v0.files[apv]),
                    fs.inv(),
                    fs@ == v2,
                    confined(v0, ev, v2),
                    plans@.len() == es.len(),
                    forall|k0: int|
                        0 <= k0 < es.len() ==> (#[trigger] plans@[k0]).0 == entry_confinable(
                            es[k0].0,
                        ) && (plans@[k0].0 ==> plans@[k0].1 == dir_marked(es[k0].0) && path_view(
                            plans@[k0].2@,
                        ) == comps_of(es[k0].0)),
                    0 <= k1 < plans@.len(),
                    plans@[k1 as int].0 && !plans@[k1 as int].1,
                    0 <= k2 <= plans@.len(),
                    forall|b: int|
                        #![trigger es[b]]
                        0 <= b < k2 && entry_confinable(es[b].0) && is_prefix_of(
                            comps_of(es[k1 as int].0),
                            comps_of(es[b].0),
                        ) ==> comps_of(es[k1 as int].0) == comps_of(es[b].0) && !dir_marked(
                            es[b].0,
                        ),
                decreases plans@.len() - k2,
            {
                if plans[k2].0 {
                    let pref = path_has_prefix(&plans[k2].2, &plans[k1].2);
                    let same = path_eq(&plans[k1].2, &plans[k2].2);
                    if pref && (!same || plans[k2].1) {
                        proof {
                            assert(is_prefix_of(comps_of(es[k1 as int].0), comps_of(
                                es[k2 as int].0,
                            )));
                            assert(!(comps_of(es[k1 as int].0) == comps_of(es[k2 as int].0)
                                && !dir_marked(es[k2 as int].0)));
                            assert(!entries_compatible(es));
                        }
                        return Err(FsError::IoFailure);
                    }
                }
                k2 += 1;
            }
        } else {
            proof {
                assert(forall|b: int|
                    #![trigger es[b]]
                    0 <= b < es.len() && entry_confinable(es[k1 as int].0) && entry_confinable(
                        es[b].0,
                    ) && !dir_marked(es[k1 as int].0) ==> false || !(entry_confinable(
                        es[k1 as int].0,
                    ) && !dir_marked(es[k1 as int].0)) || (is_prefix_of(
                        comps_of(es[k1 as int].0),
                        comps_of(es[b].0),
                    ) ==> comps_of(es[k1 as int].0) == comps_of(es[b].0) && !dir_marked(
                        es[b].0,
                    )));
                assert(!(plans@[k1 as int].0 && !plans@[k1 as int].1));
            }
        }
        k1 += 1;
    }
    proof {
        assert(entries_compatible(es));
        assert(extraction_setting(v0, ev)) by {
            reveal(extraction_setting);
        }
        assert(entries_extracted(ev, es, 0, fs@)) by {
            reveal(entries_extracted);
            reveal(extraction_setting);
            assert forall|q: Seq<Seq<u8>>|
                #[trigger] fs@.files.dom().contains(q) && is_prefix_of(ev, q) implies false by {
                assert(v0.files.dom().contains(q));
            }
            assert forall|q: Seq<Seq<u8>>|
                #[trigger] fs@.dirs.contains(q) && is_prefix_of(ev, q) && q != ev implies
                false by {
                if v0.dirs.contains(q) {
                } else if prefixes_of(ev).contains(q) {
                    let t = choose|t: int| 0 <= t <= ev.len() && q == #[trigger] ev.take(t);
                    assert(q.len() <= ev.len());
                    assert(q =~~= ev);
                }
            }
        }
    }
    // phase four: materialize the entries below the extraction root
    let mut m: usize = 0;
    while m < plans.len()
        invariant
            fs.inv(),
            v0 == old(fs)@,
            apv == path_view(archive_path@),
            tvv == path_view(target_dir@),
            ev == tvv.push(stem_of(apv.last())),
            ev == path_view(extract@),
            v0.files.dom().contains(apv),
            stem_of(apv.last()).len() > 0,
            chain_clear(v0, tvv),
            !v0.dirs.contains(ev),
            !v0.files.dom().contains(ev),
            Some(es) == zip_parse_of(v0.files[apv]),
            all_readable(es),
            entries_compatible(es),
            extraction_setting(v0, ev),
            plans@.len() == es.len(),
            loaded@.len() == es.len(),
            forall|k0: int|
                0 <= k0 < es.len() ==> #[trigger] es[k0] == (loaded@[k0].0@, Some(
                    loaded@[k0].1@,
                )),
            forall|k0: int|
                0 <= k0 < es.len() ==> (#[trigger] plans@[k0]).0 == entry_confinable(es[k0].0) && (
                plans@[k0].0 ==> plans@[k0].1 == dir_marked(es[k0].0) && path_view(
                    plans@[k0].2@,
                ) == comps_of(es[k0].0)),
            0 <= m <= plans@.len(),
            confined(v0, ev, fs@),
            entries_extracted(ev, es, m as int, fs@),
            fs@.dirs.contains(ev),
        decreases plans@.len() - m,
    {
        if plans[m].0 {
            let dest = remap_path(&extract, &plans[m].2, 0);
            proof {
                assert(path_view(plans@[m as int].2@).skip(0) =~~= path_view(
                    plans@[m as int].2@,
                ));
                assert(path_view(dest@) == ev + comps_of(es[m as int].0));
                lemma_apply_pre(v0, ev, es, m as int, fs@);
            }
            let ghost vpre = fs@;
            if plans[m].1 {
                match fs.create_tree(&dest) {
                    Ok(()) => {},
                    Err(_) => {
                        proof {
                            let t = choose|t: int|
                                0 <= t <= path_view(dest@).len() && vpre.files.dom().contains(
                                    #[trigger] path_view(dest@).take(t),
                                );
                            if t == path_view(dest@).len() {
                                assert(path_view(dest@).take(t) =~~= path_view(dest@));
                            }
                            assert(false);
                        }
                        return Err(FsError::IoFailure);
                    },
                }
                proof {
                    lemma_apply_step(v0, ev, es, m as int, vpre, fs@);
                }
            } else {
                let data = clone_bytes(&loaded[m].1);
                proof {
                    assert(es[m as int].1 == Some(loaded@[m as int].1@));
                }
                match fs.write_file(&dest, data) {
                    Ok(()) => {},
                    Err(_) => {
                        proof {
                            assert(path_view(dest@).len() > 0);
                            if FsTree::chain_blocked(vpre, path_view(dest@)) {
                                let t = choose|t: int|
                                    0 <= t < path_view(dest@).len() && vpre.files.dom().contains(
                                        #[trigger] path_view(dest@).take(t),
                                    );
                                assert(false);
                            }
                            assert(false);
                        }
                        return Err(FsError::IoFailure);
                    },
                }
                proof {
                    lemma_apply_step(v0, ev, es, m as int, vpre, fs@);
                }
            }
        } else {
            proof {
                lemma_skip_step(ev, es, m as int, fs@);
            }
        }
        m += 1;
    }
    Ok(extract)
}

} // verus!