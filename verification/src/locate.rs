//! Executable location heuristic.
//!
//! A best-effort scan for a game's launchable binary: first the
//! well-known name `game.exe` directly inside the install directory,
//! then any `.exe` file there whose lower-cased name names neither an
//! uninstaller, an installer nor a launcher.  Directory-iteration order
//! decides between several qualifying files; callers must not assume
//! which one is picked.

use vstd::prelude::*;

use crate::errors::FsError;
use crate::text::{
    clone_bytes, contains_bytes, contains_seq, lower_bytes, path_has_prefix, path_view, to_lower,
};
use crate::tree::FsTree;

verus! {

/// The well-known primary executable name, `game.exe`.
pub open spec fn primary_name() -> Seq<u8> {
    seq![103u8, 97, 109, 101, 46, 101, 120, 101]
}

/// The name ends in `.exe` with a non-empty stem.
pub open spec fn has_exe_ext(name: Seq<u8>) -> bool {
    name.len() >= 5 && name.skip(name.len() - 4) == seq![46u8, 101, 120, 101]
}

/// A fallback candidate: an `.exe` whose lower-cased name contains none
/// of `uninstall`, `setup` and `launcher`.
pub open spec fn fallback_candidate(name: Seq<u8>) -> bool {
    &&& has_exe_ext(name)
    &&& !contains_seq(
        lower_bytes(name),
        seq![117u8, 110, 105, 110, 115, 116, 97, 108, 108],
    )
    &&& !contains_seq(lower_bytes(name), seq![115u8, 101, 116, 117, 112])
    &&& !contains_seq(lower_bytes(name), seq![108u8, 97, 117, 110, 99, 104, 101, 114])
}

/// Decides `fallback_candidate`.
fn is_fallback_candidate(name: &Vec<u8>) -> (r: bool)
    ensures
        r == fallback_candidate(name@),
{
    if name.len() < 5 {
        return false;
    }
    let n = name.len();
    let ext_ok = name[n - 4] == 46 && name[n - 3] == 101 && name[n - 2] == 120 && name[n - 1]
        == 101;
    proof {
        if ext_ok {
            assert(name@.skip(n - 4) =~~= seq![46u8, 101, 120, 101]);
        } else {
            if name@.skip(n - 4) == seq![46u8, 101, 120, 101] {
                assert(name@.skip(n - 4)[0] == name@[n - 4]);
                assert(name@.skip(n - 4)[1] == name@[n - 3]);
                assert(name@.skip(n - 4)[2] == name@[n - 2]);
                assert(name@.skip(n - 4)[3] == name@[n - 1]);
            }
        }
    }
    if !ext_ok {
        return false;
    }
    let lower = to_lower(name);
    let uninstall: Vec<u8> = vec![117, 110, 105, 110, 115, 116, 97, 108, 108];
    let setup: Vec<u8> = vec![115, 101, 116, 117, 112];
    let launcher: Vec<u8> = vec![108, 97, 117, 110, 99, 104, 101, 114];
    proof {
        assert(uninstall@ =~= seq![117u8, 110, 105, 110, 115, 116, 97, 108, 108]);
        assert(setup@ =~= seq![115u8, 101, 116, 117, 112]);
        assert(launcher@ =~= seq![108u8, 97, 117, 110, 99, 104, 101, 114]);
    }
    !contains_bytes(&lower, &uninstall) && !contains_bytes(&lower, &setup) && !contains_bytes(
        &lower,
        &launcher,
    )
}

/// Finds a launchable binary directly inside `dir`: the well-known name
/// first, then any fallback candidate, in storage order.
pub fn find_executable(fs: &FsTree, dir: &Vec<Vec<u8>>) -> (r: Result<Vec<u8>, FsError>)
    requires
        fs.inv(),
    ensures
        match r {
            Ok(name) => fs@.files.dom().contains(path_view(dir@).push(name@)) && (name@
                == primary_name() || fallback_candidate(name@)) && (fs@.files.dom().contains(
                path_view(dir@).push(primary_name()),
            ) ==> name@ == primary_name()),
            Err(e) => e == FsError::NotFound && !fs@.files.dom().contains(
                path_view(dir@).push(primary_name()),
            ) && forall|n: Seq<u8>|
                fs@.files.dom().contains(#[trigger] path_view(dir@).push(n))
                    ==> !fallback_candidate(n),
        },
{
    let ghost dv = path_view(dir@);
    let game: Vec<u8> = vec![103, 97, 109, 101, 46, 101, 120, 101];
    proof {
        assert(game@ =~= primary_name());
    }
    let primary = clone_path_push(dir, &game);
    if fs.has_file(&primary) {
        return Ok(game);
    }
    let mut i: usize = 0;
    while i < fs.files.len()
        invariant
            fs.inv(),
            dv == path_view(dir@),
            0 <= i <= fs.files@.len(),
            !fs@.files.dom().contains(dv.push(primary_name())),
            forall|j: int, n: Seq<u8>|
                #![trigger fs.file_key_seq()[j], dv.push(n)]
                0 <= j < i && fs.file_key_seq()[j] == dv.push(n) ==> !fallback_candidate(n),
        decreases fs.files@.len() - i,
    {
        let key = &fs.files[i].0;
        let kl = key.len();
        if kl > dir.len() && kl - 1 == dir.len() && path_has_prefix(key, dir) {
            let name = clone_bytes(&key[kl - 1]);
            proof {
                assert(fs.file_key_seq()[i as int] =~~= dv.push(name@));
            }
            if is_fallback_candidate(&name) {
                proof {
                    fs.lemma_file_lookup(i as int);
                }
                return Ok(name);
            }
        }
        proof {
            assert forall|n: Seq<u8>|
                fs.file_key_seq()[i as int] == dv.push(n) implies !fallback_candidate(n) by {
                assert(n == fs.file_key_seq()[i as int].last());
            }
        }
        i += 1;
    }
    proof {
        assert forall|n: Seq<u8>|
            fs@.files.dom().contains(#[trigger] dv.push(n)) implies !fallback_candidate(n) by {
            let j = choose|j: int|
                0 <= j < fs.file_key_seq().len() && fs.file_key_seq()[j] == dv.push(n);
        }
    }
    Err(FsError::NotFound)
}

/// A copy of `dir` with one more component.
fn clone_path_push(dir: &Vec<Vec<u8>>, name: &Vec<u8>) -> (r: Vec<Vec<u8>>)
    ensures
        path_view(r@) == path_view(dir@).push(name@),
{
    crate::text::push_component(dir, name)
}

} // verus!
