//! Per-game status records.
//!
//! A `GameStatus` is persisted as one pretty-printed JSON document,
//! `game_status.json`, inside the managed game directory.  The renderer
//! is verified against an exact byte-level specification; the reader
//! accepts a document only after re-rendering what it extracted and
//! comparing byte for byte, so everything it returns renders back to the
//! stored text.

use vstd::prelude::*;
use vstd::string::{StrSliceExecFns, StringSliceAdditionalSpecFns};

use crate::errors::FsError;
use crate::text::{bytes_eq, clone_bytes, path_view, paths_view, push_component};
use crate::tree::FsTree;
use crate::tree::TreeView;

verus! {

/// One game's persisted status.
pub struct GameStatus {
    pub game_name: Vec<u8>,
    pub game_path: Vec<u8>,
    pub launch_options: Vec<u8>,
    pub installed_mods: Vec<Vec<u8>>,
    pub play_time: u64,
    pub last_updated: Vec<u8>,
}

/// The abstract value of a status record.
#[verifier::ext_equal]
pub ghost struct StatusView {
    pub game_name: Seq<u8>,
    pub game_path: Seq<u8>,
    pub launch_options: Seq<u8>,
    pub installed_mods: Seq<Seq<u8>>,
    pub play_time: u64,
    pub last_updated: Seq<u8>,
}

impl View for GameStatus {
    type V = StatusView;

    open spec fn view(&self) -> StatusView {
        StatusView {
            game_name: self.game_name@,
            game_path: self.game_path@,
            launch_options: self.launch_options@,
            installed_mods: path_view(self.installed_mods@),
            play_time: self.play_time,
            last_updated: self.last_updated@,
        }
    }
}

/// The lowercase hex digit of a value below sixteen.
pub open spec fn hex_digit(n: u8) -> u8 {
    if n < 10 {
        (48 + n) as u8
    } else {
        (87 + n) as u8
    }
}

/// The escaped form of one byte: quote and backslash get a backslash,
/// the common control bytes their short names, the other control bytes
/// the four-digit escape.
pub open spec fn esc_byte(b: u8) -> Seq<u8> {
    if b == 34 || b == 92 {
        seq![92u8, b]
    } else if b == 10 {
        seq![92u8, 110]
    } else if b == 13 {
        seq![92u8, 114]
    } else if b == 9 {
        seq![92u8, 116]
    } else if b < 32 {
        seq![92u8, 117, 48, 48, hex_digit(b / 16), hex_digit(b % 16)]
    } else {
        seq![b]
    }
}

/// JSON string escaping, byte for byte.
pub open spec fn esc(s: Seq<u8>) -> Seq<u8>
    decreases s.len(),
{
    if s.len() == 0 {
        Seq::empty()
    } else {
        esc_byte(s[0]) + esc(s.drop_first())
    }
}

/// A quoted, escaped JSON string.
pub open spec fn jstr(s: Seq<u8>) -> Seq<u8> {
    seq![34u8] + esc(s) + seq![34u8]
}

/// Decimal digits of an unsigned number.
pub open spec fn dec_u64(n: u64) -> Seq<u8>
    decreases n,
{
    if n < 10 {
        seq![(48 + n) as u8]
    } else {
        dec_u64(n / 10).push((48 + n % 10) as u8)
    }
}

/// The items of the installed-mods array, comma-separated.
pub open spec fn mods_items(mods: Seq<Seq<u8>>) -> Seq<u8>
    decreases mods.len(),
{
    if mods.len() == 0 {
        Seq::empty()
    } else if mods.len() == 1 {
        jstr(mods[0])
    } else {
        jstr(mods[0]) + seq![44u8, 32] + mods_items(mods.drop_first())
    }
}

/// The installed-mods array.
pub open spec fn mods_json(mods: Seq<Seq<u8>>) -> Seq<u8> {
    seq![91u8] + mods_items(mods) + seq![93u8]
}

/// One `  "key": value` line fragment.
pub open spec fn kv(key: Seq<u8>, val: Seq<u8>) -> Seq<u8> {
    seq![32u8, 32, 34] + key + seq![34u8, 58, 32] + val
}

/// The canonical rendered form of a status record: a pretty-printed JSON
/// object with one line per field.
pub open spec fn render_spec(g: StatusView) -> Seq<u8> {
    seq![123u8, 10] + kv("game_name".spec_bytes(), jstr(g.game_name)) + seq![44u8, 10] + kv(
        "game_path".spec_bytes(),
        jstr(g.game_path),
    ) + seq![44u8, 10] + kv("launch_options".spec_bytes(), jstr(g.launch_options)) + seq![
        44u8,
        10,
    ] + kv("installed_mods".spec_bytes(), mods_json(g.installed_mods)) + seq![44u8, 10] + kv(
        "play_time".spec_bytes(),
        dec_u64(g.play_time),
    ) + seq![44u8, 10] + kv("last_updated".spec_bytes(), jstr(g.last_updated)) + seq![10u8, 125]
}

/// Appends the escaped suffix of `s` from `i` on.
fn push_esc(out: &mut Vec<u8>, s: &Vec<u8>, i: usize)
    requires
        i <= s@.len(),
    ensures
        final(out)@ == old(out)@ + esc(s@.skip(i as int)),
    decreases s@.len() - i,
{
    if i == s.len() {
        proof {
            assert(esc(s@.skip(i as int)) =~~= Seq::<u8>::empty());
            assert(out@ =~~= out@ + esc(s@.skip(i as int)));
        }
    } else {
        let b = s[i];
        let ghost pre = out@;
        if b == 34 || b == 92 {
            out.push(92);
            out.push(b);
        } else if b == 10 {
            out.push(92);
            out.push(110);
        } else if b == 13 {
            out.push(92);
            out.push(114);
        } else if b == 9 {
            out.push(92);
            out.push(116);
        } else if b < 32 {
            out.push(92);
            out.push(117);
            out.push(48);
            out.push(48);
            let hi = b / 16;
            let lo = b % 16;
            out.push(if hi < 10 { 48 + hi } else { 87 + hi });
            out.push(if lo < 10 { 48 + lo } else { 87 + lo });
        } else {
            out.push(b);
        }
        let ghost mid = out@;
        push_esc(out, s, i + 1);
        proof {
            let suf = s@.skip(i as int);
            assert(suf[0] == s@[i as int]);
            assert(suf.drop_first() =~~= s@.skip(i + 1));
            assert(mid =~~= pre + esc_byte(b));
            assert(out@ =~~= pre + esc(suf));
        }
    }
}

/// Appends a quoted, escaped JSON string.
fn push_jstr(out: &mut Vec<u8>, s: &Vec<u8>)
    ensures
        final(out)@ == old(out)@ + jstr(s@),
{
    let ghost pre = out@;
    out.push(34);
    push_esc(out, s, 0);
    out.push(34);
    proof {
        assert(s@.skip(0) =~~= s@);
        assert(out@ =~~= pre + jstr(s@));
    }
}

/// Appends the decimal digits of `n`.
fn push_u64(out: &mut Vec<u8>, n: u64)
    ensures
        final(out)@ == old(out)@ + dec_u64(n),
    decreases n,
{
    let ghost pre = out@;
    if n < 10 {
        out.push(48 + n as u8);
        proof {
            assert(out@ =~~= pre + dec_u64(n));
        }
    } else {
        push_u64(out, n / 10);
        out.push(48 + (n % 10) as u8);
        proof {
            assert(out@ =~~= pre + dec_u64(n));
        }
    }
}

/// Appends the comma-separated items of the mods array from `i` on.
fn push_mods_items(out: &mut Vec<u8>, mods: &Vec<Vec<u8>>, i: usize)
    requires
        i <= mods@.len(),
    ensures
        final(out)@ == old(out)@ + mods_items(path_view(mods@).skip(i as int)),
    decreases mods@.len() - i,
{
    let ghost pre = out@;
    let ghost rest = path_view(mods@).skip(i as int);
    if i == mods.len() {
        proof {
            assert(mods_items(rest) =~~= Seq::<u8>::empty());
            assert(out@ =~~= pre + mods_items(rest));
        }
    } else if i + 1 == mods.len() {
        push_jstr(out, &mods[i]);
        proof {
            assert(rest.len() == 1);
            assert(rest[0] == path_view(mods@)[i as int]);
            assert(out@ =~~= pre + mods_items(rest));
        }
    } else {
        push_jstr(out, &mods[i]);
        out.push(44);
        out.push(32);
        let ghost mid = out@;
        push_mods_items(out, mods, i + 1);
        proof {
            assert(rest.len() >= 2);
            assert(rest[0] == path_view(mods@)[i as int]);
            assert(rest.drop_first() =~~= path_view(mods@).skip(i + 1));
            assert(mid =~~= pre + jstr(path_view(mods@)[i as int]) + seq![44u8, 32]);
            assert(out@ =~~= pre + mods_items(rest));
        }
    }
}

/// Appends one `  "key": ` fragment, with the value still to come.
fn push_key(out: &mut Vec<u8>, key: &str)
    ensures
        final(out)@ == old(out)@ + seq![32u8, 32, 34] + key.spec_bytes() + seq![34u8, 58, 32],
{
    let ghost pre = out@;
    out.push(32);
    out.push(32);
    out.push(34);
    let kb = key.as_bytes_vec();
    let mut i: usize = 0;
    while i < kb.len()
        invariant
            0 <= i <= kb@.len(),
            kb@ == key.spec_bytes(),
            out@ =~= pre + seq![32u8, 32, 34] + kb@.take(i as int),
        decreases kb@.len() - i,
    {
        out.push(kb[i]);
        proof {
            assert(out@ =~~= pre + seq![32u8, 32, 34] + kb@.take(i + 1));
        }
        i += 1;
    }
    out.push(34);
    out.push(58);
    out.push(32);
    proof {
        assert(kb@.take(kb@.len() as int) =~~= kb@);
        assert(out@ =~~= pre + seq![32u8, 32, 34] + key.spec_bytes() + seq![34u8, 58, 32]);
    }
}

/// Renders a status record into its canonical persisted text.
#[verifier::rlimit(100)]
#[verifier::spinoff_prover]
pub fn render_status(g: &GameStatus) -> (r: Vec<u8>)
    ensures
        r@ == render_spec(g@),
{
    let mut out: Vec<u8> = Vec::new();
    out.push(123);
    out.push(10);
    proof {
        assert(out@ =~= seq![123u8, 10]);
    }
    let ghost a1 = seq![123u8, 10] + kv("game_name".spec_bytes(), jstr(g@.game_name)) + seq![
        44u8,
        10,
    ];
    push_key(&mut out, "game_name");
    push_jstr(&mut out, &g.game_name);
    out.push(44);
    out.push(10);
    proof {
        assert(out@ =~~= a1);
    }
    let ghost a2 = a1 + kv("game_path".spec_bytes(), jstr(g@.game_path)) + seq![44u8, 10];
    push_key(&mut out, "game_path");
    push_jstr(&mut out, &g.game_path);
    out.push(44);
    out.push(10);
    proof {
        assert(out@ =~~= a2);
    }
    let ghost a3 = a2 + kv("launch_options".spec_bytes(), jstr(g@.launch_options)) + seq![
        44u8,
        10,
    ];
    push_key(&mut out, "launch_options");
    push_jstr(&mut out, &g.launch_options);
    out.push(44);
    out.push(10);
    proof {
        assert(out@ =~~= a3);
    }
    let ghost a4 = a3 + kv("installed_mods".spec_bytes(), mods_json(g@.installed_mods)) + seq![
        44u8,
        10,
    ];
    push_key(&mut out, "installed_mods");
    out.push(91);
    push_mods_items(&mut out, &g.installed_mods, 0);
    out.push(93);
    out.push(44);
    out.push(10);
    proof {
        assert(path_view(g.installed_mods@).skip(0) =~~= path_view(g.installed_mods@));
        assert(out@ =~~= a4);
    }
    let ghost a5 = a4 + kv("play_time".spec_bytes(), dec_u64(g@.play_time)) + seq![44u8, 10];
    push_key(&mut out, "play_time");
    push_u64(&mut out, g.play_time);
    out.push(44);
    out.push(10);
    proof {
        assert(out@ =~~= a5);
    }
    let ghost a6 = a5 + kv("last_updated".spec_bytes(), jstr(g@.last_updated)) + seq![10u8, 125];
    push_key(&mut out, "last_updated");
    push_jstr(&mut out, &g.last_updated);
    out.push(10);
    out.push(125);
    proof {
        assert(out@ =~~= a6);
        assert(a6 == render_spec(g@));
    }
    out
}

/// The name of the persisted status file.
pub open spec fn status_name() -> Seq<u8> {
    "game_status.json".spec_bytes()
}

/// Returns the status file name as bytes.
pub fn status_file_name() -> (r: Vec<u8>)
    ensures
        r@ == status_name(),
{
    ("game_status.json").as_bytes_vec()
}

/// The value of a lowercase hex digit byte.
fn hex_val(b: u8) -> (r: Option<u8>)
    ensures
        r matches Some(v) ==> v < 16,
{
    if 48 <= b && b <= 57 {
        Some(b - 48)
    } else if 97 <= b && b <= 102 {
        Some(b - 87)
    } else {
        None
    }
}

/// Scans one quoted JSON string starting at `i`; returns the unescaped
/// content and the position after the closing quote.
fn scan_jstr(t: &Vec<u8>, i: usize) -> (r: Option<(Vec<u8>, usize)>)
    ensures
        r matches Some(p) ==> i < p.1 <= t@.len(),
{
    if i >= t.len() || t[i] != 34 {
        return None;
    }
    let mut j = i + 1;
    let mut out: Vec<u8> = Vec::new();
    while j < t.len()
        invariant
            i < j <= t@.len(),
        decreases t@.len() - j,
    {
        let b = t[j];
        if b == 34 {
            return Some((out, j + 1));
        }
        if b == 92 {
            if j + 1 >= t.len() {
                return None;
            }
            let e = t[j + 1];
            if e == 110 {
                out.push(10);
                j += 2;
            } else if e == 114 {
                out.push(13);
                j += 2;
            } else if e == 116 {
                out.push(9);
                j += 2;
            } else if e == 117 {
                let tl = t.len();
                if tl - j <= 5 {
                    return None;
                }
                let h1 = hex_val(t[j + 4]);
                let h2 = hex_val(t[j + 5]);
                match h1 {
                    Some(a) => match h2 {
                        Some(c) => {
                            if t[j + 2] != 48 || t[j + 3] != 48 {
                                return None;
                            }
                            out.push(a * 16 + c);
                            j += 6;
                        },
                        None => { return None; },
                    },
                    None => { return None; },
                }
            } else {
                out.push(e);
                j += 2;
            }
        } else {
            out.push(b);
            j += 1;
        }
    }
    None
}

/// Scans the exact byte run `lit` at `i`.
fn scan_lit(t: &Vec<u8>, i: usize, lit: &Vec<u8>) -> (r: Option<usize>)
    ensures
        r matches Some(x) ==> x == i + lit@.len() && x <= t@.len(),
{
    if i > t.len() || lit.len() > t.len() - i {
        return None;
    }
    let tl = t.len();
    let mut k: usize = 0;
    while k < lit.len()
        invariant
            k <= lit@.len(),
            i + lit@.len() <= t@.len(),
            tl == t@.len(),
        decreases lit@.len() - k,
    {
        if t[i + k] != lit[k] {
            return None;
        }
        k += 1;
    }
    Some(i + lit.len())
}

/// Scans a decimal number at `i`.
fn scan_u64(t: &Vec<u8>, i: usize) -> (r: Option<(u64, usize)>)
    ensures
        r matches Some(p) ==> i <= p.1 <= t@.len(),
{
    if i > t.len() {
        return None;
    }
    let mut j = i;
    let mut n: u64 = 0;
    let mut seen = false;
    while j < t.len() && t[j] >= 48 && t[j] <= 57
        invariant
            i <= j <= t@.len(),
        decreases t@.len() - j,
    {
        let d = (t[j] - 48) as u64;
        if n > (u64::MAX - d) / 10 {
            return None;
        }
        proof {
            assert(n * 10 + d <= u64::MAX) by (nonlinear_arith)
                requires
                    n <= (u64::MAX - d) / 10,
                    d <= 9,
            ;
        }
        n = n * 10 + d;
        seen = true;
        j += 1;
    }
    if seen {
        Some((n, j))
    } else {
        None
    }
}

/// Reads a status record out of its persisted text.
///
/// A candidate is accepted only if rendering it reproduces the stored
/// bytes exactly, so every accepted record renders back to the text.
pub fn parse_status(t: &Vec<u8>) -> (r: Option<GameStatus>)
    ensures
        r matches Some(g) ==> t@ == render_spec(g@),
{
    let head = ("{\n  \"game_name\": ").as_bytes_vec();
    let i = match scan_lit(t, 0, &head) {
        Some(i) => i,
        None => { return None; },
    };
    let (game_name, i) = match scan_jstr(t, i) {
        Some(p) => p,
        None => { return None; },
    };
    let sep_path = (",\n  \"game_path\": ").as_bytes_vec();
    let i = match scan_lit(t, i, &sep_path) {
        Some(i) => i,
        None => { return None; },
    };
    let (game_path, i) = match scan_jstr(t, i) {
        Some(p) => p,
        None => { return None; },
    };
    let sep_opts = (",\n  \"launch_options\": ").as_bytes_vec();
    let i = match scan_lit(t, i, &sep_opts) {
        Some(i) => i,
        None => { return None; },
    };
    let (launch_options, i) = match scan_jstr(t, i) {
        Some(p) => p,
        None => { return None; },
    };
    let sep_mods = (",\n  \"installed_mods\": [").as_bytes_vec();
    let mut i = match scan_lit(t, i, &sep_mods) {
        Some(i) => i,
        None => { return None; },
    };
    let mut installed_mods: Vec<Vec<u8>> = Vec::new();
    if i < t.len() && t[i] == 93 {
        i += 1;
    } else {
        let comma = (", ").as_bytes_vec();
        while i <= t.len()
            invariant
                i <= t@.len(),
            decreases t@.len() - i,
        {
            let (item, i2) = match scan_jstr(t, i) {
                Some(p) => p,
                None => { return None; },
            };
            if i2 <= i {
                return None;
            }
            installed_mods.push(item);
            i = i2;
            if i < t.len() && t[i] == 93 {
                i += 1;
                break;
            }
            let i3 = match scan_lit(t, i, &comma) {
                Some(p) => p,
                None => { return None; },
            };
            if i3 <= i {
                return None;
            }
            i = i3;
        }
    }
    let sep_play = (",\n  \"play_time\": ").as_bytes_vec();
    let i = match scan_lit(t, i, &sep_play) {
        Some(i) => i,
        None => { return None; },
    };
    let (play_time, i) = match scan_u64(t, i) {
        Some(p) => p,
        None => { return None; },
    };
    let sep_upd = (",\n  \"last_updated\": ").as_bytes_vec();
    let i = match scan_lit(t, i, &sep_upd) {
        Some(i) => i,
        None => { return None; },
    };
    let (last_updated, i) = match scan_jstr(t, i) {
        Some(p) => p,
        None => { return None; },
    };
    let tail = ("\n}").as_bytes_vec();
    let i = match scan_lit(t, i, &tail) {
        Some(i) => i,
        None => { return None; },
    };
    if i != t.len() {
        return None;
    }
    let g = GameStatus { game_name, game_path, launch_options, installed_mods, play_time, last_updated };
    let rendered = render_status(&g);
    if bytes_eq(&rendered, t) {
        Some(g)
    } else {
        None
    }
}

/// The merged record: supplied fields replace the old ones, absent
/// fields stay, and the write stamp is always refreshed.
pub open spec fn merge_view(
    prior: StatusView,
    opts: Option<Vec<u8>>,
    mods: Option<Vec<Vec<u8>>>,
    now: Seq<u8>,
) -> StatusView {
    StatusView {
        game_name: prior.game_name,
        game_path: prior.game_path,
        launch_options: match opts {
            Some(o) => o@,
            None => prior.launch_options,
        },
        installed_mods: match mods {
            Some(m) => path_view(m@),
            None => prior.installed_mods,
        },
        play_time: prior.play_time,
        last_updated: now,
    }
}

/// Law: a partial update changes exactly the supplied fields and the
/// write stamp.  In particular an update that supplies only the mod list
/// leaves the launch options untouched.
pub proof fn lemma_merge_partial(
    prior: StatusView,
    opts: Option<Vec<u8>>,
    mods: Option<Vec<Vec<u8>>>,
    now: Seq<u8>,
)
    ensures
        merge_view(prior, opts, mods, now).game_name == prior.game_name,
        merge_view(prior, opts, mods, now).game_path == prior.game_path,
        merge_view(prior, opts, mods, now).play_time == prior.play_time,
        merge_view(prior, opts, mods, now).last_updated == now,
        opts is None ==> merge_view(prior, opts, mods, now).launch_options
            == prior.launch_options,
        mods is None ==> merge_view(prior, opts, mods, now).installed_mods
            == prior.installed_mods,
{
}

/// Applies a partial update to a record.
pub fn merge_status(
    prior: GameStatus,
    opts: Option<Vec<u8>>,
    mods: Option<Vec<Vec<u8>>>,
    now: Vec<u8>,
) -> (r: GameStatus)
    ensures
        r@ == merge_view(prior@, opts, mods, now@),
{
    let launch_options = match opts {
        Some(o) => o,
        None => prior.launch_options,
    };
    let installed_mods = match mods {
        Some(m) => m,
        None => prior.installed_mods,
    };
    GameStatus {
        game_name: prior.game_name,
        game_path: prior.game_path,
        launch_options,
        installed_mods,
        play_time: prior.play_time,
        last_updated: now,
    }
}

/// The fresh record that `create` persists.
pub open spec fn fresh_view(
    game_name: Vec<u8>,
    launch_options: Vec<u8>,
    install_path: Option<Vec<u8>>,
    now: Seq<u8>,
) -> StatusView {
    StatusView {
        game_name: game_name@,
        game_path: match install_path {
            Some(p) => p@,
            None => Seq::empty(),
        },
        launch_options: launch_options@,
        installed_mods: Seq::empty(),
        play_time: 0,
        last_updated: now,
    }
}

/// Builds a fresh record and writes it to `status_dir/game_status.json`,
/// creating the directory if absent and overwriting any earlier file.
pub fn create_game_status(
    fs: &mut FsTree,
    game_name: Vec<u8>,
    status_dir: &Vec<Vec<u8>>,
    launch_options: Vec<u8>,
    install_path: Option<Vec<u8>>,
    now: Vec<u8>,
) -> (r: Result<Vec<Vec<u8>>, FsError>)
    requires
        old(fs).inv(),
    ensures
        final(fs).inv(),
        match r {
            Ok(p) => path_view(p@) == path_view(status_dir@).push(status_name()) && final(fs)@
                == old(fs)@.with_file(
                path_view(status_dir@).push(status_name()),
                render_spec(fresh_view(game_name, launch_options, install_path, now@)),
            ),
            Err(e) => e == FsError::IoFailure && final(fs)@ == old(fs)@ && (old(
                fs,
            )@.dirs.contains(path_view(status_dir@).push(status_name()))
                || FsTree::chain_blocked(
                old(fs)@,
                path_view(status_dir@).push(status_name()),
            )),
        },
{
    let gp = match &install_path {
        Some(p) => clone_bytes(p),
        None => Vec::new(),
    };
    let status = GameStatus {
        game_name,
        game_path: gp,
        launch_options,
        installed_mods: Vec::new(),
        play_time: 0,
        last_updated: now,
    };
    proof {
        assert(path_view(status.installed_mods@) =~~= Seq::<Seq<u8>>::empty());
        assert(status@ =~~= fresh_view(
            status.game_name,
            status.launch_options,
            install_path,
            status.last_updated@,
        ));
    }
    let text = render_status(&status);
    let name = status_file_name();
    let p = push_component(status_dir, &name);
    match fs.write_file(&p, text) {
        Ok(()) => Ok(p),
        Err(e) => Err(e),
    }
}

/// Reads and decodes the status record of one managed game directory.
pub fn read_game_status(fs: &FsTree, status_dir: &Vec<Vec<u8>>) -> (r: Result<
    GameStatus,
    FsError,
>)
    requires
        fs.inv(),
    ensures
        match r {
            Ok(g) => fs@.files.dom().contains(path_view(status_dir@).push(status_name()))
                && fs@.files[path_view(status_dir@).push(status_name())] == render_spec(g@),
            Err(e) => ((e == FsError::NotFound) <==> !fs@.files.dom().contains(
                path_view(status_dir@).push(status_name()),
            )) && ((e == FsError::ParseFailure) ==> fs@.files.dom().contains(
                path_view(status_dir@).push(status_name()),
            )) && ((fs@.files.dom().contains(path_view(status_dir@).push(status_name())) && !(
            exists|g: StatusView|
                fs@.files[path_view(status_dir@).push(status_name())] == render_spec(g)))
                ==> e == FsError::ParseFailure),
        },
{
    let name = status_file_name();
    let p = push_component(status_dir, &name);
    match fs.read_file(&p) {
        Ok(text) => match parse_status(&text) {
            Some(g) => Ok(g),
            None => Err(FsError::ParseFailure),
        },
        Err(_) => Err(FsError::NotFound),
    }
}

/// The fallback record synthesized when a status is updated before it
/// was ever created: named after the directory's last segment, pointing
/// at the directory itself.
pub open spec fn default_view(dir: Seq<Seq<u8>>, dir_joined: Seq<u8>, now: Seq<u8>) -> StatusView {
    StatusView {
        game_name: if dir.len() > 0 {
            dir.last()
        } else {
            Seq::empty()
        },
        game_path: dir_joined,
        launch_options: Seq::empty(),
        installed_mods: Seq::empty(),
        play_time: 0,
        last_updated: now,
    }
}

/// What a completed partial update leaves behind: the merged record,
/// rendered and written over the status file.
pub open spec fn update_outcome(
    v0: TreeView,
    dirv: Seq<Seq<u8>>,
    dir_joined: Seq<u8>,
    opts: Option<Vec<u8>>,
    mods: Option<Vec<Vec<u8>>>,
    now: Seq<u8>,
    v1: TreeView,
) -> bool {
    let p = dirv.push(status_name());
    if v0.files.dom().contains(p) {
        exists|g: StatusView|
            v0.files[p] == render_spec(g) && v1 == v0.with_file(
                p,
                render_spec(#[trigger] merge_view(g, opts, mods, now)),
            )
    } else {
        v1 == v0.with_file(
            p,
            render_spec(merge_view(default_view(dirv, dir_joined, now), opts, mods, now)),
        )
    }
}

/// Loads the record if present, synthesizes the fallback otherwise,
/// applies the partial update, stamps it and writes it back whole.
pub fn update_game_status(
    fs: &mut FsTree,
    status_dir: &Vec<Vec<u8>>,
    dir_joined: Vec<u8>,
    opts: Option<Vec<u8>>,
    mods: Option<Vec<Vec<u8>>>,
    now: Vec<u8>,
) -> (r: Result<(), FsError>)
    requires
        old(fs).inv(),
    ensures
        final(fs).inv(),
        match r {
            Ok(()) => update_outcome(
                old(fs)@,
                path_view(status_dir@),
                dir_joined@,
                opts,
                mods,
                now@,
                final(fs)@,
            ),
            Err(e) => final(fs)@ == old(fs)@ && ((e == FsError::ParseFailure) ==> old(
                fs,
            )@.files.dom().contains(path_view(status_dir@).push(status_name()))) && ((e
                == FsError::IoFailure) ==> (old(fs)@.dirs.contains(
                path_view(status_dir@).push(status_name()),
            ) || FsTree::chain_blocked(
                old(fs)@,
                path_view(status_dir@).push(status_name()),
            ))) && ((old(fs)@.files.dom().contains(path_view(status_dir@).push(status_name()))
                && !(exists|g: StatusView|
                old(fs)@.files[path_view(status_dir@).push(status_name())] == render_spec(g)))
                ==> e == FsError::ParseFailure),
        },
{
    let name = status_file_name();
    let p = push_component(status_dir, &name);
    let prior: GameStatus = match fs.read_file(&p) {
        Ok(text) => match parse_status(&text) {
            Some(g) => g,
            None => { return Err(FsError::ParseFailure); },
        },
        Err(FsError::NotFound) => {
            let gname = if status_dir.len() > 0 {
                clone_bytes(&status_dir[status_dir.len() - 1])
            } else {
                Vec::new()
            };
            GameStatus {
                game_name: gname,
                game_path: dir_joined,
                launch_options: Vec::new(),
                installed_mods: Vec::new(),
                play_time: 0,
                last_updated: clone_bytes(&now),
            }
        },
        Err(_) => { return Err(FsError::IoFailure); },
    };
    let ghost prior_v = prior@;
    let ghost had_file = fs@.files.dom().contains(path_view(status_dir@).push(status_name()));
    let ghost opts_g = opts;
    let ghost mods_g = mods;
    let ghost now_v = now@;
    let ghost old_files = fs@.files;
    let merged = merge_status(prior, opts, mods, now);
    let text = render_status(&merged);
    let ghost pv = path_view(status_dir@).push(status_name());
    proof {
        assert(path_view(p@) == pv);
        assert(merged@ == merge_view(prior_v, opts_g, mods_g, now_v));
    }
    match fs.write_file(&p, text) {
        Ok(()) => {
            proof {
                if had_file {
                    assert(old_files[pv] == render_spec(prior_v) && fs@ == old(
                        fs,
                    )@.with_file(pv, render_spec(merge_view(prior_v, opts_g, mods_g, now_v))));
                } else {
                    assert(prior_v =~~= default_view(path_view(status_dir@), dir_joined@, now_v));
                }
            }
            Ok(())
        },
        Err(e) => Err(e),
    }
}

/// Applies a partial update stamped with the current clock reading.
pub fn update_game_status_now(
    fs: &mut FsTree,
    status_dir: &Vec<Vec<u8>>,
    dir_joined: Vec<u8>,
    opts: Option<Vec<u8>>,
    mods: Option<Vec<Vec<u8>>>,
) -> (r: Result<(), FsError>)
    requires
        old(fs).inv(),
    ensures
        final(fs).inv(),
        match r {
            Ok(()) => exists|now: Seq<u8>|
                #[trigger] update_outcome(
                    old(fs)@,
                    path_view(status_dir@),
                    dir_joined@,
                    opts,
                    mods,
                    now,
                    final(fs)@,
                ),
            Err(e) => final(fs)@ == old(fs)@,
        },
{
    let now = crate::clock::now_rfc3339();
    let ghost now_v = now@;
    let r = update_game_status(fs, status_dir, dir_joined, opts, mods, now);
    proof {
        if r is Ok {
            assert(update_outcome(
                old(fs)@,
                path_view(status_dir@),
                dir_joined@,
                opts,
                mods,
                now_v,
                fs@,
            ));
        }
    }
    r
}

/// The name of the folder that holds one managed directory per game.
pub open spec fn game_seg() -> Seq<u8> {
    "game".spec_bytes()
}

/// Lists the managed game directories under `app_dir/game` that hold no
/// status file yet.  A missing (or unreadable) `app_dir/game` yields an
/// empty list.
pub fn scan_unregistered(fs: &FsTree, app_dir: &Vec<Vec<u8>>) -> (r: Vec<Vec<Vec<u8>>>)
    requires
        fs.inv(),
    ensures
        forall|d: Seq<Seq<u8>>|
            #[trigger] paths_view(r@).contains(d) <==> ((exists|n: Seq<u8>|
                d == path_view(app_dir@).push(game_seg()).push(n)) && fs@.dirs.contains(d)
                && !fs@.files.dom().contains(d.push(status_name()))),
        forall|a: int, b: int|
            0 <= a < b < r@.len() ==> #[trigger] paths_view(r@)[a] != #[trigger] paths_view(r@)[b],
{
    let game = ("game").as_bytes_vec();
    let gd = push_component(app_dir, &game);
    let ghost gdv = path_view(app_dir@).push(game_seg());
    proof {
        assert(path_view(gd@) == gdv);
    }
    let names = match fs.scan_subdirectories(&gd) {
        Ok(ns) => ns,
        Err(_) => {
            proof {
                assert forall|d: Seq<Seq<u8>>|
                    (exists|n: Seq<u8>| d == gdv.push(n)) && fs@.dirs.contains(d) implies false by {
                    let n = choose|n: Seq<u8>| d == gdv.push(n);
                    assert(d.drop_last() =~~= gdv);
                    assert(fs@.dirs.contains(gdv));
                }
                assert(paths_view(Seq::<Vec<Vec<u8>>>::empty()).len() == 0);
            }
            return Vec::new();
        },
    };
    let sn = status_file_name();
    let mut out: Vec<Vec<Vec<u8>>> = Vec::new();
    let mut i: usize = 0;
    while i < names.len()
        invariant
            fs.inv(),
            gdv == path_view(app_dir@).push(game_seg()),
            path_view(gd@) == gdv,
            sn@ == status_name(),
            0 <= i <= names@.len(),
            forall|n: Seq<u8>|
                #[trigger] path_view(names@).contains(n) <==> fs@.dirs.contains(gdv.push(n)),
            forall|a: int, b: int|
                0 <= a < b < names@.len() ==> #[trigger] path_view(names@)[a]
                    != #[trigger] path_view(names@)[b],
            forall|d: Seq<Seq<u8>>|
                #[trigger] paths_view(out@).contains(d) <==> exists|j: int|
                    0 <= j < i && d == gdv.push(#[trigger] path_view(names@)[j])
                        && !fs@.files.dom().contains(d.push(status_name())),
            forall|a: int, b: int|
                0 <= a < b < out@.len() ==> #[trigger] paths_view(out@)[a]
                    != #[trigger] paths_view(out@)[b],
        decreases names@.len() - i,
    {
        let full = push_component(&gd, &names[i]);
        let st = push_component(&full, &sn);
        let ghost dv = gdv.push(path_view(names@)[i as int]);
        proof {
            assert(path_view(names@)[i as int] == names@[i as int]@);
            assert(path_view(full@) == dv);
            assert(path_view(st@) == dv.push(status_name()));
        }
        let ghost old_out = out@;
        if !fs.has_file(&st) {
            out.push(full);
            proof {
                assert(paths_view(out@).len() == paths_view(old_out).len() + 1);
                assert forall|m: int| 0 <= m < paths_view(out@).len() implies paths_view(
                    out@,
                )[m] == paths_view(old_out).push(dv)[m] by {
                    if m < paths_view(old_out).len() {
                        assert(out@[m] == old_out[m]);
                    } else {
                        assert(path_view(out@[m]@) == dv);
                    }
                }
                assert(paths_view(out@) =~~= paths_view(old_out).push(dv));
                assert forall|d: Seq<Seq<u8>>| #[trigger] paths_view(out@).contains(d) implies
                    exists|j: int|
                    0 <= j < i + 1 && d == gdv.push(#[trigger] path_view(names@)[j])
                        && !fs@.files.dom().contains(d.push(status_name())) by {
                    let m = choose|m: int|
                        0 <= m < paths_view(out@).len() && paths_view(out@)[m] == d;
                    if m < paths_view(old_out).len() {
                        assert(paths_view(old_out).contains(d));
                    } else {
                        assert(d == gdv.push(path_view(names@)[i as int]));
                    }
                }
                assert forall|d: Seq<Seq<u8>>|
                    (exists|j: int|
                        0 <= j < i + 1 && d == gdv.push(#[trigger] path_view(names@)[j])
                            && !fs@.files.dom().contains(d.push(status_name()))) implies
                    #[trigger] paths_view(out@).contains(d) by {
                    let j = choose|j: int|
                        0 <= j < i + 1 && d == gdv.push(path_view(names@)[j])
                            && !fs@.files.dom().contains(d.push(status_name()));
                    if j < i {
                        assert(paths_view(old_out).contains(d));
                        let m = choose|m: int|
                            0 <= m < paths_view(old_out).len() && paths_view(old_out)[m] == d;
                        assert(paths_view(out@)[m] == d);
                    } else {
                        assert(paths_view(out@)[paths_view(old_out).len() as int] == d);
                    }
                }
                assert forall|a: int, b: int|
                    0 <= a < b < out@.len() implies #[trigger] paths_view(out@)[a]
                    != #[trigger] paths_view(out@)[b] by {
                    if b == old_out.len() {
                        if paths_view(out@)[a] == dv {
                            assert(paths_view(old_out).contains(dv));
                            let j = choose|j: int|
                                0 <= j < i && dv == gdv.push(path_view(names@)[j])
                                    && !fs@.files.dom().contains(dv.push(status_name()));
                            assert(gdv.push(path_view(names@)[j]).last() == path_view(
                                names@,
                            )[j]);
                            assert(path_view(names@)[j] == path_view(names@)[i as int]);
                            assert(false);
                        }
                    }
                }
            }
        } else {
            proof {
                assert forall|d: Seq<Seq<u8>>|
                    (exists|j: int|
                        0 <= j < i + 1 && d == gdv.push(#[trigger] path_view(names@)[j])
                            && !fs@.files.dom().contains(d.push(status_name()))) implies
                    #[trigger] paths_view(out@).contains(d) by {
                    let j = choose|j: int|
                        0 <= j < i + 1 && d == gdv.push(path_view(names@)[j])
                            && !fs@.files.dom().contains(d.push(status_name()));
                    if j == i {
                        assert(d.push(status_name()) == dv.push(status_name()));
                        assert(false);
                    }
                }
            }
        }
        i += 1;
    }
    proof {
        assert forall|d: Seq<Seq<u8>>| #[trigger] paths_view(out@).contains(d) implies ((exists|
            n: Seq<u8>,
        |
            d == gdv.push(n)) && fs@.dirs.contains(d) && !fs@.files.dom().contains(
            d.push(status_name()),
        )) by {
            let j = choose|j: int|
                0 <= j < names@.len() && d == gdv.push(#[trigger] path_view(names@)[j])
                    && !fs@.files.dom().contains(d.push(status_name()));
            assert(path_view(names@).contains(path_view(names@)[j]));
        }
        assert forall|d: Seq<Seq<u8>>|
            ((exists|n: Seq<u8>| d == gdv.push(n)) && fs@.dirs.contains(d)
                && !fs@.files.dom().contains(d.push(status_name()))) implies #[trigger] paths_view(
            out@,
        ).contains(d) by {
            let n = choose|n: Seq<u8>| d == gdv.push(n);
            assert(path_view(names@).contains(n));
            let j = choose|j: int|
                0 <= j < path_view(names@).len() && path_view(names@)[j] == n;
        }
    }
    out
}

} // verus!