use modcore::archive::install;
use modcore::digest::checksum;
use modcore::errors::FsError;
use modcore::status::{
    create_game_status, parse_status, read_game_status, render_status, update_game_status,
    GameStatus,
};
use modcore::tree::FsTree;

fn p(parts: &[&str]) -> Vec<Vec<u8>> {
    parts.iter().map(|s| s.as_bytes().to_vec()).collect()
}

fn b(s: &str) -> Vec<u8> {
    s.as_bytes().to_vec()
}

fn make_zip(entries: &[(&str, &[u8])]) -> Vec<u8> {
    let mut w = zip::ZipWriter::new(std::io::Cursor::new(Vec::new()));
    let opts = zip::write::SimpleFileOptions::default();
    for (name, data) in entries {
        if name.ends_with('/') {
            w.add_directory(name.to_string(), opts).unwrap();
        } else {
            w.start_file(name.to_string(), opts).unwrap();
            std::io::Write::write_all(&mut w, data).unwrap();
        }
    }
    w.finish().unwrap().into_inner()
}

#[test]
fn scan_lists_exactly_the_child_directories() {
    let mut fs = FsTree::new();
    fs.create_tree(&p(&["a", "b"])).unwrap();
    fs.create_tree(&p(&["a", "c"])).unwrap();
    fs.write_file(&p(&["a", "f.txt"]), b("x")).unwrap();
    let mut names = fs.scan_subdirectories(&p(&["a"])).unwrap();
    names.sort();
    assert_eq!(names, vec![b("b"), b("c")]);
    // a missing root yields an empty list, not an error
    let none = fs.scan_subdirectories(&p(&["missing"])).unwrap();
    assert!(none.is_empty());
}

#[test]
fn create_tree_twice_is_idempotent() {
    let mut fs = FsTree::new();
    fs.create_tree(&p(&["x", "y", "z"])).unwrap();
    let before = fs.scan_subdirectories(&p(&["x"])).unwrap();
    fs.create_tree(&p(&["x", "y", "z"])).unwrap();
    let after = fs.scan_subdirectories(&p(&["x"])).unwrap();
    assert_eq!(before, after);
    assert!(fs.has_dir(&p(&["x", "y", "z"])));
}

#[test]
fn copy_file_and_list_all_files() {
    let mut fs = FsTree::new();
    fs.write_file(&p(&["src", "a.bin"]), vec![1, 2, 3]).unwrap();
    fs.copy_file(&p(&["src", "a.bin"]), &p(&["dst", "deep", "a.bin"])).unwrap();
    assert_eq!(fs.read_file(&p(&["dst", "deep", "a.bin"])).unwrap(), vec![1, 2, 3]);
    let mut all = fs.list_all_files(&p(&["dst"])).unwrap();
    all.sort();
    assert_eq!(all, vec![p(&["dst", "deep", "a.bin"])]);
}

#[test]
fn delete_tree_removes_the_subtree_only() {
    let mut fs = FsTree::new();
    fs.write_file(&p(&["keep", "k.txt"]), b("k")).unwrap();
    fs.write_file(&p(&["gone", "g.txt"]), b("g")).unwrap();
    fs.delete_tree(&p(&["gone"])).unwrap();
    assert!(!fs.has_dir(&p(&["gone"])));
    assert!(fs.read_file(&p(&["gone", "g.txt"])).is_err());
    assert_eq!(fs.read_file(&p(&["keep", "k.txt"])).unwrap(), b("k"));
    assert_eq!(fs.delete_tree(&p(&["gone"])), Err(FsError::NotFound));
}

#[test]
fn read_status_without_file_is_not_found() {
    let mut fs = FsTree::new();
    fs.create_tree(&p(&["games", "mg"])).unwrap();
    assert_eq!(
        read_game_status(&fs, &p(&["games", "mg"])).err(),
        Some(FsError::NotFound)
    );
}

#[test]
fn create_writes_a_parseable_fresh_record() {
    let mut fs = FsTree::new();
    let path = create_game_status(
        &mut fs,
        b("MyGame"),
        &p(&["games", "mg"]),
        b("-windowed"),
        Some(b("/installs/MyGame")),
        b("2024-01-01T00:00:00+00:00"),
    )
    .unwrap();
    assert_eq!(path, p(&["games", "mg", "game_status.json"]));
    let g = read_game_status(&fs, &p(&["games", "mg"])).unwrap();
    assert_eq!(g.game_name, b("MyGame"));
    assert_eq!(g.game_path, b("/installs/MyGame"));
    assert_eq!(g.launch_options, b("-windowed"));
    assert!(g.installed_mods.is_empty());
    assert_eq!(g.play_time, 0);
    // the persisted text is real JSON with the same fields
    let raw = fs.read_file(&p(&["games", "mg", "game_status.json"])).unwrap();
    let v: serde_json::Value = serde_json::from_slice(&raw).unwrap();
    assert_eq!(v["game_name"], "MyGame");
    assert_eq!(v["game_path"], "/installs/MyGame");
    assert_eq!(v["play_time"], 0);
    assert_eq!(v["installed_mods"].as_array().unwrap().len(), 0);
}

#[test]
fn update_with_mods_only_keeps_launch_options() {
    let mut fs = FsTree::new();
    create_game_status(
        &mut fs,
        b("MyGame"),
        &p(&["games", "mg"]),
        b("-windowed"),
        None,
        b("2024-01-01T00:00:00+00:00"),
    )
    .unwrap();
    update_game_status(
        &mut fs,
        &p(&["games", "mg"]),
        b("games/mg"),
        None,
        Some(vec![b("modA"), b("modB")]),
        b("2024-01-02T00:00:00+00:00"),
    )
    .unwrap();
    let g = read_game_status(&fs, &p(&["games", "mg"])).unwrap();
    assert_eq!(g.launch_options, b("-windowed"));
    assert_eq!(g.installed_mods, vec![b("modA"), b("modB")]);
    assert!(g.last_updated > b("2024-01-01T00:00:00+00:00"));
    assert_eq!(g.last_updated, b("2024-01-02T00:00:00+00:00"));
}

#[test]
fn update_without_prior_record_synthesizes_a_default() {
    let mut fs = FsTree::new();
    fs.create_tree(&p(&["games", "solo"])).unwrap();
    update_game_status(
        &mut fs,
        &p(&["games", "solo"]),
        b("games/solo"),
        Some(b("-fast")),
        None,
        b("2024-03-04T05:06:07+00:00"),
    )
    .unwrap();
    let g = read_game_status(&fs, &p(&["games", "solo"])).unwrap();
    assert_eq!(g.game_name, b("solo"));
    assert_eq!(g.game_path, b("games/solo"));
    assert_eq!(g.launch_options, b("-fast"));
    assert_eq!(g.play_time, 0);
}

#[test]
fn render_parse_round_trip() {
    let g = GameStatus {
        game_name: b("A \"quoted\" name\\here"),
        game_path: b("/p"),
        launch_options: b(""),
        installed_mods: vec![b("m1"), b("m2"), b("m3")],
        play_time: 18446744073709551615,
        last_updated: b("t"),
    };
    let text = render_status(&g);
    let back = parse_status(&text).unwrap();
    assert_eq!(back.game_name, g.game_name);
    assert_eq!(back.installed_mods, g.installed_mods);
    assert_eq!(back.play_time, g.play_time);
    assert!(parse_status(&b("{}")).is_none());
}

#[test]
fn install_extracts_into_a_fresh_folder() {
    let mut fs = FsTree::new();
    let zip_bytes = make_zip(&[
        ("readme.txt", b"hello mod"),
        ("data/model.bin", &[0u8, 1, 2, 3]),
    ]);
    fs.write_file(&p(&["CoolMod.zip"]), zip_bytes).unwrap();
    let dest = install(&mut fs, &p(&["CoolMod.zip"]), &p(&["mods"])).unwrap();
    assert_eq!(dest, p(&["mods", "CoolMod"]));
    assert_eq!(
        fs.read_file(&p(&["mods", "CoolMod", "readme.txt"])).unwrap(),
        b"hello mod".to_vec()
    );
    assert_eq!(
        fs.read_file(&p(&["mods", "CoolMod", "data", "model.bin"])).unwrap(),
        vec![0u8, 1, 2, 3]
    );
}

#[test]
fn second_install_fails_and_keeps_the_first() {
    let mut fs = FsTree::new();
    let zip_bytes = make_zip(&[("readme.txt", b"v1")]);
    fs.write_file(&p(&["CoolMod.zip"]), zip_bytes).unwrap();
    install(&mut fs, &p(&["CoolMod.zip"]), &p(&["mods"])).unwrap();
    let second = install(&mut fs, &p(&["CoolMod.zip"]), &p(&["mods"]));
    assert_eq!(second.err(), Some(FsError::AlreadyExists));
    assert_eq!(
        fs.read_file(&p(&["mods", "CoolMod", "readme.txt"])).unwrap(),
        b"v1".to_vec()
    );
}

#[test]
fn traversal_entries_are_skipped() {
    let mut fs = FsTree::new();
    let zip_bytes = make_zip(&[
        ("../evil.txt", b"nope"),
        ("ok.txt", b"fine"),
    ]);
    fs.write_file(&p(&["Bad.zip"]), zip_bytes).unwrap();
    install(&mut fs, &p(&["Bad.zip"]), &p(&["mods"])).unwrap();
    assert_eq!(fs.read_file(&p(&["mods", "Bad", "ok.txt"])).unwrap(), b"fine".to_vec());
    // the traversal entry appeared nowhere, inside or outside the root
    assert!(fs.read_file(&p(&["evil.txt"])).is_err());
    assert!(fs.read_file(&p(&["mods", "evil.txt"])).is_err());
    let all = fs.list_all_files(&p(&[])).unwrap();
    assert!(all.iter().all(|q| !q.ends_with(&[b("evil.txt")][..])));
}

#[test]
fn checksum_matches_known_digest() {
    let mut fs = FsTree::new();
    fs.write_file(&p(&["f"]), b("abc")).unwrap();
    let h = checksum(&fs, &p(&["f"])).unwrap();
    assert_eq!(h, b("900150983cd24fb0d6963f7d28e17f72"));
    assert_eq!(checksum(&fs, &p(&["nope"])).err(), Some(FsError::NotFound));
}

#[test]
fn write_onto_directory_fails() {
    let mut fs = FsTree::new();
    fs.create_tree(&p(&["d"])).unwrap();
    assert_eq!(fs.write_file(&p(&["d"]), b("x")), Err(FsError::IoFailure));
    fs.write_file(&p(&["d", "f"]), b("x")).unwrap();
    assert_eq!(fs.delete_file(&p(&["d"])).err(), Some(FsError::NotAFile));
    fs.delete_file(&p(&["d", "f"])).unwrap();
    assert_eq!(fs.read_file(&p(&["d", "f"])).err(), Some(FsError::NotFound));
}

#[test]
fn find_executable_prefers_the_known_name() {
    let mut fs = FsTree::new();
    fs.write_file(&p(&["g", "game.exe"]), b("bin")).unwrap();
    fs.write_file(&p(&["g", "setup.exe"]), b("s")).unwrap();
    assert_eq!(
        modcore::locate::find_executable(&fs, &p(&["g"])).unwrap(),
        b("game.exe")
    );
}

#[test]
fn find_executable_falls_back_and_filters() {
    let mut fs = FsTree::new();
    fs.write_file(&p(&["g", "Uninstall.exe"]), b("u")).unwrap();
    fs.write_file(&p(&["g", "Launcher.exe"]), b("l")).unwrap();
    fs.write_file(&p(&["g", "readme.txt"]), b("r")).unwrap();
    assert_eq!(
        modcore::locate::find_executable(&fs, &p(&["g"])).err(),
        Some(FsError::NotFound)
    );
    fs.write_file(&p(&["g", "Cool.exe"]), b("c")).unwrap();
    assert_eq!(
        modcore::locate::find_executable(&fs, &p(&["g"])).unwrap(),
        b("Cool.exe")
    );
}

#[test]
fn round_trip_with_control_bytes() {
    let g = GameStatus {
        game_name: b("line\none\ttab\rret \u{1}ctl"),
        game_path: b("/p"),
        launch_options: b("-x"),
        installed_mods: vec![],
        play_time: 7,
        last_updated: b("t"),
    };
    let text = render_status(&g);
    // the stored text is valid JSON even with control bytes in a field
    let v: serde_json::Value = serde_json::from_slice(&text).unwrap();
    assert_eq!(v["game_name"], "line\none\ttab\rret \u{1}ctl");
    let back = parse_status(&text).unwrap();
    assert_eq!(back.game_name, g.game_name);
}

#[test]
fn update_on_garbage_is_a_parse_failure() {
    let mut fs = FsTree::new();
    fs.write_file(&p(&["g", "game_status.json"]), b("not json at all")).unwrap();
    let r = update_game_status(&mut fs, &p(&["g"]), b("g"), None, None, b("t"));
    assert_eq!(r, Err(FsError::ParseFailure));
    assert_eq!(read_game_status(&fs, &p(&["g"])).err(), Some(FsError::ParseFailure));
}

#[test]
fn scan_unregistered_reports_games_without_status() {
    let mut fs = FsTree::new();
    fs.create_tree(&p(&["app", "game", "alpha"])).unwrap();
    create_game_status(&mut fs, b("beta"), &p(&["app", "game", "beta"]), b(""), None, b("t"))
        .unwrap();
    let mut r = modcore::status::scan_unregistered(&fs, &p(&["app"]));
    r.sort();
    assert_eq!(r, vec![p(&["app", "game", "alpha"])]);
}

#[test]
fn install_rejects_a_nameless_archive() {
    let mut fs = FsTree::new();
    let zip_bytes = make_zip(&[("a.txt", b"x")]);
    fs.write_file(&p(&[".zip"]), zip_bytes).unwrap();
    // ".zip" has no stem to strip, so the whole name is the folder name
    let dest = install(&mut fs, &p(&[".zip"]), &p(&["mods"])).unwrap();
    assert_eq!(dest, p(&["mods", ".zip"]));
    // an unreadable archive is a parse failure
    fs.write_file(&p(&["bad.zip"]), b("this is no archive")).unwrap();
    assert_eq!(
        install(&mut fs, &p(&["bad.zip"]), &p(&["mods"])).err(),
        Some(FsError::ParseFailure)
    );
    assert_eq!(
        install(&mut fs, &p(&["absent.zip"]), &p(&["mods"])).err(),
        Some(FsError::NotFound)
    );
}

#[test]
fn install_rejects_colliding_entries() {
    let mut fs = FsTree::new();
    // "a" both as a file and as a directory holding "a/b" cannot coexist
    let zip_bytes = make_zip(&[("a", b"file"), ("a/b", b"nested")]);
    fs.write_file(&p(&["Clash.zip"]), zip_bytes).unwrap();
    assert_eq!(
        install(&mut fs, &p(&["Clash.zip"]), &p(&["mods"])).err(),
        Some(FsError::IoFailure)
    );
}
