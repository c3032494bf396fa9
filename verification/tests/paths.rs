use xisocompress::driver::{dest_path, get_filename_from_path, is_iso};

#[test]
fn iso_extensions_are_accepted() {
    assert!(is_iso(&String::from("game.iso")));
    assert!(is_iso(&String::from("game.xiso")));
    assert!(is_iso(&String::from("/some/dir/game.iso")));
    assert!(is_iso(&String::from("a.b.c.xiso")));
    // trailing separators are ignored, as std::path does
    assert!(is_iso(&String::from("game.iso/")));
    assert!(is_iso(&String::from("game.xiso//")));
}

#[test]
fn other_extensions_are_skipped() {
    assert!(!is_iso(&String::from("movie.mp4")));
    assert!(!is_iso(&String::from("GAME.ISO")));
    assert!(!is_iso(&String::from("game.iso.bak")));
    assert!(!is_iso(&String::from("noextension")));
    assert!(!is_iso(&String::from("")));
    assert!(!is_iso(&String::from(".iso")));
    assert!(!is_iso(&String::from("dir.iso/file")));
    assert!(!is_iso(&String::from("/")));
    assert!(!is_iso(&String::from("..")));
    assert!(!is_iso(&String::from("foo/..")));
    assert!(!is_iso(&String::from(".")));
}

#[test]
fn filename_is_final_component() {
    assert_eq!(get_filename_from_path(&String::from("/path/to/game.iso")), "game.iso");
    assert_eq!(get_filename_from_path(&String::from("game.iso")), "game.iso");
    // trailing separators are ignored, as std::path does
    assert_eq!(get_filename_from_path(&String::from("dir/")), "dir");
    assert_eq!(get_filename_from_path(&String::from("a/b//")), "b");
    // paths that name no file give the empty string
    assert_eq!(get_filename_from_path(&String::from("")), "");
    assert_eq!(get_filename_from_path(&String::from("/")), "");
    assert_eq!(get_filename_from_path(&String::from("..")), "");
    assert_eq!(get_filename_from_path(&String::from("foo/..")), "");
    assert_eq!(get_filename_from_path(&String::from(".")), "");
}

#[test]
fn output_names_are_numbered() {
    assert_eq!(dest_path(&String::from("game.iso"), 1), "game.iso.1.cso");
    assert_eq!(dest_path(&String::from("game.iso"), 2), "game.iso.2.cso");
    assert_eq!(dest_path(&String::from("a"), 12), "a.12.cso");
    assert_eq!(dest_path(&String::from("x"), 305), "x.305.cso");
}
