use vlsp::paths::{file_stem, has_extension, is_plugin_file, name_stem, stem_of_segment};

#[test]
fn stems_of_uris() {
    assert_eq!(file_stem("file:///data/Armor.txt"), "armor");
    assert_eq!(file_stem("file:///data/a.b.TXT"), "a.b");
    assert_eq!(file_stem("file:///data/README"), "readme");
    assert_eq!(file_stem("file:///data/.txt"), "");
    assert_eq!(file_stem("file:///data/"), "");
    assert_eq!(file_stem("file:///data/my%20file.txt"), "my%20file");
    assert_eq!(file_stem("untitled:Untitled-1"), "");
    assert_eq!(file_stem("no uri"), "");
}

#[test]
fn stems_of_segments() {
    assert_eq!(stem_of_segment(Some("Weapons.txt")), "weapons");
    assert_eq!(stem_of_segment(Some("Weapons")), "weapons");
    assert_eq!(stem_of_segment(None), "");
}

#[test]
fn extensions_and_stems_are_those_of_std() {
    for name in ["armor.txt", "Armor.TXT", ".txt", "a.b.txt", "txt", "a.", ".a.txt", "..", ".", "Ä.Txt", ""] {
        let path = std::path::Path::new(name);
        let extension = path.extension().and_then(|e| e.to_str());
        for wanted in ["txt", "TXT", "Txt", ""] {
            assert_eq!(has_extension(name, wanted), extension == Some(wanted), "{name} {wanted}");
        }
        if name != "." {
            let stem = path.file_stem().and_then(|s| s.to_str()).unwrap_or("").to_lowercase();
            assert_eq!(name_stem(name), stem, "{name}");
        }
    }
}

#[test]
fn plugin_files() {
    assert!(is_plugin_file("a.ts"));
    assert!(is_plugin_file("a.js"));
    assert!(!is_plugin_file("_patches.js"));
    assert!(is_plugin_file("_patches.ts"));
    assert!(!is_plugin_file("a.json"));
    assert!(!is_plugin_file("a.JS"));
}
