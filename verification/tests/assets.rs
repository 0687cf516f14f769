use nextgen_studio::assets::{
    asset_kind, asset_matches, file_action, is_hidden, portable_path, AssetCatalog, AssetKind,
    FileAction, MAX_ASSETS, MAX_SCAN_DEPTH,
};
use std::path::PathBuf;

fn add(catalog: &mut AssetCatalog, relative: &str, extension: &str, bytes: u64) -> bool {
    assert!(catalog.has_room());
    catalog.add_file(PathBuf::from(relative), relative, extension, bytes)
}

#[test]
fn catalog_keeps_supported_resources() {
    let mut catalog = AssetCatalog::default();
    assert!(catalog.enter(0));
    assert!(add(&mut catalog, "icon.png", "png", 1));
    assert!(add(&mut catalog, "screen.otui", "otui", 5));
    assert!(!add(&mut catalog, "ignored.bin", "bin", 1));
    catalog.finish();
    assert_eq!(catalog.entries.len(), 2);
    assert_eq!(catalog.counts()[AssetKind::Image as usize], 1);
    assert_eq!(catalog.counts()[AssetKind::Interface as usize], 1);
    assert!(!catalog.truncated);
}

#[test]
fn catalog_lists_by_relative_path() {
    let mut catalog = AssetCatalog::new();
    add(&mut catalog, "b\\z.lua", "LUA", 3);
    add(&mut catalog, "a/y.ttf", "ttf", 4);
    add(&mut catalog, "B.otmod", "otmod", 2);
    add(&mut catalog, "a.png", "Png", 1);
    catalog.finish();
    let names: Vec<&str> = catalog.entries.iter().map(|e| e.relative.as_str()).collect();
    assert_eq!(names, vec!["B.otmod", "a.png", "a/y.ttf", "b/z.lua"]);
    assert_eq!(catalog.entries[3].kind, AssetKind::Script);
    assert_eq!(catalog.entries[3].bytes, 3);
    assert_eq!(catalog.counts(), [1, 1, 0, 1, 1]);
}

#[test]
fn scan_limits_mark_truncation() {
    let mut catalog = AssetCatalog::new();
    assert!(catalog.enter(MAX_SCAN_DEPTH));
    assert!(!catalog.truncated);
    assert!(!catalog.enter(MAX_SCAN_DEPTH + 1));
    assert!(catalog.truncated);
    let mut full = AssetCatalog::new();
    for i in 0..MAX_ASSETS {
        full.add_file(PathBuf::from("x"), &format!("f{i}.lua"), "lua", 0);
    }
    assert!(!full.has_room());
    assert!(full.truncated);
    assert!(!full.enter(0));
}

#[test]
fn extensions_and_names_classify() {
    assert_eq!(asset_kind("JPEG"), Some(AssetKind::Image));
    assert_eq!(asset_kind("woff"), Some(AssetKind::Font));
    assert_eq!(asset_kind("otui"), Some(AssetKind::Interface));
    assert_eq!(asset_kind(""), None);
    assert_eq!(AssetKind::Module.label(), "OTMOD");
    assert_eq!(AssetKind::Image.label(), "Imagem");
    assert!(is_hidden(".git"));
    assert!(!is_hidden("data"));
    assert_eq!(portable_path("a\\b\\c.png"), "a/b/c.png");
    assert_eq!(file_action("PNG"), FileAction::ShowImage);
    assert_eq!(file_action("bmp"), FileAction::Ignore);
    assert_eq!(file_action("css"), FileAction::Open);
}

#[test]
fn filter_matches_path_or_kind() {
    let mut catalog = AssetCatalog::new();
    add(&mut catalog, "ui/Button.png", "png", 1);
    let entry = &catalog.entries[0];
    assert!(asset_matches(entry, ""));
    assert!(asset_matches(entry, "BUTTON"));
    assert!(asset_matches(entry, "imag"));
    assert!(!asset_matches(entry, "lua"));
}
