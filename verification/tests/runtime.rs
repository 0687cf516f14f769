use nextgen_studio::document::Document;
use nextgen_studio::runtime::{is_style_definition, resolve_asset, sheet_fits, visual_state, StyleBook, VisualState};

#[test]
fn resolves_inheritance_variables_and_combined_states() {
    let mut book = StyleBook::default();
    book.parse("&tone: #112233\nBase < UIButton\n  color: $tone\n  size: 10 20\nChild < Base\n  $hover !disabled:\n    color: #abcdef\n");
    let doc = Document::parse(b"Child\n  id: button\n", true).unwrap();
    let normal = book.resolve(&doc, 0, VisualState::default());
    assert_eq!(normal.get("color"), "#112233");
    assert_eq!(normal.get("size"), "10 20");
    let hover = book.resolve(
        &doc,
        0,
        VisualState {
            hovered: true,
            ..Default::default()
        },
    );
    assert_eq!(hover.get("color"), "#abcdef");
}

#[test]
fn style_book_counts_and_replaces_styles() {
    let mut book = StyleBook::default();
    assert!(book.is_empty());
    book.parse("A < B\n  x: 1\nC < D\r\n// note\nA < E\n  y: 2\n");
    assert!(!book.is_empty());
    assert_eq!(book.style_count(), 2);
    let doc = Document::parse(b"A\n", true).unwrap();
    let r = book.resolve(&doc, 0, VisualState::default());
    assert_eq!(r.get("x"), "");
    assert_eq!(r.get("y"), "2");
}

#[test]
fn unknown_variables_and_missing_nodes_resolve_plainly() {
    let mut book = StyleBook::default();
    book.parse("S < T\n  color: $nothing, 3\n");
    let doc = Document::parse(b"S\n  text: a\n", true).unwrap();
    let r = book.resolve(&doc, 0, VisualState::default());
    assert_eq!(r.get("color"), "$nothing, 3");
    assert_eq!(r.get("text"), "a");
    let none = book.resolve(&doc, 5, VisualState::default());
    assert_eq!(none.get("text"), "");
}

#[test]
fn document_styles_and_state_blocks_apply_in_order() {
    let book = StyleBook::default();
    let doc = Document::parse(
        b"Big < Small\n  width: 10\nSmall < UIWidget\n  width: 5\n  height: 7\nBig\n  @onClick: go()\n  $pressed:\n    width: 12\n",
        true,
    )
    .unwrap();
    let idle = book.resolve(&doc, 2, VisualState::default());
    assert_eq!(idle.get("width"), "10");
    assert_eq!(idle.get("height"), "7");
    assert_eq!(idle.get("@onClick"), "");
    let pressed = book.resolve(&doc, 2, visual_state("Pressionado", false, false));
    assert_eq!(pressed.get("width"), "12");
}

#[test]
fn cyclic_styles_end() {
    let mut book = StyleBook::default();
    book.parse("A < B\n  a: 1\nB < A\n  b: 2\n");
    let doc = Document::parse(b"A\n", true).unwrap();
    let r = book.resolve(&doc, 0, VisualState::default());
    assert_eq!(r.get("a"), "1");
    assert_eq!(r.get("b"), "2");
}

#[test]
fn visual_states_from_menu_names() {
    assert_eq!(visual_state("Normal", true, true), VisualState::default());
    assert!(visual_state("Hover", false, false).hovered);
    assert!(visual_state("Desabilitado", false, true).disabled);
    assert!(visual_state("Desabilitado", false, true).pressed);
    assert_eq!(visual_state("Other", true, false), VisualState { hovered: true, ..Default::default() });
    assert!(is_style_definition("A < B"));
    assert!(!is_style_definition("Button"));
}

#[test]
fn image_sources_name_paths_below_data() {
    assert_eq!(resolve_asset(" '/images/ui/button' ", '/'), Some("images/ui/button".to_string()));
    assert_eq!(resolve_asset("\"\\\\icons/a.png\"", '\\'), Some("icons\\a.png".to_string()));
    assert_eq!(resolve_asset("../secret", '/'), None);
    assert_eq!(resolve_asset("a/../b", '/'), None);
    assert_eq!(resolve_asset(" '' ", '/'), None);
}

#[test]
fn style_files_are_counted_or_warned() {
    let mut book = StyleBook::default();
    book.add_sheet("A < B\n");
    book.add_sheet("C < D\n");
    assert_eq!(book.files, 2);
    assert_eq!(book.style_count(), 2);
    book.refuse_sheet("x.otui", Some("denied"));
    book.refuse_sheet("y.otui", None);
    assert_eq!(book.warnings, vec!["x.otui: denied".to_string(), "y.otui excede o limite de leitura".to_string()]);
    assert!(sheet_fits(8 * 1024 * 1024));
    assert!(!sheet_fits(8 * 1024 * 1024 + 1));
}
