use nextgen_studio::document::{Document, Edit};
use nextgen_studio::history::History;
use nextgen_studio::layout::{anchor_edits, display_label, effective_value, lays_out, managed};
use nextgen_studio::runtime::{StyleBook, VisualState};

#[test]
fn only_plain_widgets_are_laid_out() {
    let d = Document::parse(
        b"Tpl < Panel\n  Label\n    id: inner\nPanel\n  layout: verticalBox\n  Button\n    anchors.left: parent.left\n  $hover:\n    color: red\n",
        true,
    )
    .unwrap();
    assert!(!lays_out(&d, 0));
    assert!(!lays_out(&d, 1));
    assert!(lays_out(&d, 2));
    assert!(lays_out(&d, 3));
    assert!(!lays_out(&d, 4));
    assert!(!lays_out(&d, 9));
    assert!(!managed(&d, 2));
    assert!(managed(&d, 3));
}

#[test]
fn labels_and_values_prefer_the_right_source() {
    let mut book = StyleBook::default();
    book.parse("Btn < UIButton\n  text: 'Ok'\n  width: 30\n");
    let d = Document::parse(b"Btn\n  id: b1\n  width: 50\nLabel\n  id: l1\n", true).unwrap();
    let s0 = book.resolve(&d, 0, VisualState::default());
    assert_eq!(display_label(&d, 0, &s0), "Ok");
    assert_eq!(effective_value(&d, 0, &s0, "width"), "50");
    let s1 = book.resolve(&d, 1, VisualState::default());
    assert_eq!(display_label(&d, 1, &s1), "l1");
    assert_eq!(effective_value(&d, 1, &s1, "width"), "");
}

#[test]
fn clearing_anchors_is_one_step() {
    let mut d = Document::parse(
        b"Panel\n  Button\n    anchors.left: parent.left\n    id: b\n    anchors.top: parent.top\n",
        true,
    )
    .unwrap();
    let edits = anchor_edits(&d, 1);
    assert_eq!(edits.len(), 2);
    let mut h = History::default();
    h.apply(&mut d, "Limpar anchors", &edits).unwrap();
    assert_eq!(d.text(), "Panel\n  Button\n    id: b\n");
    assert_eq!(h.labels(), vec!["Limpar anchors"]);
    h.undo(&mut d).unwrap();
    assert!(d.text().contains("anchors.top"));
    assert!(anchor_edits(&d, 7).is_empty());
    let bad = vec![Edit::RemoveProperty { node: 1, key: "id".to_string() }, Edit::Remove { node: 9 }];
    let before = d.bytes();
    assert!(h.apply(&mut d, "x", &bad).is_err());
    assert_eq!(d.bytes(), before);
}
