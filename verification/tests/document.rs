use nextgen_studio::document::{
    is_otui_extension, new_tab_check, open_target, save_check, Document, Edit, MAX_BYTES, MAX_TABS,
};
use nextgen_studio::history::History;

#[test]
fn exact_roundtrip_and_minimal_patch() {
    let b = b"\xef\xbb\xbf# keep\r\nPanel\r\n  text: old\r\n  @onClick: |\r\n    foo('a:b')\r\n  $hover:\r\n    color: red\r\n  Button\r\n    text: child";
    let mut d = Document::parse(b, true).unwrap();
    assert_eq!(d.bytes(), b);
    assert_eq!(d.nodes.len(), 3);
    d.set(2, "text", "new").unwrap();
    assert_eq!(
        d.bytes(),
        String::from_utf8_lossy(b)
            .replace("text: child", "text: new")
            .into_bytes()
    );
    assert!(d.set(0, "@onClick", "oops").is_err());
}

#[test]
fn cp1252_and_invalid_edits() {
    let mut d = Document::parse(b"Label\n  text: Caf\xe9\n", true).unwrap();
    assert_eq!(d.encoding(), "Windows-1252");
    let b = d.bytes();
    assert!(d.set(0, "text", "😀").is_err());
    assert_eq!(d.bytes(), b);
    d.set(0, "text", "Ação").unwrap();
    assert!(d.bytes().contains(&0xe7));
    assert!(d.replace_bytes(b"\xef\xbb\xbf\xff").is_err());
    assert_eq!(d.encoding(), "Windows-1252");
}

#[test]
fn structure_and_history() {
    let mut d = Document::parse(
        b"Panel\n  layout:\n    type: verticalBox\n  Button\n    id: first\n  Button\n    id: second\n",
        true,
    )
    .unwrap();
    assert_eq!(d.nodes.len(), 4);
    let before = d.bytes();
    let mut h = History::default();
    h.apply(&mut d, "Remove", &[Edit::Remove { node: 2 }]).unwrap();
    assert!(!d.text().contains("first"));
    h.undo(&mut d).unwrap();
    assert_eq!(before, d.bytes());
    h.redo(&mut d).unwrap();
    assert!(!d.text().contains("first"));
    h.apply(
        &mut d,
        "Add",
        &[Edit::Add { parent: Some(0), kind: "Label".to_string(), id: "third".to_string() }],
    )
    .unwrap();
    assert!(d.add(Some(0), "Label", "third").is_err());
}

#[test]
fn invalid_input_and_tabs() {
    assert!(Document::parse(b"a\0b", true).is_err());
    assert!(Document::parse(&vec![b'a'; MAX_BYTES + 1], true).is_err());
    let mut d = Document::parse(b"Label\n\ttext: x\n", true).unwrap();
    assert!(d.set(0, "text", "y").is_err());
    assert!(d.remove(0).is_err());
}

#[test]
fn source_keeps_encoding_and_paths() {
    let mut d = Document::parse(b"local x = 1\r\n", false).unwrap();
    assert!(d.nodes.is_empty());
    let mut h = History::default();
    h.apply(&mut d, "code", &[Edit::ReplaceText { text: "local x = 2\r\n".to_string() }])
        .unwrap();
    h.undo(&mut d).unwrap();
    assert_eq!(d.bytes(), b"local x = 1\r\n");
}

#[test]
fn save_decisions_follow_the_disk() {
    assert_eq!(
        save_check(true, false, true, true).unwrap_err(),
        "Arquivo mudou fora do editor. Reabra ou salve uma cópia."
    );
    assert_eq!(save_check(false, true, true, false).unwrap_err(), "Destino já existe.");
    assert_eq!(save_check(false, true, true, true), Ok(true));
    assert_eq!(save_check(true, true, true, false), Ok(true));
    assert_eq!(save_check(false, true, false, false), Ok(false));
    assert!(is_otui_extension("OTUI"));
    assert!(!is_otui_extension("lua"));
}

#[test]
fn saving_records_the_bytes() {
    let mut d = Document::parse(b"Label\n  text: old\n", true).unwrap();
    assert!(d.matches_saved(b"Label\n  text: old\n"));
    assert!(!d.dirty());
    d.set(0, "text", "new").unwrap();
    assert!(d.dirty());
    assert!(d.matches_saved(b"Label\n  text: old\n"));
    d.mark_saved(std::path::PathBuf::from("a.otui"));
    assert!(!d.dirty());
    assert!(d.matches_saved(b"Label\n  text: new\n"));
    assert_eq!(d.path, Some(std::path::PathBuf::from("a.otui")));
    d.mark_new();
    assert!(d.path.is_none());
    assert!(d.dirty());
}

#[test]
fn undo_then_redo_round_trips() {
    let mut d = Document::parse(b"Panel\n  id: p\n  Button\n    text: a\n", true).unwrap();
    let initial = d.bytes();
    let mut h = History::default();
    assert!(h.labels().is_empty());
    h.apply(&mut d, "Texto", &[Edit::SetProperty { node: 1, key: "text".to_string(), value: "b".to_string() }])
        .unwrap();
    let edited = d.bytes();
    assert!(h.can_undo(&d));
    h.undo(&mut d).unwrap();
    assert_eq!(d.bytes(), initial);
    assert!(h.can_redo(&d));
    h.redo(&mut d).unwrap();
    assert_eq!(d.bytes(), edited);
    h.apply(&mut d, "Nada", &[Edit::SetProperty { node: 1, key: "text".to_string(), value: "b".to_string() }])
        .unwrap();
    assert_eq!(h.labels(), vec!["Texto"]);
    assert!(h.apply(&mut d, "Erro", &[Edit::Remove { node: 0 }, Edit::Remove { node: 5 }]).is_err());
    assert_eq!(d.bytes(), edited);
    assert_eq!(h.labels(), vec!["Texto"]);
}

#[test]
fn accepting_unchanged_code_keeps_bytes() {
    let b = b"\xef\xbb\xbfPanel\r\n  text: Ol\xc3\xa1\r\n# nota\n";
    let mut d = Document::parse(b, true).unwrap();
    let text = d.text();
    let mut h = History::default();
    h.apply(&mut d, "Editar código", &[Edit::ReplaceText { text }]).unwrap();
    assert_eq!(d.bytes(), b.to_vec());
    assert!(h.labels().is_empty());
    assert_eq!(d.encoding(), "UTF-8");
}

#[test]
fn set_value_reads_back_when_rewritten() {
    let mut d = Document::parse(b"Panel\n  Label\n    text:   old value  \n    color: red\n", true).unwrap();
    let count = d.nodes.len();
    d.set(1, "text", "  novo texto ").unwrap();
    assert_eq!(d.nodes.len(), count);
    assert_eq!(d.value(1, "text"), "novo texto");
    assert_eq!(d.value(1, "color"), "red");
    assert_eq!(
        d.bytes(),
        b"Panel\n  Label\n    text:     novo texto \n    color: red\n".to_vec()
    );
}

#[test]
fn set_value_reads_back_when_inserted() {
    let mut d = Document::parse(b"Panel\n  Label\n    color: red\n  Button\n", true).unwrap();
    let count = d.nodes.len();
    d.set(1, "text", " Olá ").unwrap();
    assert_eq!(d.nodes.len(), count);
    assert_eq!(d.value(1, "text"), "Olá");
    assert_eq!(d.value(1, "color"), "red");
    assert_eq!(
        d.bytes(),
        "Panel\n  Label\n    text:  Olá \n    color: red\n  Button\n".as_bytes().to_vec()
    );
    assert_eq!(d.nodes[2].line, 4);
}

#[test]
fn set_inserts_after_a_last_line_without_terminator() {
    let mut d = Document::parse(b"Panel\r\n  id: p\r\nLabel", true).unwrap();
    d.set(1, "text", "x").unwrap();
    assert_eq!(d.bytes(), b"Panel\r\n  id: p\r\nLabel\r\n  text: x\r\n".to_vec());
    assert_eq!(d.value(1, "text"), "x");
}

#[test]
fn set_refuses_growth_past_the_limit_under_deep_indentation() {
    let head = b"Panel\n";
    let node = [vec![b' '; 100], b"Label\n".to_vec()].concat();
    let filler_len = MAX_BYTES - head.len() - node.len() - 70;
    let filler = [b"#".to_vec(), vec![b'x'; filler_len - 2], b"\n".to_vec()].concat();
    let bytes = [head.to_vec(), filler, node].concat();
    assert!(bytes.len() <= MAX_BYTES);
    let mut d = Document::parse(&bytes, true).unwrap();
    let before = d.bytes();
    assert_eq!(
        d.set(1, "k", "v").unwrap_err(),
        "Documento excederia 8 MiB."
    );
    assert_eq!(d.bytes(), before);
}

#[test]
fn accepting_unchanged_cp1252_code_keeps_bytes() {
    let b = b"Label\r\n  text: Caf\xe9 \xe0 la cr\xe8me\r\n";
    let mut d = Document::parse(b, true).unwrap();
    assert_eq!(d.encoding(), "Windows-1252");
    let text = d.text();
    assert_eq!(text, "Label\r\n  text: Café à la crème\r\n");
    let mut h = History::default();
    h.apply(&mut d, "Editar código", &[Edit::ReplaceText { text }]).unwrap();
    assert_eq!(d.bytes(), b.to_vec());
    assert!(h.labels().is_empty());
    assert_eq!(d.encoding(), "Windows-1252");
}

#[test]
fn cp1252_text_that_cannot_be_encoded_is_refused() {
    let mut d = Document::parse(b"Label\n  text: Caf\xe9\n", true).unwrap();
    let before = d.bytes();
    assert_eq!(
        d.replace_text("Label\n  text: \u{4e2d}\n").unwrap_err(),
        "Caractere não representável em Windows-1252."
    );
    assert_eq!(d.bytes(), before);
}

#[test]
fn index_is_a_tree_over_the_lines() {
    let d = Document::parse(
        b"Panel\n  id: root\n  Label\n    text: a\n  # nota\n  Button\n    @onClick: |\n      x()\n    size: 1 2\nWindow\n",
        true,
    )
    .unwrap();
    let lines: Vec<usize> = d.nodes.iter().map(|n| n.line).collect();
    assert_eq!(lines, vec![0, 2, 5, 9]);
    let parents: Vec<Option<usize>> = d.nodes.iter().map(|n| n.parent).collect();
    assert_eq!(parents, vec![None, Some(0), Some(0), None]);
    let ends: Vec<usize> = d.nodes.iter().map(|n| n.end).collect();
    assert_eq!(ends, vec![9, 5, 9, 10]);
    for n in &d.nodes {
        assert!(n.line < n.end);
        for p in &n.properties {
            assert!(n.line < p.line && p.line < n.end);
        }
    }
    assert_eq!(d.nodes[2].properties.len(), 2);
    assert!(d.nodes[2].properties[0].block);
    let src = Document::parse(b"Panel\n  id: x\n", false).unwrap();
    assert!(src.nodes.is_empty() && src.issues.is_empty());
}

#[test]
fn opening_reuses_tabs_and_keeps_to_eight() {
    assert_eq!(open_target(Some(3), 8), Ok(Some(3)));
    assert_eq!(open_target(None, 7), Ok(None));
    assert_eq!(
        open_target(None, 8).unwrap_err(),
        "Feche uma aba antes de abrir outro documento."
    );
    assert_eq!(MAX_TABS, 8);
    assert!(new_tab_check(7).is_ok());
    assert_eq!(new_tab_check(8).unwrap_err(), "Limite de oito documentos.");
}

fn near_limit(indent: usize, room: usize) -> Vec<u8> {
    let head = b"Panel\n";
    let node = [vec![b' '; indent], b"Label\n".to_vec(), vec![b' '; indent + 2], b"text: old\n".to_vec()].concat();
    let filler_len = MAX_BYTES - head.len() - node.len() - room;
    let filler = [b"#".to_vec(), vec![b'x'; filler_len - 2], b"\n".to_vec()].concat();
    [head.to_vec(), filler, node].concat()
}

#[test]
fn set_near_the_limit_accepts_what_fits() {
    let bytes = near_limit(50, 70);
    assert_eq!(bytes.len(), MAX_BYTES - 70);
    let mut d = Document::parse(&bytes, true).unwrap();
    d.set(1, "k", "v").unwrap();
    assert_eq!(d.value(1, "k"), "v");
    assert_eq!(d.bytes().len(), MAX_BYTES - 70 + 50 + 2 + 1 + 2 + 1 + 1);
    assert!(d.bytes().len() <= MAX_BYTES);
    let mut e = Document::parse(&bytes, true).unwrap();
    e.set(1, "text", "n").unwrap();
    assert_eq!(e.value(1, "text"), "n");
    assert_eq!(e.bytes().len(), MAX_BYTES - 70 - 2);
}

#[test]
fn set_near_the_limit_refuses_by_the_value_size() {
    let bytes = near_limit(2, 70);
    let mut d = Document::parse(&bytes, true).unwrap();
    let before = d.bytes();
    assert_eq!(d.set(1, "text", "abcdefg").unwrap_err(), "Documento excederia 8 MiB.");
    assert_eq!(d.bytes(), before);
}

#[test]
fn undo_gives_back_the_nodes() {
    let b = "\u{feff}Panel\r\n  id: p\r\n  Label\r\n    text: Olá\r\n".as_bytes();
    let mut d = Document::parse(b, true).unwrap();
    let nodes = format!("{:?}", d.nodes);
    let issues = d.issues.clone();
    let mut h = History::default();
    h.apply(&mut d, "Texto", &[Edit::SetProperty { node: 1, key: "color".to_string(), value: "red".to_string() }])
        .unwrap();
    assert_ne!(format!("{:?}", d.nodes), nodes);
    h.undo(&mut d).unwrap();
    assert_eq!(d.bytes(), b.to_vec());
    assert_eq!(format!("{:?}", d.nodes), nodes);
    assert_eq!(d.issues, issues);
    assert_eq!(d.encoding(), "UTF-8");
}
