use nextgen_studio::preview::{preview_due, PreviewLink, PREVIEW_DELAY_NS};

#[test]
fn requests_carry_new_revisions() {
    let mut link = PreviewLink::new();
    assert_eq!(link.status, "Prévia nativa parada");
    assert_eq!(link.request(false, "x").unwrap_err(), "Inicie a prévia nativa.");
    assert_eq!(link.revision, 0);
    let bytes = link.request(true, "Panel\n").unwrap();
    assert_eq!(link.revision, 1);
    let value: serde_json::Value = serde_json::from_slice(&bytes).unwrap();
    assert_eq!(value["revision"].as_u64(), Some(1));
    assert_eq!(value["text"].as_str(), Some("Panel\n"));
    link.sent();
    assert_eq!(link.status, "Revisão 1 enviada; aguardando motor");
}

#[test]
fn replies_count_only_for_the_latest_revision() {
    let mut link = PreviewLink::new();
    link.request(true, "a").unwrap();
    link.request(true, "b").unwrap();
    link.started();
    link.receive(br#"{"revision":1,"message":"old"}"#);
    assert_eq!(link.status, "Cliente iniciado; aguardando integração…");
    link.receive(b"not json");
    assert_eq!(link.status, "Cliente iniciado; aguardando integração…");
    link.receive(br#"{"revision":2,"message":"pronto"}"#);
    assert_eq!(link.status, "pronto");
    link.receive(br#"{"revision":2}"#);
    assert_eq!(link.status, "Resposta recebida");
    link.exited("exit status: 0");
    assert_eq!(link.status, "Cliente encerrado: exit status: 0");
    link.stopped();
    assert_eq!(link.status, "Prévia nativa parada");
}

#[test]
fn preview_waits_for_edits_to_settle() {
    assert_eq!(PREVIEW_DELAY_NS, 400_000_000);
    assert!(!preview_due(0));
    assert!(!preview_due(400_000_000));
    assert!(preview_due(400_000_001));
}
