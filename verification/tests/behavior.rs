use nextgen_studio::behavior::{events, widget_reference, ActionTemplate};
use nextgen_studio::document::Document;

#[test]
fn generates_safe_single_line_lua() {
    let value = ActionTemplate::Message.expression("self", "can't\nstop");
    assert_eq!(value, "displayInfoBox('NextGen', 'can\\'t stop')");
}

#[test]
fn clicks_report_the_handler() {
    let d = Document::parse(
        b"Panel\n  Button\n    id: ok\n    @onclick: go()\n  Label\n",
        true,
    )
    .unwrap();
    assert_eq!(nextgen_studio::behavior::click_message(&d, 1), "Clique em ok → go()");
    assert_eq!(
        nextgen_studio::behavior::click_message(&d, 2),
        "Clique em widget → nenhum @onClick"
    );
    let ev = events(&d, 1);
    assert_eq!(ev, vec![("@onclick".to_string(), "go()".to_string())]);
    assert_eq!(widget_reference(""), "self");
    assert_eq!(widget_reference("a'b"), "self:getParent():recursiveGetChildById('a\\'b')");
}

#[test]
fn action_templates_write_lua() {
    assert_eq!(ActionTemplate::Toggle.expression("t", ""), "t:setVisible(not t:isVisible())");
    assert_eq!(ActionTemplate::Custom.expression("t", "  x()  "), "x()");
    assert_eq!(ActionTemplate::Message.expression("t", "a\\b\r\n"), "displayInfoBox('NextGen', 'a\\\\b  ')");
}
