//! Lua snippets for widget behaviours: action templates, escaping of
//! user text into single-quoted Lua strings, and the events of a widget.

use vstd::prelude::*;

use crate::codec::{chars_of, string_of};
use crate::document::{node_value, Document, DocumentView, PropertyView};
use crate::text::{lower, lowered, same_chars, trim, trimmed};

verus! {

/// What a behaviour does when its event fires.
#[derive(Clone, Copy, Debug, PartialEq, Eq, Structural)]
pub enum ActionTemplate {
    Show,
    Hide,
    Toggle,
    Focus,
    Message,
    Custom,
}

/// The escaped form of one character inside a single-quoted Lua string on
/// one line: `\` doubled, `'` escaped, CR and LF turned into spaces.
pub open spec fn escape_char(c: char) -> Seq<char> {
    if c == '\\' {
        seq!['\\', '\\']
    } else if c == '\'' {
        seq!['\\', '\'']
    } else if c == '\r' || c == '\n' {
        seq![' ']
    } else {
        seq![c]
    }
}

/// `s` escaped character by character.
pub open spec fn escape_lua_spec(s: Seq<char>) -> Seq<char>
    decreases s.len(),
{
    if s.len() == 0 {
        Seq::empty()
    } else {
        escape_lua_spec(s.drop_last()) + escape_char(s.last())
    }
}

/// The Lua expression of an action on `target` with `argument`.
pub open spec fn expression_text(a: ActionTemplate, target: Seq<char>, argument: Seq<char>) -> Seq<char> {
    match a {
        ActionTemplate::Show => target + ":show()"@,
        ActionTemplate::Hide => target + ":hide()"@,
        ActionTemplate::Toggle => target + ":setVisible(not "@ + target + ":isVisible())"@,
        ActionTemplate::Focus => target + ":focus()"@,
        ActionTemplate::Message => "displayInfoBox('NextGen', '"@ + escape_lua_spec(argument) + "')"@,
        ActionTemplate::Custom => trim(argument),
    }
}

/// The Lua reference to the widget with the given id (`self` when empty).
pub open spec fn widget_reference_text(id: Seq<char>) -> Seq<char> {
    if id.len() == 0 {
        "self"@
    } else {
        "self:getParent():recursiveGetChildById('"@ + escape_lua_spec(id) + "')"@
    }
}

/// The `(key, value)` pairs of the properties whose key starts with `@`.
pub open spec fn event_pairs(props: Seq<PropertyView>) -> Seq<(Seq<char>, Seq<char>)>
    decreases props.len(),
{
    if props.len() == 0 {
        Seq::empty()
    } else if props.last().key.len() > 0 && props.last().key[0] == '@' {
        event_pairs(props.drop_last()).push((props.last().key, props.last().value))
    } else {
        event_pairs(props.drop_last())
    }
}

/// Appends `src` to `out`.
fn push_chars(out: &mut Vec<char>, src: &[char])
    ensures
        final(out)@ == old(out)@ + src@,
{
    let mut i: usize = 0;
    let ghost start = out@;
    while i < src.len()
        invariant
            i <= src@.len(),
            out@ == start + src@.subrange(0, i as int),
        decreases src.len() - i,
    {
        out.push(src[i]);
        i = i + 1;
        proof {
            assert(src@.subrange(0, i as int) =~= src@.subrange(0, i - 1).push(src@[i - 1]));
        }
    }
    proof {
        assert(src@.subrange(0, src@.len() as int) =~= src@);
    }
}

fn push_str(out: &mut Vec<char>, s: &str)
    ensures
        final(out)@ == old(out)@ + s@,
{
    let c = chars_of(s);
    push_chars(out, &c);
}

/// Appends the escaped form of `s` to `out`.
fn push_escaped(out: &mut Vec<char>, s: &str)
    ensures
        final(out)@ == old(out)@ + escape_lua_spec(s@),
{
    let c = chars_of(s);
    let ghost start = out@;
    let mut i: usize = 0;
    proof {
        assert(c@.subrange(0, 0) =~= Seq::<char>::empty());
        assert(start + escape_lua_spec(Seq::<char>::empty()) =~= start);
    }
    while i < c.len()
        invariant
            i <= c@.len(),
            out@ == start + escape_lua_spec(c@.subrange(0, i as int)),
        decreases c.len() - i,
    {
        let ch = c[i];
        if ch == '\\' {
            out.push('\\');
            out.push('\\');
        } else if ch == '\'' {
            out.push('\\');
            out.push('\'');
        } else if ch == '\r' || ch == '\n' {
            out.push(' ');
        } else {
            out.push(ch);
        }
        proof {
            let s1 = c@.subrange(0, i + 1);
            assert(s1.drop_last() =~= c@.subrange(0, i as int));
            assert(s1.last() == ch);
            assert(out@ =~= start + escape_lua_spec(s1));
        }
        i = i + 1;
    }
    proof {
        assert(c@.subrange(0, c@.len() as int) =~= c@);
    }
}

impl ActionTemplate {
    /// Every action, in menu order.
    pub const ALL: [ActionTemplate; 6] = [
        ActionTemplate::Show,
        ActionTemplate::Hide,
        ActionTemplate::Toggle,
        ActionTemplate::Focus,
        ActionTemplate::Message,
        ActionTemplate::Custom,
    ];

    /// The action's name in the editor.
    pub fn label(self) -> (r: &'static str)
        ensures
            r@ == match self {
                ActionTemplate::Show => "Mostrar widget"@,
                ActionTemplate::Hide => "Ocultar widget"@,
                ActionTemplate::Toggle => "Alternar visibilidade"@,
                ActionTemplate::Focus => "Focar widget"@,
                ActionTemplate::Message => "Exibir mensagem"@,
                ActionTemplate::Custom => "Expressão Lua"@,
            },
    {
        match self {
            ActionTemplate::Show => "Mostrar widget",
            ActionTemplate::Hide => "Ocultar widget",
            ActionTemplate::Toggle => "Alternar visibilidade",
            ActionTemplate::Focus => "Focar widget",
            ActionTemplate::Message => "Exibir mensagem",
            ActionTemplate::Custom => "Expressão Lua",
        }
    }

    /// The Lua expression of the action on `target` with `argument`.
    pub fn expression(self, target: &str, argument: &str) -> (r: String)
        ensures
            r@ == expression_text(self, target@, argument@),
    {
        let mut out: Vec<char> = Vec::new();
        match self {
            ActionTemplate::Show => {
                push_str(&mut out, target);
                push_str(&mut out, ":show()");
            },
            ActionTemplate::Hide => {
                push_str(&mut out, target);
                push_str(&mut out, ":hide()");
            },
            ActionTemplate::Toggle => {
                push_str(&mut out, target);
                push_str(&mut out, ":setVisible(not ");
                push_str(&mut out, target);
                push_str(&mut out, ":isVisible())");
            },
            ActionTemplate::Focus => {
                push_str(&mut out, target);
                push_str(&mut out, ":focus()");
            },
            ActionTemplate::Message => {
                push_str(&mut out, "displayInfoBox('NextGen', '");
                push_escaped(&mut out, argument);
                push_str(&mut out, "')");
            },
            ActionTemplate::Custom => {
                let c = chars_of(argument);
                out = trimmed(&c);
            },
        }
        proof {
            assert(out@ =~= expression_text(self, target@, argument@));
        }
        string_of(&out)
    }
}

/// The `(key, value)` of each `@event` property of node `node`, in order
/// (none if the node does not exist).
/// The views of a list of text pairs.
pub open spec fn pair_views(s: Seq<(String, String)>) -> Seq<(Seq<char>, Seq<char>)> {
    s.map_values(|p: (String, String)| (p.0@, p.1@))
}

/// The `(event, expression)` pairs of node `node` (none if it does not exist).
pub fn events(document: &Document, node: usize) -> (r: Vec<(String, String)>)
    ensures
        pair_views(r@) == if node < document@.nodes.len() {
            event_pairs(document@.nodes[node as int].properties)
        } else {
            Seq::empty()
        },
{
    let mut out: Vec<(String, String)> = Vec::new();
    match document.node(node) {
        None => {
            proof {
                assert(out@.map_values(|p: (String, String)| (p.0@, p.1@)) =~= Seq::<(Seq<char>, Seq<char>)>::empty());
            }
            out
        },
        Some(widget) => {
            let ghost pv = widget@.properties;
            let mut i: usize = 0;
            proof {
                assert(pv.subrange(0, 0) =~= Seq::<PropertyView>::empty());
                assert(out@.map_values(|p: (String, String)| (p.0@, p.1@)) =~= Seq::<(Seq<char>, Seq<char>)>::empty());
            }
            while i < widget.properties.len()
                invariant
                    pv == widget@.properties,
                    pv.len() == widget.properties@.len(),
                    i <= pv.len(),
                    out@.map_values(|p: (String, String)| (p.0@, p.1@)) == event_pairs(pv.subrange(0, i as int)),
                decreases widget.properties.len() - i,
            {
                let p = &widget.properties[i];
                assert(p@ == pv[i as int]);
                let key = chars_of(p.key.as_str());
                let ghost before = out@;
                if key.len() > 0 && key[0] == '@' {
                    out.push((p.key.clone(), p.value.clone()));
                }
                proof {
                    let s1 = pv.subrange(0, i + 1);
                    assert(s1.drop_last() =~= pv.subrange(0, i as int));
                    assert(s1.last() == pv[i as int]);
                    assert(out@.map_values(|p: (String, String)| (p.0@, p.1@)) =~= event_pairs(s1));
                }
                i = i + 1;
            }
            proof {
                assert(pv.subrange(0, pv.len() as int) =~= pv);
            }
            out
        },
    }
}

/// The Lua reference to the widget with id `id`, from a handler of its
/// sibling (`self` when the id is empty).
pub fn widget_reference(id: &str) -> (r: String)
    ensures
        r@ == widget_reference_text(id@),
{
    let mut out: Vec<char> = Vec::new();
    let c = chars_of(id);
    if c.len() == 0 {
        push_str(&mut out, "self");
    } else {
        push_str(&mut out, "self:getParent():recursiveGetChildById('");
        push_escaped(&mut out, id);
        push_str(&mut out, "')");
    }
    proof {
        assert(out@ =~= widget_reference_text(id@));
    }
    string_of(&out)
}

/// The expression of the first event named `@onClick` (in any ASCII case).
pub open spec fn first_click(pairs: Seq<(Seq<char>, Seq<char>)>) -> Option<Seq<char>>
    decreases pairs.len(),
{
    if pairs.len() == 0 {
        None
    } else if lower(pairs[0].0) == "@onclick"@ {
        Some(pairs[0].1)
    } else {
        first_click(pairs.drop_first())
    }
}

/// The line the interactive preview logs for a click on node `n`: who was
/// clicked (its id, or `widget`) and the expression of its `@onClick`.
pub open spec fn click_text(v: DocumentView, n: int) -> Seq<char> {
    let id = node_value(v, n, "id"@);
    let who = if id.len() == 0 {
        "widget"@
    } else {
        id
    };
    let pairs = if 0 <= n < v.nodes.len() {
        event_pairs(v.nodes[n].properties)
    } else {
        Seq::empty()
    };
    match first_click(pairs) {
        Some(e) => "Clique em "@ + who + " → "@ + e,
        None => "Clique em "@ + who + " → nenhum @onClick"@,
    }
}

/// The position of the first pair whose key is `@onClick` in any ASCII case.
fn find_click(pairs: &Vec<(String, String)>) -> (r: Option<usize>)
    ensures
        match r {
            Some(k) => k < pairs@.len() && first_click(pair_views(pairs@)) == Some(pairs@[k as int].1@),
            None => first_click(pair_views(pairs@)) is None,
        },
{
    let ghost pv = pair_views(pairs@);
    let click = chars_of("@onclick");
    let mut i: usize = 0;
    proof {
        assert(pv.subrange(0, pv.len() as int) =~= pv);
    }
    while i < pairs.len()
        invariant
            pv == pair_views(pairs@),
            i <= pairs@.len(),
            click@ == "@onclick"@,
            first_click(pv.subrange(i as int, pv.len() as int)) == first_click(pv),
        decreases pairs.len() - i,
    {
        let ghost rest = pv.subrange(i as int, pv.len() as int);
        proof {
            assert(rest.drop_first() =~= pv.subrange(i + 1, pv.len() as int));
            assert(rest[0] == pv[i as int]);
            assert(pv[i as int] == (pairs@[i as int].0@, pairs@[i as int].1@));
        }
        let key = chars_of(pairs[i].0.as_str());
        let low = lowered(key.as_slice());
        if same_chars(low.as_slice(), click.as_slice()) {
            proof {
                assert(first_click(rest) == Some(rest[0].1));
            }
            return Some(i);
        }
        i = i + 1;
    }
    proof {
        assert(pv.subrange(i as int, pv.len() as int) =~= Seq::<(Seq<char>, Seq<char>)>::empty());
    }
    None
}

/// The line logged for a click on node `node` (see [`click_text`]).
pub fn click_message(document: &Document, node: usize) -> (r: String)
    ensures
        r@ == click_text(document@, node as int),
{
    let pairs = events(document, node);
    let found = find_click(&pairs);
    let id = document.value(node, "id");
    let mut out = chars_of("Clique em ");
    if id.is_empty() {
        push_str(&mut out, "widget");
    } else {
        push_str(&mut out, id);
    }
    match found {
        Some(k) => {
            push_str(&mut out, " → ");
            push_str(&mut out, pairs[k].1.as_str());
        },
        None => {
            push_str(&mut out, " → nenhum @onClick");
        },
    }
    string_of(&out)
}

/// Whether a Lua lexer reads all of `s` as the body of a single-quoted
/// string: a backslash takes the next character with it, while an unescaped
/// quote would end the literal early and a line break would break it.
pub open spec fn lua_body_ok(s: Seq<char>) -> bool
    decreases s.len(),
{
    if s.len() == 0 {
        true
    } else if s[0] == '\\' {
        s.len() >= 2 && s[1] != '\n' && s[1] != '\r' && lua_body_ok(s.subrange(2, s.len() as int))
    } else if s[0] == '\'' || s[0] == '\n' || s[0] == '\r' {
        false
    } else {
        lua_body_ok(s.drop_first())
    }
}

/// The text such a body denotes, for the escapes `\\` and `\'` that the
/// escaping writes: a backslash stands for the character after it.
pub open spec fn lua_denoted(s: Seq<char>) -> Seq<char>
    decreases s.len(),
{
    if s.len() == 0 {
        Seq::empty()
    } else if s[0] == '\\' && s.len() >= 2 {
        seq![s[1]] + lua_denoted(s.subrange(2, s.len() as int))
    } else {
        seq![s[0]] + lua_denoted(s.drop_first())
    }
}

/// `s` with each line break turned into a space.
pub open spec fn one_line(s: Seq<char>) -> Seq<char> {
    s.map_values(|c: char| if c == '\r' || c == '\n' { ' ' } else { c })
}

proof fn lemma_lua_concat(a: Seq<char>, b: Seq<char>)
    requires
        lua_body_ok(a),
    ensures
        lua_body_ok(a + b) == lua_body_ok(b),
        lua_denoted(a + b) == lua_denoted(a) + lua_denoted(b),
    decreases a.len(),
{
    if a.len() == 0 {
        assert(a + b =~= b);
    } else if a[0] == '\\' {
        let rest = a.subrange(2, a.len() as int);
        lemma_lua_concat(rest, b);
        assert((a + b).subrange(2, (a + b).len() as int) =~= rest + b);
        assert(seq![a[1]] + lua_denoted(rest) + lua_denoted(b) =~= seq![a[1]] + (lua_denoted(rest) + lua_denoted(b)));
    } else {
        let rest = a.drop_first();
        lemma_lua_concat(rest, b);
        assert((a + b).drop_first() =~= rest + b);
        assert(seq![a[0]] + lua_denoted(rest) + lua_denoted(b) =~= seq![a[0]] + (lua_denoted(rest) + lua_denoted(b)));
    }
}

proof fn lemma_escape_char(c: char)
    ensures
        lua_body_ok(escape_char(c)),
        lua_denoted(escape_char(c)) == seq![if c == '\r' || c == '\n' { ' ' } else { c }],
{
    let e = escape_char(c);
    let empty = Seq::<char>::empty();
    assert(lua_body_ok(empty));
    assert(lua_denoted(empty) == empty);
    if c == '\\' || c == '\'' {
        assert(e.len() == 2 && e[0] == '\\' && e[1] == c);
        assert(e.subrange(2, e.len() as int) =~= empty);
        assert(lua_body_ok(e));
        assert(lua_denoted(e) == seq![e[1]] + lua_denoted(empty));
        assert(seq![c] + empty =~= seq![c]);
    } else {
        assert(e.len() == 1);
        assert(e.drop_first() =~= empty);
        assert(lua_body_ok(e));
        assert(lua_denoted(e) == seq![e[0]] + lua_denoted(empty));
        assert(seq![e[0]] + empty =~= seq![e[0]]);
    }
}

/// Escaped text is safe inside a single-quoted Lua string on one line: a
/// Lua lexer reads all of it as the string's body, and it denotes the text
/// given, with each line break turned into a space.
pub proof fn law_escaped_lua_reads_back(s: Seq<char>)
    ensures
        lua_body_ok(escape_lua_spec(s)),
        lua_denoted(escape_lua_spec(s)) == one_line(s),
    decreases s.len(),
{
    if s.len() == 0 {
        assert(one_line(s) =~= Seq::<char>::empty());
    } else {
        let init = s.drop_last();
        law_escaped_lua_reads_back(init);
        lemma_escape_char(s.last());
        lemma_lua_concat(escape_lua_spec(init), escape_char(s.last()));
        assert(one_line(s) =~= one_line(init).push(if s.last() == '\r' || s.last() == '\n' { ' ' } else { s.last() }));
    }
}

/// What each action does to its target: Show calls `show()` on the target,
/// Hide `hide()`, Focus `focus()`, Toggle sets its visibility to the
/// opposite of what it is; a message shows the escaped text in an info box;
/// a custom expression is the argument trimmed. The four actions on a
/// target give four different expressions for every target and argument.
pub proof fn law_action_expressions(t: Seq<char>, a: Seq<char>)
    ensures
        expression_text(ActionTemplate::Show, t, a) == t + seq![':', 's', 'h', 'o', 'w', '(', ')'],
        expression_text(ActionTemplate::Hide, t, a) == t + seq![':', 'h', 'i', 'd', 'e', '(', ')'],
        expression_text(ActionTemplate::Focus, t, a) == t + seq![':', 'f', 'o', 'c', 'u', 's', '(', ')'],
        expression_text(ActionTemplate::Toggle, t, a) == t + ":setVisible(not "@ + t + ":isVisible())"@,
        expression_text(ActionTemplate::Message, t, a) == "displayInfoBox('NextGen', '"@ + escape_lua_spec(a)
            + "')"@,
        expression_text(ActionTemplate::Custom, t, a) == trim(a),
        expression_text(ActionTemplate::Show, t, a) != expression_text(ActionTemplate::Hide, t, a),
        expression_text(ActionTemplate::Show, t, a) != expression_text(ActionTemplate::Focus, t, a),
        expression_text(ActionTemplate::Show, t, a) != expression_text(ActionTemplate::Toggle, t, a),
        expression_text(ActionTemplate::Hide, t, a) != expression_text(ActionTemplate::Focus, t, a),
        expression_text(ActionTemplate::Hide, t, a) != expression_text(ActionTemplate::Toggle, t, a),
        expression_text(ActionTemplate::Focus, t, a) != expression_text(ActionTemplate::Toggle, t, a),
{
    reveal_strlit(":show()");
    reveal_strlit(":hide()");
    reveal_strlit(":focus()");
    reveal_strlit(":setVisible(not ");
    reveal_strlit(":isVisible())");
    let m = t.len() as int;
    let show = expression_text(ActionTemplate::Show, t, a);
    let hide = expression_text(ActionTemplate::Hide, t, a);
    let focus = expression_text(ActionTemplate::Focus, t, a);
    let toggle = expression_text(ActionTemplate::Toggle, t, a);
    assert(show =~= t + seq![':', 's', 'h', 'o', 'w', '(', ')']);
    assert(hide =~= t + seq![':', 'h', 'i', 'd', 'e', '(', ')']);
    assert(focus =~= t + seq![':', 'f', 'o', 'c', 'u', 's', '(', ')']);
    assert(show[m + 1] != hide[m + 1]);
    assert(show.len() != focus.len());
    assert(hide.len() != focus.len());
    assert(toggle.len() == 2 * m + 29);
    if show.len() == toggle.len() {
        assert(m == -22);
    }
    if focus.len() == toggle.len() {
        assert(m == -21);
    }
}

/// The Lua that refers to a widget by id reads back as that id: `self` for
/// the empty id, else a lookup from the parent whose quoted argument a Lua
/// lexer reads, on one line, as the id.
pub proof fn law_widget_reference(id: Seq<char>)
    ensures
        id.len() == 0 ==> widget_reference_text(id) == seq!['s', 'e', 'l', 'f'],
        id.len() > 0 ==> exists|body: Seq<char>|
            #![trigger lua_denoted(body)]
            widget_reference_text(id) == "self:getParent():recursiveGetChildById('"@ + body + "')"@ && lua_body_ok(
                body,
            ) && lua_denoted(body) == one_line(id),
{
    reveal_strlit("self");
    law_escaped_lua_reads_back(id);
    assert(lua_denoted(escape_lua_spec(id)) == one_line(id));
}

/// A message action shows its text: the quoted argument of the info box
/// reads back, on one line, as the text given.
pub proof fn law_message_reads_back(t: Seq<char>, a: Seq<char>)
    ensures
        exists|body: Seq<char>|
            #![trigger lua_denoted(body)]
            expression_text(ActionTemplate::Message, t, a) == "displayInfoBox('NextGen', '"@ + body + "')"@
                && lua_body_ok(body) && lua_denoted(body) == one_line(a),
{
    law_escaped_lua_reads_back(a);
    assert(lua_denoted(escape_lua_spec(a)) == one_line(a));
}

/// A widget's events are its properties whose key starts with `@`, with
/// their values, in order.
pub proof fn law_events(props: Seq<PropertyView>)
    ensures
        event_pairs(props) == props.filter(|p: PropertyView| p.key.len() > 0 && p.key[0] == '@').map_values(
            |p: PropertyView| (p.key, p.value),
        ),
    decreases props.len(),
{
    reveal_with_fuel(Seq::<PropertyView>::filter, 1);
    let f = |p: PropertyView| p.key.len() > 0 && p.key[0] == '@';
    let g = |p: PropertyView| (p.key, p.value);
    if props.len() > 0 {
        law_events(props.drop_last());
        let fl = props.drop_last().filter(f);
        if f(props.last()) {
            assert(props.filter(f) == fl.push(props.last()));
            assert(fl.push(props.last()).map_values(g) =~= fl.map_values(g).push(g(props.last())));
        } else {
            assert(props.filter(f) == fl);
        }
    } else {
        assert(props.filter(f) =~= Seq::<PropertyView>::empty());
        assert(event_pairs(props) =~= props.filter(f).map_values(g));
    }
}

/// The click handler is the first event named `@onClick` in any ASCII case:
/// when one is found it is the value of an event with that name that no
/// earlier event shares; when none is found, no event has that name.
pub proof fn law_first_click(pairs: Seq<(Seq<char>, Seq<char>)>)
    ensures
        first_click(pairs) matches Some(e) ==> exists|i: int|
            0 <= i < pairs.len() && lower(#[trigger] pairs[i].0) == seq!['@', 'o', 'n', 'c', 'l', 'i', 'c', 'k']
                && e == pairs[i].1 && forall|j: int|
                0 <= j < i ==> lower(#[trigger] pairs[j].0) != seq!['@', 'o', 'n', 'c', 'l', 'i', 'c', 'k'],
        first_click(pairs) is None ==> forall|i: int|
            0 <= i < pairs.len() ==> lower(#[trigger] pairs[i].0) != seq!['@', 'o', 'n', 'c', 'l', 'i', 'c', 'k'],
    decreases pairs.len(),
{
    reveal_strlit("@onclick");
    let w = seq!['@', 'o', 'n', 'c', 'l', 'i', 'c', 'k'];
    assert("@onclick"@ =~= w);
    if pairs.len() > 0 {
        let t = pairs.drop_first();
        law_first_click(t);
        if lower(pairs[0].0) != w {
            match first_click(t) {
                Some(e) => {
                    let i = choose|i: int|
                        0 <= i < t.len() && lower(#[trigger] t[i].0) == w && e == t[i].1 && forall|j: int|
                            0 <= j < i ==> lower(#[trigger] t[j].0) != w;
                    assert(pairs[i + 1] == t[i]);
                    assert forall|j: int| 0 <= j < i + 1 implies lower(#[trigger] pairs[j].0) != w by {
                        if j > 0 {
                            assert(pairs[j] == t[j - 1]);
                        }
                    }
                },
                None => {
                    assert forall|i: int| 0 <= i < pairs.len() implies lower(#[trigger] pairs[i].0) != w by {
                        if i > 0 {
                            assert(pairs[i] == t[i - 1]);
                        }
                    }
                },
            }
        }
    }
}

} // verus!
