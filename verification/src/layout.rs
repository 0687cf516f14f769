//! The rules of the design canvas that need no geometry: which nodes are
//! drawn as boxes, which follow anchors or a layout, where a property's value
//! comes from, the label shown in a box, and the edits that clear anchors.

use vstd::prelude::*;

use crate::codec::{chars_of, string_of};
use crate::document::{
    lemma_wf, node_value, nodes_ok, node_ok, Document, Edit, NodeView, PropertyView,
};
use crate::runtime::{is_style_definition, ResolvedStyle};
use crate::text::{has_prefix, same_chars, starts_with};

verus! {

/// Whether a style definition (`Name < Base`) encloses node `j`, through
/// its chain of parents (a parent always precedes its child).
pub open spec fn defined_above(nodes: Seq<NodeView>, j: int) -> bool
    decreases j,
{
    if 0 <= j < nodes.len() {
        match nodes[j].parent {
            Some(p) => if p < j {
                nodes[p as int].name.contains('<') || defined_above(nodes, p as int)
            } else {
                false
            },
            None => false,
        }
    } else {
        false
    }
}

/// Whether node `i` is drawn as a box: a widget that neither defines a style
/// nor sits inside a style definition.
pub open spec fn laid_out(nodes: Seq<NodeView>, i: int) -> bool {
    &&& 0 <= i < nodes.len()
    &&& nodes[i].widget
    &&& !nodes[i].name.contains('<')
    &&& !defined_above(nodes, i)
}

/// Whether node `i` is drawn as a box (see [`laid_out`]).
pub fn lays_out(document: &Document, i: usize) -> (r: bool)
    requires
        document@.wf(),
    ensures
        r == laid_out(document@.nodes, i as int),
{
    let ghost nodes = document@.nodes;
    let node = match document.node(i) {
        Some(n) => n,
        None => {
            return false;
        },
    };
    if !node.widget || is_style_definition(node.name.as_str()) {
        return false;
    }
    proof {
        lemma_wf(document@);
    }
    let mut j = i;
    let mut parent = node.parent;
    loop
        invariant
            nodes == document@.nodes,
            i < nodes.len(),
            nodes[i as int].widget,
            !nodes[i as int].name.contains('<'),
            nodes_ok(nodes, document@.lines, document@.lines.len()),
            j < nodes.len(),
            parent == nodes[j as int].parent,
            defined_above(nodes, j as int) == defined_above(nodes, i as int),
        decreases j,
    {
        match parent {
            None => {
                return true;
            },
            Some(p) => {
                proof {
                    assert(node_ok(nodes[j as int], j as int, document@.lines, document@.lines.len()));
                }
                match document.node(p) {
                    Some(up) => {
                        if is_style_definition(up.name.as_str()) {
                            return false;
                        }
                        parent = up.parent;
                        j = p;
                    },
                    None => {
                        return true;
                    },
                }
            },
        }
    }
}

/// Some property key starts with `anchors.`.
pub open spec fn has_anchor(props: Seq<PropertyView>) -> bool {
    exists|k: int| 0 <= k < props.len() && starts_with(#[trigger] props[k].key, "anchors."@)
}

/// Some property key is `layout`.
pub open spec fn has_layout(props: Seq<PropertyView>) -> bool {
    exists|k: int| 0 <= k < props.len() && #[trigger] props[k].key == "layout"@
}

/// Whether node `n`'s geometry follows anchors or its parent's layout, so
/// that it is not dragged on the canvas.
pub open spec fn geometry_managed(nodes: Seq<NodeView>, n: int) -> bool {
    &&& 0 <= n < nodes.len()
    &&& (has_anchor(nodes[n].properties) || (nodes[n].parent matches Some(p) && p < nodes.len()
        && has_layout(nodes[p as int].properties)))
}

fn any_anchor(props: &Vec<crate::document::Property>) -> (r: bool)
    ensures
        r == has_anchor(crate::document::prop_views(props@)),
{
    let ghost pv = crate::document::prop_views(props@);
    let prefix = chars_of("anchors.");
    let mut k: usize = 0;
    while k < props.len()
        invariant
            pv == crate::document::prop_views(props@),
            prefix@ == "anchors."@,
            k <= props@.len(),
            forall|q: int| 0 <= q < k ==> !starts_with(#[trigger] pv[q].key, "anchors."@),
        decreases props.len() - k,
    {
        let key = chars_of(props[k].key.as_str());
        if has_prefix(key.as_slice(), prefix.as_slice()) {
            proof {
                assert(pv[k as int].key == props@[k as int].key@);
            }
            return true;
        }
        proof {
            assert(pv[k as int].key == props@[k as int].key@);
        }
        k = k + 1;
    }
    false
}

fn any_layout(props: &Vec<crate::document::Property>) -> (r: bool)
    ensures
        r == has_layout(crate::document::prop_views(props@)),
{
    let ghost pv = crate::document::prop_views(props@);
    let word = chars_of("layout");
    let mut k: usize = 0;
    while k < props.len()
        invariant
            pv == crate::document::prop_views(props@),
            word@ == "layout"@,
            k <= props@.len(),
            forall|q: int| 0 <= q < k ==> #[trigger] pv[q].key != "layout"@,
        decreases props.len() - k,
    {
        let key = chars_of(props[k].key.as_str());
        proof {
            assert(pv[k as int].key == props@[k as int].key@);
        }
        if same_chars(key.as_slice(), word.as_slice()) {
            return true;
        }
        k = k + 1;
    }
    false
}

/// Whether node `n`'s geometry is managed (see [`geometry_managed`]).
pub fn managed(document: &Document, n: usize) -> (r: bool)
    ensures
        r == geometry_managed(document@.nodes, n as int),
{
    let node = match document.node(n) {
        Some(x) => x,
        None => {
            return false;
        },
    };
    if any_anchor(&node.properties) {
        return true;
    }
    match node.parent {
        Some(p) => match document.node(p) {
            Some(up) => any_layout(&up.properties),
            None => false,
        },
        None => false,
    }
}

/// The value drawn for `key` on node `n`: the node's own value when it has
/// a non-empty one, else the resolved style's.
pub open spec fn effective(v: Seq<char>, style: Map<Seq<char>, Seq<char>>, key: Seq<char>) -> Seq<char> {
    if v.len() > 0 {
        v
    } else if style.contains_key(key) {
        style[key]
    } else {
        Seq::empty()
    }
}

/// The value drawn for `key` on node `n` (see [`effective`]).
pub fn effective_value<'a>(document: &'a Document, n: usize, style: &'a ResolvedStyle, key: &str) -> (r: &'a str)
    requires
        style.properties.wf(),
    ensures
        r@ == effective(node_value(document@, n as int, key@), style.properties@, key@),
{
    let own = document.value(n, key);
    if own.is_empty() {
        style.get(key)
    } else {
        own
    }
}

/// `'` or `"`.
pub open spec fn is_quote(c: char) -> bool {
    c == '\'' || c == '"'
}

/// Number of quotes at the start of `s`.
pub open spec fn quotes_before(s: Seq<char>) -> nat
    decreases s.len(),
{
    if s.len() > 0 && is_quote(s[0]) {
        1 + quotes_before(s.drop_first())
    } else {
        0
    }
}

/// Number of quotes at the end of `s`.
pub open spec fn quotes_after(s: Seq<char>) -> nat
    decreases s.len(),
{
    if s.len() > 0 && is_quote(s.last()) {
        1 + quotes_after(s.drop_last())
    } else {
        0
    }
}

proof fn lemma_quotes(s: Seq<char>)
    ensures
        quotes_before(s) <= s.len(),
        quotes_after(s) <= s.len(),
    decreases s.len(),
{
    if s.len() > 0 {
        lemma_quotes(s.drop_first());
        lemma_quotes(s.drop_last());
    }
}

/// `s` without the quotes at either end (`trim_matches(['\'', '"'])`).
pub open spec fn unquoted(s: Seq<char>) -> Seq<char> {
    let a = quotes_before(s);
    let t = s.subrange(a as int, s.len() as int);
    t.subrange(0, t.len() - quotes_after(t))
}

/// The label drawn in node `n`'s box: the resolved `text` without quotes,
/// else the node's own `text`, else its `id`.
pub open spec fn label_text(v: crate::document::DocumentView, n: int, style: Map<Seq<char>, Seq<char>>) -> Seq<char> {
    let styled = if style.contains_key("text"@) {
        style["text"@]
    } else {
        Seq::empty()
    };
    if styled.len() > 0 {
        unquoted(styled)
    } else if node_value(v, n, "text"@).len() > 0 {
        node_value(v, n, "text"@)
    } else {
        node_value(v, n, "id"@)
    }
}

pub(crate) fn strip_quotes(s: &[char]) -> (r: Vec<char>)
    ensures
        r@ == unquoted(s@),
{
    proof {
        lemma_quotes(s@);
    }
    let mut a: usize = 0;
    proof {
        assert(s@.subrange(0, s@.len() as int) =~= s@);
    }
    while a < s.len() && (s[a] == '\'' || s[a] == '"')
        invariant
            a <= s@.len(),
            quotes_before(s@.subrange(a as int, s@.len() as int)) + a == quotes_before(s@),
        decreases s.len() - a,
    {
        proof {
            assert(s@.subrange(a as int, s@.len() as int).drop_first() =~= s@.subrange(a + 1, s@.len() as int));
        }
        a = a + 1;
    }
    let ghost t = s@.subrange(a as int, s@.len() as int);
    proof {
        lemma_quotes(t);
        assert(t.subrange(0, t.len() as int) =~= t);
    }
    let mut e = s.len();
    while e > a && (s[e - 1] == '\'' || s[e - 1] == '"')
        invariant
            a <= e <= s@.len(),
            t == s@.subrange(a as int, s@.len() as int),
            quotes_after(t.subrange(0, e - a)) + (s@.len() - e) == quotes_after(t),
        decreases e,
    {
        proof {
            assert(t.subrange(0, e - a).drop_last() =~= t.subrange(0, e - 1 - a));
        }
        e = e - 1;
    }
    let r = crate::text::copy_range(s, a, e);
    proof {
        assert(r@ =~= t.subrange(0, t.len() - quotes_after(t)));
    }
    r
}

/// The label drawn in node `n`'s box (see [`label_text`]).
pub fn display_label(document: &Document, n: usize, style: &ResolvedStyle) -> (r: String)
    requires
        style.properties.wf(),
    ensures
        r@ == label_text(document@, n as int, style.properties@),
{
    let styled = style.get("text");
    if !styled.is_empty() {
        let c = chars_of(styled);
        let u = strip_quotes(c.as_slice());
        return string_of(u.as_slice());
    }
    let text = document.value(n, "text");
    if !text.is_empty() {
        return text.to_owned();
    }
    document.value(n, "id").to_owned()
}

/// The keys of the properties that start with `anchors.`, in order.
pub open spec fn anchor_keys(props: Seq<PropertyView>) -> Seq<Seq<char>>
    decreases props.len(),
{
    if props.len() == 0 {
        Seq::empty()
    } else if starts_with(props.last().key, "anchors."@) {
        anchor_keys(props.drop_last()).push(props.last().key)
    } else {
        anchor_keys(props.drop_last())
    }
}

/// The edits that clear node `n`'s anchors: one removal per anchor
/// property, in order (none for a node that does not exist).
pub fn anchor_edits(document: &Document, n: usize) -> (r: Vec<Edit>)
    ensures
        ({
            let keys = if n < document@.nodes.len() {
                anchor_keys(document@.nodes[n as int].properties)
            } else {
                Seq::empty()
            };
            &&& r@.len() == keys.len()
            &&& forall|i: int|
                0 <= i < r@.len() ==> (#[trigger] r@[i] matches Edit::RemoveProperty { node, key } && node == n
                    && key@ == keys[i])
        }),
{
    let mut out: Vec<Edit> = Vec::new();
    let node = match document.node(n) {
        Some(x) => x,
        None => {
            return out;
        },
    };
    let ghost pv = node@.properties;
    let prefix = chars_of("anchors.");
    let mut k: usize = 0;
    proof {
        assert(pv.subrange(0, 0) =~= Seq::<PropertyView>::empty());
    }
    while k < node.properties.len()
        invariant
            pv == node@.properties,
            pv == crate::document::prop_views(node.properties@),
            prefix@ == "anchors."@,
            k <= pv.len(),
            out@.len() == anchor_keys(pv.subrange(0, k as int)).len(),
            forall|i: int|
                0 <= i < out@.len() ==> (#[trigger] out@[i] matches Edit::RemoveProperty { node: m, key } && m == n
                    && key@ == anchor_keys(pv.subrange(0, k as int))[i]),
        decreases node.properties.len() - k,
    {
        let ghost before = pv.subrange(0, k as int);
        let key = chars_of(node.properties[k].key.as_str());
        proof {
            assert(pv[k as int].key == node.properties@[k as int].key@);
            assert(pv.subrange(0, k + 1).drop_last() =~= before);
            assert(pv.subrange(0, k + 1).last() == pv[k as int]);
        }
        if has_prefix(key.as_slice(), prefix.as_slice()) {
            out.push(Edit::RemoveProperty { node: n, key: node.properties[k].key.clone() });
        }
        k = k + 1;
    }
    proof {
        assert(pv.subrange(0, pv.len() as int) =~= pv);
    }
    out
}

/// Which nodes the canvas does not drag: a node with some property key
/// starting with `anchors.` is managed, and so is a node whose parent has a
/// property `layout`, whatever the node's own properties; a node with no
/// such key whose parent has no `layout` property (or that has no parent)
/// is not managed, even with a `layout` property of its own.
pub proof fn law_managed_geometry(nodes: Seq<NodeView>, n: int)
    requires
        0 <= n < nodes.len(),
    ensures
        (exists|k: int|
            0 <= k < nodes[n].properties.len() && starts_with(
                #[trigger] nodes[n].properties[k].key,
                "anchors."@,
            )) ==> geometry_managed(nodes, n),
        (nodes[n].parent matches Some(p) && p < nodes.len() && exists|k: int|
            0 <= k < nodes[p as int].properties.len() && #[trigger] nodes[p as int].properties[k].key
                == "layout"@) ==> geometry_managed(nodes, n),
        (forall|k: int|
            0 <= k < nodes[n].properties.len() ==> !starts_with(
                #[trigger] nodes[n].properties[k].key,
                "anchors."@,
            )) && (nodes[n].parent matches Some(p) ==> p < nodes.len() && forall|k: int|
            0 <= k < nodes[p as int].properties.len() ==> #[trigger] nodes[p as int].properties[k].key
                != "layout"@) ==> !geometry_managed(nodes, n),
{
}

/// Which widgets the canvas draws as boxes: one that is no widget, or whose
/// name holds `<` (a style definition), is not drawn; a widget without `<`
/// and without a parent is drawn; a widget without `<` whose parent is
/// drawn is drawn too; and a drawn node's widget parent is drawn, so that
/// nothing inside a style definition is drawn.
pub proof fn law_laid_out(nodes: Seq<NodeView>, i: int)
    requires
        0 <= i < nodes.len(),
    ensures
        !nodes[i].widget ==> !laid_out(nodes, i),
        nodes[i].name.contains('<') ==> !laid_out(nodes, i),
        nodes[i].widget && !nodes[i].name.contains('<') && nodes[i].parent is None ==> laid_out(nodes, i),
        (nodes[i].parent matches Some(p) && p < i && laid_out(nodes, p as int) && nodes[i].widget
            && !nodes[i].name.contains('<')) ==> laid_out(nodes, i),
        (nodes[i].parent matches Some(p) && p < i && nodes[p as int].name.contains('<')) ==> !laid_out(nodes, i),
        nodes[i].parent matches Some(p) ==> (p < i && laid_out(nodes, i) && nodes[p as int].widget ==> laid_out(
            nodes,
            p as int,
        )),
{
}

/// The value drawn for a key: the node's own value when it is not empty,
/// else the resolved style's value for the key, else nothing.
pub proof fn law_effective(own: Seq<char>, style: Map<Seq<char>, Seq<char>>, key: Seq<char>)
    ensures
        own.len() > 0 ==> effective(own, style, key) == own,
        own.len() == 0 && style.contains_key(key) ==> effective(own, style, key) == style[key],
        own.len() == 0 && !style.contains_key(key) ==> effective(own, style, key).len() == 0,
{
}

/// Stripping quotes removes exactly the quotes at both ends: what is left
/// neither starts nor ends with a quote, and the text is quotes, then what
/// is left, then quotes.
pub proof fn law_unquoted(s: Seq<char>)
    ensures
        unquoted(s).len() > 0 ==> !is_quote(unquoted(s)[0]) && !is_quote(unquoted(s).last()),
        exists|a: nat, b: nat|
            #![trigger s.subrange(a as int, s.len() - b)]
            a + unquoted(s).len() + b == s.len() && (forall|j: int| 0 <= j < a ==> #[trigger] is_quote(s[j]))
                && (forall|j: int| s.len() - b <= j < s.len() ==> #[trigger] is_quote(s[j]))
                && s.subrange(a as int, s.len() - b) == unquoted(s),
        s.len() > 0 && s[0] != '\'' && s[0] != '"' && s.last() != '\'' && s.last() != '"' ==> unquoted(s) == s,
{
    lemma_quotes_exact(s);
    let a = quotes_before(s);
    let t = s.subrange(a as int, s.len() as int);
    lemma_quotes_exact(t);
    let b = quotes_after(t);
    assert forall|j: int| s.len() - b <= j < s.len() implies #[trigger] is_quote(s[j]) by {
        assert(s[j] == t[j - a]);
    }
    assert(s.subrange(a as int, s.len() - b) =~= unquoted(s));
    if unquoted(s).len() > 0 {
        assert(unquoted(s)[0] == t[0]);
        assert(unquoted(s).last() == t[t.len() - b - 1]);
    }
    if s.len() > 0 && s[0] != '\'' && s[0] != '"' && s.last() != '\'' && s.last() != '"' {
        assert(t =~= s);
        assert(unquoted(s) =~= s);
    }
}

proof fn lemma_quotes_exact(s: Seq<char>)
    ensures
        quotes_before(s) <= s.len(),
        quotes_after(s) <= s.len(),
        forall|j: int| 0 <= j < quotes_before(s) ==> #[trigger] is_quote(s[j]),
        quotes_before(s) < s.len() ==> !is_quote(s[quotes_before(s) as int]),
        forall|j: int| s.len() - quotes_after(s) <= j < s.len() ==> #[trigger] is_quote(s[j]),
        quotes_after(s) < s.len() ==> !is_quote(s[s.len() - quotes_after(s) - 1]),
    decreases s.len(),
{
    if s.len() > 0 {
        lemma_quotes_exact(s.drop_first());
        lemma_quotes_exact(s.drop_last());
        assert forall|j: int| 0 <= j < quotes_before(s) implies #[trigger] is_quote(s[j]) by {
            if j > 0 {
                assert(s[j] == s.drop_first()[j - 1]);
            }
        }
        if quotes_before(s) > 0 && quotes_before(s) < s.len() {
            assert(s[quotes_before(s) as int] == s.drop_first()[quotes_before(s) - 1]);
        }
        assert forall|j: int| s.len() - quotes_after(s) <= j < s.len() implies #[trigger] is_quote(s[j]) by {
            if j < s.len() - 1 {
                assert(s[j] == s.drop_last()[j]);
            }
        }
        if quotes_after(s) > 0 && quotes_after(s) < s.len() {
            assert(s[s.len() - quotes_after(s) - 1] == s.drop_last()[s.len() - quotes_after(s) - 1]);
        }
    }
}

/// The label drawn in a box: the resolved `text` with its quotes stripped
/// when that is not empty, else the node's own `text` when not empty, else
/// its `id`.
pub proof fn law_label(v: crate::document::DocumentView, n: int, style: Map<Seq<char>, Seq<char>>)
    ensures
        style.contains_key("text"@) && style["text"@].len() > 0 ==> label_text(v, n, style) == unquoted(
            style["text"@],
        ),
        (!style.contains_key("text"@) || style["text"@].len() == 0) && node_value(v, n, "text"@).len() > 0
            ==> label_text(v, n, style) == node_value(v, n, "text"@),
        (!style.contains_key("text"@) || style["text"@].len() == 0) && node_value(v, n, "text"@).len() == 0
            ==> label_text(v, n, style) == node_value(v, n, "id"@),
{
}

/// Clearing anchors removes exactly the properties whose keys start with
/// `anchors.`, in their order.
pub proof fn law_anchor_keys(props: Seq<PropertyView>)
    ensures
        anchor_keys(props) == props.filter(|p: PropertyView| starts_with(p.key, "anchors."@)).map_values(
            |p: PropertyView| p.key,
        ),
    decreases props.len(),
{
    if props.len() > 0 {
        law_anchor_keys(props.drop_last());
        let f = |p: PropertyView| starts_with(p.key, "anchors."@);
        let g = |p: PropertyView| p.key;
        let fl = props.drop_last().filter(f);
        reveal_with_fuel(Seq::<PropertyView>::filter, 1);
        if f(props.last()) {
            assert(props.filter(f) == fl.push(props.last()));
            assert(fl.push(props.last()).map_values(g) =~= fl.map_values(g).push(props.last().key));
        } else {
            assert(props.filter(f) == fl);
        }
    } else {
        reveal_with_fuel(Seq::<PropertyView>::filter, 1);
        assert(props.filter(|p: PropertyView| starts_with(p.key, "anchors."@)) =~= Seq::<PropertyView>::empty());
        assert(anchor_keys(props) =~= props.filter(|p: PropertyView| starts_with(p.key, "anchors."@)).map_values(
            |p: PropertyView| p.key,
        ));
    }
}

} // verus!
