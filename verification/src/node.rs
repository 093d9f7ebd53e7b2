//! The tree node model: an immutable-by-convention representation of an
//! element or text leaf, its mathematical view, and serialization to markup
//! text.

use vstd::prelude::*;
use vstd::string::StringExecFns;

verus! {

broadcast use vstd::std_specs::vec::group_vec_axioms, vstd::seq::axiom_seq_index_decreases;

/// Mathematical model of a tree node: an element with a tag, an ordered
/// attribute list (unique keys), an ordered event list (unique keys, each
/// event naming an opaque handler resource), and an ordered child sequence;
/// or a text leaf.
#[verifier::ext_equal]
pub enum GNode {
    Element {
        tag: Seq<char>,
        attrs: Seq<(Seq<char>, Seq<char>)>,
        events: Seq<(Seq<char>, u64)>,
        children: Seq<GNode>,
    },
    Text { text: Seq<char> },
}

/// Does the association list hold the key?
pub open spec fn assoc_has<V>(m: Seq<(Seq<char>, V)>, k: Seq<char>) -> bool {
    exists|i: int| 0 <= i < m.len() && m[i].0 == k
}

/// Value of the first entry with the given key.
pub open spec fn assoc_get<V>(m: Seq<(Seq<char>, V)>, k: Seq<char>) -> V
    decreases m,
{
    if m.len() == 0 {
        arbitrary()
    } else if m[0].0 == k {
        m[0].1
    } else {
        assoc_get(m.drop_first(), k)
    }
}

/// No two entries share a key.
pub open spec fn keys_unique<V>(m: Seq<(Seq<char>, V)>) -> bool {
    forall|i: int, j: int| 0 <= i < j < m.len() ==> m[i].0 != m[j].0
}

/// On a unique-keyed list, `assoc_get` agrees with every entry.
pub proof fn lemma_assoc_get_entry<V>(m: Seq<(Seq<char>, V)>, i: int)
    requires
        keys_unique(m),
        0 <= i < m.len(),
    ensures
        assoc_has(m, m[i].0),
        assoc_get(m, m[i].0) == m[i].1,
    decreases m,
{
    if i > 0 {
        assert(m[0].0 != m[i].0);
        assert(m.drop_first()[i - 1] == m[i]);
        assert(keys_unique(m.drop_first())) by {
            assert(forall|p: int, q: int|
                0 <= p < q < m.drop_first().len() ==> m.drop_first()[p] == m[p + 1]
                    && m.drop_first()[q] == m[q + 1]);
        }
        lemma_assoc_get_entry(m.drop_first(), i - 1);
    }
}

/// The fixed void-element tag set: elements that never carry children and
/// whose rendering omits the closing marker.
pub open spec fn is_void_tag(t: Seq<char>) -> bool {
    ||| t == "area"@
    ||| t == "base"@
    ||| t == "br"@
    ||| t == "col"@
    ||| t == "hr"@
    ||| t == "img"@
    ||| t == "input"@
    ||| t == "link"@
    ||| t == "meta"@
    ||| t == "param"@
    ||| t == "command"@
    ||| t == "keygen"@
    ||| t == "source"@
}

/// Well-formedness of a node model: attribute and event lists never hold
/// duplicate keys, recursively.
pub open spec fn gnode_wf(n: GNode) -> bool
    decreases n,
{
    match n {
        GNode::Element { attrs, events, children, .. } => keys_unique(attrs) && keys_unique(
            events,
        ) && gnodes_wf(children),
        GNode::Text { .. } => true,
    }
}

pub open spec fn gnodes_wf(s: Seq<GNode>) -> bool
    decreases s,
{
    if s.len() == 0 {
        true
    } else {
        gnode_wf(s[0]) && gnodes_wf(s.drop_first())
    }
}

/// Number of structural index slots a subtree occupies: one for the node
/// itself, then one for every descendant, depth first.
pub open spec fn gnode_size(n: GNode) -> nat
    decreases n,
{
    match n {
        GNode::Element { children, .. } => 1 + gnodes_size(children),
        GNode::Text { .. } => 1,
    }
}

pub open spec fn gnodes_size(s: Seq<GNode>) -> nat
    decreases s,
{
    if s.len() == 0 {
        0
    } else {
        gnode_size(s[0]) + gnodes_size(s.drop_first())
    }
}

/// Node equality as the diff engine sees it: tag, attribute list and children
/// must agree; event lists always compare equal (handler identity is not
/// semantically comparable).
pub open spec fn gnode_eq(a: GNode, b: GNode) -> bool
    decreases a,
{
    match (a, b) {
        (GNode::Text { text: ta }, GNode::Text { text: tb }) => ta == tb,
        (
            GNode::Element { tag: taga, attrs: attrsa, children: ca, .. },
            GNode::Element { tag: tagb, attrs: attrsb, children: cb, .. },
        ) => taga == tagb && attrsa == attrsb && gnodes_eq(ca, cb),
        _ => false,
    }
}

pub open spec fn gnodes_eq(a: Seq<GNode>, b: Seq<GNode>) -> bool
    decreases a,
{
    if a.len() != b.len() {
        false
    } else if a.len() == 0 {
        true
    } else {
        gnode_eq(a[0], b[0]) && gnodes_eq(a.drop_first(), b.drop_first())
    }
}

/// View of an ordered attribute list.
pub open spec fn props_view(v: Seq<(String, String)>) -> Seq<(Seq<char>, Seq<char>)> {
    Seq::new(v.len(), |i: int| (v[i].0@, v[i].1@))
}

/// View of an ordered event list.
pub open spec fn events_view(v: Seq<(String, u64)>) -> Seq<(Seq<char>, u64)> {
    Seq::new(v.len(), |i: int| (v[i].0@, v[i].1))
}

/// A node of the virtual tree: an element or a text leaf.
#[derive(Debug, PartialEq)]
pub enum VirtualNode {
    /// An element node.
    Element(VirtualNodeElement),
    /// A text node.
    Text(VirtualNodeText),
}

/// An element node: tag, attributes, events and an ordered child list (always
/// present, possibly empty).
#[derive(Debug, PartialEq)]
pub struct VirtualNodeElement {
    /// The tag, such as "div".
    pub tag: String,
    /// Attributes such as id, class, style; insertion order, unique keys.
    pub props: Vec<(String, String)>,
    /// Events to install on the live element, each naming an opaque handler
    /// resource by number; insertion order, unique keys.
    pub events: Events,
    /// The children of this element.
    pub children: Vec<VirtualNode>,
}

/// A text leaf.
#[derive(Debug, PartialEq)]
pub struct VirtualNodeText {
    pub text: String,
}

/// The event map of an element: event name to an opaque handler resource
/// identifier. Two event maps always compare equal — handler identity is not
/// semantically comparable, so the diff engine never emits a patch for a
/// handler-only change.
#[derive(Debug)]
pub struct Events(pub Vec<(String, u64)>);

impl PartialEq for Events {
    fn eq(&self, _rhs: &Self) -> (r: bool) {
        true
    }
}

impl vstd::std_specs::cmp::PartialEqSpecImpl for Events {
    open spec fn obeys_eq_spec() -> bool {
        true
    }

    open spec fn eq_spec(&self, _rhs: &Self) -> bool {
        true
    }
}

impl VirtualNode {
    pub open spec fn view_children(children: Seq<VirtualNode>) -> Seq<GNode>
        decreases children,
    {
        if children.len() == 0 {
            Seq::empty()
        } else {
            seq![children[0]@] + Self::view_children(children.drop_first())
        }
    }
}

impl View for VirtualNode {
    type V = GNode;

    open spec fn view(&self) -> GNode
        decreases self,
    {
        match self {
            VirtualNode::Element(e) => GNode::Element {
                tag: e.tag@,
                attrs: props_view(e.props@),
                events: events_view(e.events.0@),
                children: Self::view_children(e.children@),
            },
            VirtualNode::Text(t) => GNode::Text { text: t.text@ },
        }
    }
}

impl View for VirtualNodeElement {
    type V = GNode;

    open spec fn view(&self) -> GNode {
        GNode::Element {
            tag: self.tag@,
            attrs: props_view(self.props@),
            events: events_view(self.events.0@),
            children: VirtualNode::view_children(self.children@),
        }
    }
}

impl View for VirtualNodeText {
    type V = Seq<char>;

    open spec fn view(&self) -> Seq<char> {
        self.text@
    }
}

/// The child views are the views of the children, position by position.
pub proof fn lemma_view_children(children: Seq<VirtualNode>)
    ensures
        VirtualNode::view_children(children).len() == children.len(),
        forall|i: int|
            0 <= i < children.len() ==> VirtualNode::view_children(children)[i] == children[i]@,
    decreases children,
{
    if children.len() > 0 {
        lemma_view_children(children.drop_first());
        assert(VirtualNode::view_children(children) == seq![children[0]@]
            + VirtualNode::view_children(children.drop_first()));
        assert forall|i: int|
            0 <= i < children.len() implies VirtualNode::view_children(children)[i]
            == children[i]@ by {
            if i > 0 {
                assert(children.drop_first()[i - 1] == children[i]);
                assert(VirtualNode::view_children(children)[i] == VirtualNode::view_children(
                    children.drop_first(),
                )[i - 1]);
            }
        }
    }
}

impl VirtualNode {
    /// Create a new element node with the given tag, no attributes, no events
    /// and an empty child list.
    pub fn new(tag: &str) -> (r: VirtualNode)
        ensures
            r@ == (GNode::Element {
                tag: tag@,
                attrs: Seq::<(Seq<char>, Seq<char>)>::empty(),
                events: Seq::<(Seq<char>, u64)>::empty(),
                children: Seq::<GNode>::empty(),
            }),
    {
        let props: Vec<(String, String)> = Vec::new();
        let custom_events = Events(Vec::new());
        let r = VirtualNode::Element(VirtualNodeElement {
            tag: tag.to_owned(),
            props,
            events: custom_events,
            children: Vec::new(),
        });
        proof {
            assert(props_view(Seq::<(String, String)>::empty())
                =~= Seq::<(Seq<char>, Seq<char>)>::empty());
            assert(events_view(Seq::<(String, u64)>::empty())
                =~= Seq::<(Seq<char>, u64)>::empty());
        }
        r
    }

    /// Create a text node from a string.
    pub fn text(text: &str) -> (r: VirtualNode)
        ensures
            r@ == (GNode::Text { text: text@ }),
    {
        VirtualNode::Text(VirtualNodeText { text: text.to_owned() })
    }

    /// Whether this node is a text leaf.
    pub fn is_text_node(&self) -> (r: bool)
        ensures
            r == (self@ is Text),
    {
        match self {
            VirtualNode::Text(_) => true,
            _ => false,
        }
    }
}

impl VirtualNodeElement {
    /// Whether this element's tag belongs to the void-element set, such as
    /// `<br>` or `<img>`; such an element renders without a closing marker.
    pub fn is_self_closing(&self) -> (r: bool)
        ensures
            r == is_void_tag(self.tag@),
    {
        is_void(self.tag.as_str())
    }
}

/// Membership in the fixed void-element tag set.
pub fn is_void(t: &str) -> (r: bool)
    ensures
        r == is_void_tag(t@),
{
    str_eq(t, "area") || str_eq(t, "base") || str_eq(t, "br") || str_eq(t, "col") || str_eq(
        t,
        "hr",
    ) || str_eq(t, "img") || str_eq(t, "input") || str_eq(t, "link") || str_eq(t, "meta")
        || str_eq(t, "param") || str_eq(t, "command") || str_eq(t, "keygen") || str_eq(t, "source")
}

/// Markup text of a node: depth first, attributes in list order as
/// `name="value"` pairs, children concatenated in order, no closing marker
/// for a void tag. No escaping is performed.
pub open spec fn render(n: GNode) -> Seq<char>
    decreases n,
{
    match n {
        GNode::Text { text } => text,
        GNode::Element { tag, attrs, children, .. } => "<"@ + tag + render_attrs(attrs) + ">"@
            + render_children(children) + if is_void_tag(tag) {
            Seq::<char>::empty()
        } else {
            "</"@ + tag + ">"@
        },
    }
}

pub open spec fn render_attrs(attrs: Seq<(Seq<char>, Seq<char>)>) -> Seq<char>
    decreases attrs,
{
    if attrs.len() == 0 {
        Seq::empty()
    } else {
        " "@ + attrs[0].0 + "=\""@ + attrs[0].1 + "\""@ + render_attrs(attrs.drop_first())
    }
}

pub open spec fn render_children(children: Seq<GNode>) -> Seq<char>
    decreases children,
{
    if children.len() == 0 {
        Seq::empty()
    } else {
        render(children[0]) + render_children(children.drop_first())
    }
}

impl VirtualNode {
    /// Render this node and all of its children, recursively, as markup text.
    pub fn to_string(&self) -> (r: String)
        ensures
            r@ == render(self@),
        decreases self,
    {
        match self {
            VirtualNode::Element(e) => {
                proof {
                    assert(*self == VirtualNode::Element(*e));
                }
                e.to_string()
            },
            VirtualNode::Text(t) => t.text.clone(),
        }
    }
}

impl VirtualNodeText {
    /// The markup text of a text leaf is its payload, unescaped.
    pub fn to_string(&self) -> (r: String)
        ensures
            r@ == self@,
    {
        self.text.clone()
    }
}

impl VirtualNodeElement {
    /// Render this element and all of its children, recursively, as markup
    /// text.
    #[verifier::loop_isolation(false)]
    pub fn to_string(&self) -> (r: String)
        ensures
            r@ == render(self@),
        decreases self,
    {
        let ghost attrs = props_view(self.props@);
        let ghost kids = VirtualNode::view_children(self.children@);
        let mut out: String = String::from_str("<");
        out.append(self.tag.as_str());
        let mut i: usize = 0;
        while i < self.props.len()
            invariant
                i <= self.props.len(),
                out@ == "<"@ + self.tag@ + render_attrs(attrs.take(i as int)),
            decreases self.props.len() - i,
        {
            proof {
                lemma_render_attrs_take(attrs, i as int);
            }
            out.append(" ");
            out.append(self.props[i].0.as_str());
            out.append("=\"");
            out.append(self.props[i].1.as_str());
            out.append("\"");
            i = i + 1;
        }
        proof {
            assert(attrs.take(self.props.len() as int) =~= attrs);
        }
        out.append(">");
        let mut i: usize = 0;
        while i < self.children.len()
            invariant
                i <= self.children.len(),
                out@ == "<"@ + self.tag@ + render_attrs(attrs) + ">"@ + render_children(
                    kids.take(i as int),
                ),
            decreases self.children.len() - i,
        {
            proof {
                vstd::std_specs::vec::axiom_vec_index_decreases(self.children, i as int);
                lemma_view_children(self.children@);
                lemma_render_children_take(kids, i as int);
            }
            let child_text = self.children[i].to_string();
            out.append(child_text.as_str());
            i = i + 1;
        }
        proof {
            lemma_view_children(self.children@);
            assert(kids.take(self.children.len() as int) =~= kids);
        }
        if !self.is_self_closing() {
            out.append("</");
            out.append(self.tag.as_str());
            out.append(">");
        }
        out
    }
}

/// Rendering one more attribute appends its `name="value"` pair.
pub proof fn lemma_render_attrs_take(attrs: Seq<(Seq<char>, Seq<char>)>, i: int)
    requires
        0 <= i < attrs.len(),
    ensures
        render_attrs(attrs.take(i + 1)) == render_attrs(attrs.take(i)) + " "@ + attrs[i].0 + "=\""@
            + attrs[i].1 + "\""@,
    decreases i,
{
    if i == 0 {
        assert(attrs.take(1) =~= seq![attrs[0]]);
        assert(attrs.take(1).drop_first() =~= Seq::<(Seq<char>, Seq<char>)>::empty());
        assert(attrs.take(0) =~= Seq::<(Seq<char>, Seq<char>)>::empty());
        assert(render_attrs(attrs.take(1)) =~= " "@ + attrs[0].0 + "=\""@ + attrs[0].1 + "\""@);
        assert(render_attrs(attrs.take(0)) + " "@ + attrs[0].0 + "=\""@ + attrs[0].1 + "\""@
            =~= " "@ + attrs[0].0 + "=\""@ + attrs[0].1 + "\""@);
    } else {
        lemma_render_attrs_take(attrs.drop_first(), i - 1);
        assert(attrs.take(i + 1).drop_first() =~= attrs.drop_first().take(i));
        assert(attrs.take(i).drop_first() =~= attrs.drop_first().take(i - 1));
        assert(attrs.drop_first()[i - 1] == attrs[i]);
        assert(render_attrs(attrs.take(i + 1)) == " "@ + attrs[0].0 + "=\""@ + attrs[0].1 + "\""@
            + render_attrs(attrs.drop_first().take(i)));
        assert(render_attrs(attrs.take(i)) == " "@ + attrs[0].0 + "=\""@ + attrs[0].1 + "\""@
            + render_attrs(attrs.drop_first().take(i - 1)));
    }
}

/// Rendering one more child appends that child's markup.
pub proof fn lemma_render_children_take(children: Seq<GNode>, i: int)
    requires
        0 <= i < children.len(),
    ensures
        render_children(children.take(i + 1)) == render_children(children.take(i)) + render(
            children[i],
        ),
    decreases i,
{
    if i == 0 {
        assert(children.take(1) =~= seq![children[0]]);
        assert(children.take(1).drop_first() =~= Seq::<GNode>::empty());
        assert(children.take(0) =~= Seq::<GNode>::empty());
        assert(render_children(children.take(0)) + render(children[0]) =~= render(children[0]));
        assert(render_children(children.take(1)) =~= render(children[0]));
    } else {
        lemma_render_children_take(children.drop_first(), i - 1);
        assert(children.take(i + 1).drop_first() =~= children.drop_first().take(i));
        assert(children.take(i).drop_first() =~= children.drop_first().take(i - 1));
        assert(children.drop_first()[i - 1] == children[i]);
        assert(render_children(children.take(i + 1)) == render(children[0]) + render_children(
            children.drop_first().take(i),
        ));
        assert(render_children(children.take(i)) == render(children[0]) + render_children(
            children.drop_first().take(i - 1),
        ));
    }
}

/// String-slice equality, decided by content.
pub fn str_eq(a: &str, b: &str) -> (r: bool)
    ensures
        r == (a@ == b@),
{
    let x: String = a.to_owned();
    let y: String = b.to_owned();
    x == y
}

/// Deep copy of a node; the copy has the same view.
pub fn clone_node(n: &VirtualNode) -> (r: VirtualNode)
    ensures
        r@ == n@,
    decreases n,
{
    match n {
        VirtualNode::Text(t) => VirtualNode::Text(VirtualNodeText { text: t.text.clone() }),
        VirtualNode::Element(e) => {
            proof {
                assert(*n == VirtualNode::Element(*e));
            }
            VirtualNode::Element(clone_element(e))
        },
    }
}

/// Deep copy of an element; the copy has the same view.
#[verifier::loop_isolation(false)]
pub fn clone_element(e: &VirtualNodeElement) -> (r: VirtualNodeElement)
    ensures
        r@ == e@,
    decreases e,
{
    let mut props: Vec<(String, String)> = Vec::new();
    let mut i: usize = 0;
    while i < e.props.len()
        invariant
            i <= e.props.len(),
            props_view(props@) =~= props_view(e.props@).take(i as int),
        decreases e.props.len() - i,
    {
        let (k, v) = (&e.props[i].0, &e.props[i].1);
        props.push((k.clone(), v.clone()));
        i = i + 1;
    }
    let mut evts: Vec<(String, u64)> = Vec::new();
    let mut i: usize = 0;
    while i < e.events.0.len()
        invariant
            i <= e.events.0.len(),
            events_view(evts@) =~= events_view(e.events.0@).take(i as int),
        decreases e.events.0.len() - i,
    {
        evts.push((e.events.0[i].0.clone(), e.events.0[i].1));
        i = i + 1;
    }
    let mut children: Vec<VirtualNode> = Vec::new();
    let mut i: usize = 0;
    while i < e.children.len()
        invariant
            i <= e.children.len(),
            children@.len() == i,
            forall|j: int| 0 <= j < i ==> children@[j]@ == e.children@[j]@,
        decreases e.children.len() - i,
    {
        proof {
            vstd::std_specs::vec::axiom_vec_index_decreases(e.children, i as int);
        }
        let c = clone_node(&e.children[i]);
        children.push(c);
        i = i + 1;
    }
    let r = VirtualNodeElement { tag: e.tag.clone(), props, events: Events(evts), children };
    proof {
        assert(props_view(r.props@) =~= props_view(e.props@));
        assert(events_view(r.events.0@) =~= events_view(e.events.0@));
        lemma_view_children(r.children@);
        lemma_view_children(e.children@);
        assert(VirtualNode::view_children(r.children@) =~= VirtualNode::view_children(
            e.children@,
        ));
    }
    r
}

} // verus!
