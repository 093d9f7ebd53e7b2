//! The live document model, the materialization of tree snapshots into it,
//! and the patch application engine.
//!
//! A host binding that mirrors [`LiveNode`] values into a real rendered
//! document is an external collaborator; this module keeps the model tree,
//! the structural-index bookkeeping and the attached-handler registry exact.

use vstd::prelude::*;
use crate::diff::{GPatch, Patch, gpatch_idx, patches_view};
use crate::node::{
    GNode, VirtualNode, VirtualNodeElement, VirtualNodeText, events_view, lemma_view_children,
    props_view, str_eq,
};

verus! {

broadcast use vstd::std_specs::vec::group_vec_axioms, vstd::seq::axiom_seq_index_decreases;

/// Mathematical model of a live document node: an element (tag, attributes,
/// installed handlers, children), a text node, or a marker. Markers are
/// non-semantic separators inserted between adjacent text siblings so a host
/// document cannot merge them; they occupy no structural index slot.
#[verifier::ext_equal]
pub enum GLive {
    Element {
        tag: Seq<char>,
        attrs: Seq<(Seq<char>, Seq<char>)>,
        handlers: Seq<(Seq<char>, u64)>,
        children: Seq<GLive>,
    },
    Text { text: Seq<char> },
    Marker,
}

/// A node of the live document tree.
#[derive(Debug, PartialEq)]
pub enum LiveNode {
    /// A live element.
    Element(LiveElement),
    /// A live text node with its payload.
    Text(String),
    /// A separator between adjacent live text nodes; never counted by the
    /// structural index and never removed by truncation.
    Marker,
}

/// A live element: tag, attributes, the unique identifier it was tagged with
/// when it carries handlers, the installed handlers, and its children.
#[derive(Debug, PartialEq)]
pub struct LiveElement {
    /// The tag this element was created with.
    pub tag: String,
    /// The attributes set on this element, in insertion order.
    pub attrs: Vec<(String, String)>,
    /// The unique identifier under which this element's handler resources
    /// are registered; present exactly when the element carries handlers.
    pub vdom_id: Option<u32>,
    /// The handlers installed on this element: event name and the opaque
    /// handler resource identifier.
    pub handlers: Vec<(String, u64)>,
    /// The ordered child list, markers included.
    pub children: Vec<LiveNode>,
}

impl LiveNode {
    pub open spec fn view_children(children: Seq<LiveNode>) -> Seq<GLive>
        decreases children,
    {
        if children.len() == 0 {
            Seq::empty()
        } else {
            seq![children[0]@] + Self::view_children(children.drop_first())
        }
    }
}

impl View for LiveNode {
    type V = GLive;

    open spec fn view(&self) -> GLive
        decreases self,
    {
        match self {
            LiveNode::Element(e) => GLive::Element {
                tag: e.tag@,
                attrs: props_view(e.attrs@),
                handlers: events_view(e.handlers@),
                children: Self::view_children(e.children@),
            },
            LiveNode::Text(t) => GLive::Text { text: t@ },
            LiveNode::Marker => GLive::Marker,
        }
    }
}

impl View for LiveElement {
    type V = GLive;

    open spec fn view(&self) -> GLive {
        GLive::Element {
            tag: self.tag@,
            attrs: props_view(self.attrs@),
            handlers: events_view(self.handlers@),
            children: LiveNode::view_children(self.children@),
        }
    }
}

/// The live child views are the views of the children, position by position.
pub proof fn lemma_live_view_children(children: Seq<LiveNode>)
    ensures
        LiveNode::view_children(children).len() == children.len(),
        forall|i: int|
            0 <= i < children.len() ==> LiveNode::view_children(children)[i] == children[i]@,
    decreases children,
{
    if children.len() > 0 {
        lemma_live_view_children(children.drop_first());
        assert(LiveNode::view_children(children) == seq![children[0]@] + LiveNode::view_children(
            children.drop_first(),
        ));
        assert forall|i: int|
            0 <= i < children.len() implies LiveNode::view_children(children)[i]
            == children[i]@ by {
            if i > 0 {
                assert(children.drop_first()[i - 1] == children[i]);
                assert(LiveNode::view_children(children)[i] == LiveNode::view_children(
                    children.drop_first(),
                )[i - 1]);
            }
        }
    }
}

/// Kinds of the nodes of a tree snapshot in depth-first structural-index
/// order: `true` for an element slot, `false` for a text slot.
pub open spec fn gnode_kinds(n: GNode) -> Seq<bool>
    decreases n,
{
    match n {
        GNode::Element { children, .. } => seq![true] + gnodes_kinds(children),
        GNode::Text { .. } => seq![false],
    }
}

pub open spec fn gnodes_kinds(s: Seq<GNode>) -> Seq<bool>
    decreases s,
{
    if s.len() == 0 {
        Seq::empty()
    } else {
        gnode_kinds(s[0]) + gnodes_kinds(s.drop_first())
    }
}

/// Kinds of the nodes of a live tree in depth-first structural-index order,
/// markers skipped without a slot.
pub open spec fn glive_kinds(l: GLive) -> Seq<bool>
    decreases l,
{
    match l {
        GLive::Element { children, .. } => seq![true] + glives_kinds(children),
        GLive::Text { .. } => seq![false],
        GLive::Marker => Seq::empty(),
    }
}

pub open spec fn glives_kinds(s: Seq<GLive>) -> Seq<bool>
    decreases s,
{
    if s.len() == 0 {
        Seq::empty()
    } else {
        glive_kinds(s[0]) + glives_kinds(s.drop_first())
    }
}

/// Number of structural index slots a live subtree occupies; a marker
/// occupies none.
pub open spec fn glive_size(l: GLive) -> nat
    decreases l,
{
    match l {
        GLive::Element { children, .. } => 1 + glives_size(children),
        GLive::Text { .. } => 1,
        GLive::Marker => 0,
    }
}

pub open spec fn glives_size(s: Seq<GLive>) -> nat
    decreases s,
{
    if s.len() == 0 {
        0
    } else {
        glive_size(s[0]) + glives_size(s.drop_first())
    }
}

/// The live tree a snapshot materializes into: same tags, attributes and
/// text, handlers installed from the event map, and one marker inserted
/// between each pair of adjacent text siblings.
pub open spec fn pure_materialize(n: GNode) -> GLive
    decreases n,
{
    match n {
        GNode::Text { text } => GLive::Text { text },
        GNode::Element { tag, attrs, events, children } => GLive::Element {
            tag,
            attrs,
            handlers: events,
            children: materialize_children(children, false),
        },
    }
}

/// Live children of an element: each child materialized in order, with a
/// marker before a text child whenever the previous child was also text.
pub open spec fn materialize_children(ns: Seq<GNode>, prev_text: bool) -> Seq<GLive>
    decreases ns,
{
    if ns.len() == 0 {
        Seq::empty()
    } else {
        let head = if (ns[0] is Text) && prev_text {
            seq![GLive::Marker, pure_materialize(ns[0])]
        } else {
            seq![pure_materialize(ns[0])]
        };
        head + materialize_children(ns.drop_first(), ns[0] is Text)
    }
}

/// Handler resource identifiers of an event map, in order.
pub open spec fn handler_ids(events: Seq<(Seq<char>, u64)>) -> Seq<u64> {
    Seq::new(events.len(), |i: int| events[i].1)
}

/// Number of elements in a subtree that carry at least one event handler;
/// materializing the subtree assigns exactly this many unique identifiers.
pub open spec fn gnode_event_count(n: GNode) -> nat
    decreases n,
{
    match n {
        GNode::Element { events, children, .. } => (if events.len() > 0 {
            1nat
        } else {
            0nat
        }) + gnodes_event_count(children),
        GNode::Text { .. } => 0,
    }
}

pub open spec fn gnodes_event_count(s: Seq<GNode>) -> nat
    decreases s,
{
    if s.len() == 0 {
        0
    } else {
        gnode_event_count(s[0]) + gnodes_event_count(s.drop_first())
    }
}

/// The attached-handler registry entries that materializing a subtree
/// creates, in depth-first order, when the identifier counter stands at
/// `base` beforehand: each event-carrying element is tagged with the next
/// identifier and registered with its handler resources.
pub open spec fn event_entries(n: GNode, base: int) -> Seq<(u32, Seq<u64>)>
    decreases n,
{
    match n {
        GNode::Element { events, children, .. } => (if events.len() > 0 {
            seq![((base + 1) as u32, handler_ids(events))]
        } else {
            Seq::empty()
        }) + event_entries_children(
            children,
            base + (if events.len() > 0 {
                1int
            } else {
                0int
            }),
        ),
        GNode::Text { .. } => Seq::empty(),
    }
}

pub open spec fn event_entries_children(s: Seq<GNode>, base: int) -> Seq<(u32, Seq<u64>)>
    decreases s,
{
    if s.len() == 0 {
        Seq::empty()
    } else {
        event_entries(s[0], base) + event_entries_children(
            s.drop_first(),
            base + gnode_event_count(s[0]),
        )
    }
}

/// View of an attached-handler registry.
pub open spec fn closures_view(v: Seq<(u32, Vec<u64>)>) -> Seq<(u32, Seq<u64>)> {
    Seq::new(v.len(), |i: int| (v[i].0, v[i].1@))
}

/// Draw the next element identifier from the monotonic counter. Identifiers
/// are never reused; the counter must not be exhausted.
pub fn create_unique_identifier(counter: &mut u32) -> (r: u32)
    requires
        *old(counter) < u32::MAX,
    ensures
        *final(counter) == *old(counter) + 1,
        r == *final(counter),
{
    *counter = *counter + 1;
    *counter
}

/// A live element along with the attached-handler registry entries created
/// for it and for its descendants.
pub struct CreatedElement {
    /// The element that was materialized from a tree snapshot.
    pub element: LiveElement,
    /// Registry entries: each materialized event-carrying element's unique
    /// identifier with its handler resources, in depth-first order.
    pub closures: Vec<(u32, Vec<u64>)>,
}

/// A live node along with the attached-handler registry entries created for
/// it and for its descendants.
pub struct CreatedNode {
    /// The node that was materialized from a tree snapshot.
    pub node: LiveNode,
    /// Registry entries, as in [`CreatedElement`].
    pub closures: Vec<(u32, Vec<u64>)>,
}

impl CreatedNode {
    /// Wrap a live node that owns no handler resources.
    pub fn without_closures(node: LiveNode) -> (r: CreatedNode)
        ensures
            r.node == node,
            r.closures@.len() == 0,
    {
        CreatedNode { node, closures: Vec::new() }
    }
}

impl From<CreatedElement> for CreatedNode {
    fn from(created: CreatedElement) -> (r: CreatedNode) {
        CreatedNode { node: LiveNode::Element(created.element), closures: created.closures }
    }
}

impl vstd::std_specs::convert::FromSpecImpl<CreatedElement> for CreatedNode {
    open spec fn obeys_from_spec() -> bool {
        true
    }

    open spec fn from_spec(created: CreatedElement) -> CreatedNode {
        CreatedNode { node: LiveNode::Element(created.element), closures: created.closures }
    }
}

impl VirtualNodeText {
    /// Materialize this text leaf as a live text node.
    pub fn create_text_node(&self) -> (r: LiveNode)
        ensures
            r@ == (GLive::Text { text: self.text@ }),
    {
        LiveNode::Text(self.text.clone())
    }
}

/// Appending a live child appends its view.
pub proof fn lemma_live_view_children_push(s: Seq<LiveNode>, x: LiveNode)
    ensures
        LiveNode::view_children(s.push(x)) == LiveNode::view_children(s) + seq![x@],
{
    lemma_live_view_children(s.push(x));
    lemma_live_view_children(s);
    assert(LiveNode::view_children(s.push(x)) =~= LiveNode::view_children(s) + seq![x@]);
}

impl VirtualNodeElement {
    /// Materialize this element and all of its children as a live element:
    /// set the attributes, install the handlers, tag the element with a
    /// fresh unique identifier when it carries handlers and register those
    /// handlers under it, and insert one marker between each pair of
    /// adjacent text children.
    #[verifier::loop_isolation(false)]
    #[verifier::rlimit(80)]
    pub fn create_element_node(&self, counter: &mut u32) -> (r: CreatedElement)
        requires
            *old(counter) + gnode_event_count(self@) <= u32::MAX,
        ensures
            r.element@ == pure_materialize(self@),
            closures_view(r.closures@) == event_entries(self@, *old(counter) as int),
            *final(counter) == *old(counter) + gnode_event_count(self@),
            events_view(self.events.0@).len() > 0 ==> r.element.vdom_id == Some(
                (*old(counter) + 1) as u32,
            ),
            events_view(self.events.0@).len() == 0 ==> r.element.vdom_id is None,
        decreases self,
    {
        let ghost kids = VirtualNode::view_children(self.children@);
        let ghost evs = events_view(self.events.0@);
        let ghost start = *counter;
        proof {
            lemma_view_children(self.children@);
        }
        let mut attrs: Vec<(String, String)> = Vec::new();
        let mut i: usize = 0;
        while i < self.props.len()
            invariant
                i <= self.props.len(),
                props_view(attrs@) =~= props_view(self.props@).take(i as int),
            decreases self.props.len() - i,
        {
            attrs.push((self.props[i].0.clone(), self.props[i].1.clone()));
            i = i + 1;
        }
        proof {
            assert(props_view(attrs@) =~= props_view(self.props@));
        }
        let mut handlers: Vec<(String, u64)> = Vec::new();
        let mut i: usize = 0;
        while i < self.events.0.len()
            invariant
                i <= self.events.0.len(),
                events_view(handlers@) =~= evs.take(i as int),
            decreases self.events.0.len() - i,
        {
            handlers.push((self.events.0[i].0.clone(), self.events.0[i].1));
            i = i + 1;
        }
        proof {
            assert(events_view(handlers@) =~= evs);
        }
        let mut closures: Vec<(u32, Vec<u64>)> = Vec::new();
        let mut vdom_id: Option<u32> = None;
        if self.events.0.len() > 0 {
            let unique_id = create_unique_identifier(counter);
            vdom_id = Some(unique_id);
            let mut hids: Vec<u64> = Vec::new();
            let mut j: usize = 0;
            while j < self.events.0.len()
                invariant
                    j <= self.events.0.len(),
                    hids@ =~= handler_ids(evs).take(j as int),
                decreases self.events.0.len() - j,
            {
                hids.push(self.events.0[j].1);
                j = j + 1;
            }
            proof {
                assert(hids@ =~= handler_ids(evs));
            }
            closures.push((unique_id, hids));
        }
        let ghost root_entries: Seq<(u32, Seq<u64>)> = if evs.len() > 0 {
            seq![(((start + 1) as u32), handler_ids(evs))]
        } else {
            Seq::empty()
        };
        proof {
            assert(closures_view(closures@) =~= root_entries);
        }
        let mut lchildren: Vec<LiveNode> = Vec::new();
        let mut prev_text: bool = false;
        let mut i: usize = 0;
        proof {
            assert(kids.skip(0) =~= kids);
            assert(LiveNode::view_children(lchildren@) + materialize_children(kids, false)
                =~= materialize_children(kids, false));
            assert(closures_view(closures@) + event_entries_children(kids, *counter as int)
                =~= event_entries(self@, start as int));
        }
        while i < self.children.len()
            invariant
                i <= self.children.len(),
                LiveNode::view_children(lchildren@) + materialize_children(
                    kids.skip(i as int),
                    prev_text,
                ) == materialize_children(kids, false),
                closures_view(closures@) + event_entries_children(kids.skip(i as int), *counter as int)
                    == event_entries(self@, start as int),
                *counter + gnodes_event_count(kids.skip(i as int)) == start + gnode_event_count(
                    self@,
                ),
            decreases self.children.len() - i,
        {
            proof {
                vstd::std_specs::vec::axiom_vec_index_decreases(self.children, i as int);
                assert(kids.skip(i as int)[0] == kids[i as int]);
                assert(kids.skip(i as int).drop_first() =~= kids.skip(i as int + 1));
            }
            let ghost lc_before = lchildren@;
            match &self.children[i] {
                VirtualNode::Text(t) => {
                    proof {
                        assert(self.children@[i as int] == VirtualNode::Text(*t));
                    }
                    if prev_text {
                        lchildren.push(LiveNode::Marker);
                        proof {
                            lemma_live_view_children_push(lc_before, LiveNode::Marker);
                        }
                    }
                    let ghost lc_mid = lchildren@;
                    lchildren.push(t.create_text_node());
                    proof {
                        lemma_live_view_children_push(lc_mid, lchildren@.last());
                        assert(kids[i as int] == (GNode::Text { text: t.text@ }));
                        assert(pure_materialize(kids[i as int]) == (GLive::Text { text: t.text@ }));
                        assert(materialize_children(kids.skip(i as int), prev_text) == (if prev_text {
                            seq![GLive::Marker, pure_materialize(kids[i as int])]
                        } else {
                            seq![pure_materialize(kids[i as int])]
                        }) + materialize_children(kids.skip(i as int).drop_first(), true));
                        assert(LiveNode::view_children(lchildren@) + materialize_children(
                            kids.skip(i as int + 1),
                            true,
                        ) =~= materialize_children(kids, false));
                        assert(event_entries(kids[i as int], *counter as int) == Seq::<(
                            u32,
                            Seq<u64>,
                        )>::empty());
                        assert(gnode_event_count(kids[i as int]) == 0);
                        assert(event_entries_children(kids.skip(i as int), *counter as int)
                            == event_entries(kids.skip(i as int)[0], *counter as int)
                            + event_entries_children(
                            kids.skip(i as int).drop_first(),
                            *counter as int + gnode_event_count(kids.skip(i as int)[0]),
                        ));
                        assert(event_entries_children(kids.skip(i as int), *counter as int)
                            =~= event_entries_children(kids.skip(i as int + 1), *counter as int));
                    }
                    prev_text = true;
                },
                VirtualNode::Element(child_elem) => {
                    proof {
                        assert(self.children@[i as int] == VirtualNode::Element(*child_elem));
                    }
                    let created = child_elem.create_element_node(counter);
                    let mut cc = created.closures;
                    lchildren.push(LiveNode::Element(created.element));
                    closures.append(&mut cc);
                    proof {
                        lemma_live_view_children_push(lc_before, lchildren@.last());
                        assert(closures_view(closures@) =~= closures_view(
                            closures@.subrange(0, closures@.len() - created.closures@.len()),
                        ) + closures_view(created.closures@));
                        assert(LiveNode::view_children(lchildren@) + materialize_children(
                            kids.skip(i as int + 1),
                            false,
                        ) =~= materialize_children(kids, false));
                    }
                    prev_text = false;
                },
            }
            i = i + 1;
        }
        proof {
            assert(kids.skip(self.children.len() as int) =~= Seq::<GNode>::empty());
            assert(LiveNode::view_children(lchildren@) + Seq::<GLive>::empty()
                =~= LiveNode::view_children(lchildren@));
            assert(closures_view(closures@) + Seq::<(u32, Seq<u64>)>::empty() =~= closures_view(
                closures@,
            ));
        }
        let r = CreatedElement {
            element: LiveElement { tag: self.tag.clone(), attrs, vdom_id, handlers, children: lchildren },
            closures,
        };
        proof {
            assert(r.element@ =~~= pure_materialize(self@));
        }
        r
    }
}

impl VirtualNode {
    /// Materialize this node as a live node, together with the registry
    /// entries for every event-carrying element it contains.
    pub fn create_dom_node(&self, counter: &mut u32) -> (r: CreatedNode)
        requires
            *old(counter) + gnode_event_count(self@) <= u32::MAX,
        ensures
            r.node@ == pure_materialize(self@),
            closures_view(r.closures@) == event_entries(self@, *old(counter) as int),
            *final(counter) == *old(counter) + gnode_event_count(self@),
    {
        match self {
            VirtualNode::Text(text_node) => {
                let r = CreatedNode::without_closures(text_node.create_text_node());
                proof {
                    assert(closures_view(r.closures@) =~= Seq::<(u32, Seq<u64>)>::empty());
                }
                r
            },
            VirtualNode::Element(element_node) => {
                proof {
                    assert(*self == VirtualNode::Element(*element_node));
                }
                CreatedNode::from(element_node.create_element_node(counter))
            },
        }
    }
}

/// The live kinds of concatenated live children are the concatenation of
/// their live kinds.
proof fn lemma_glives_kinds_concat(a: Seq<GLive>, b: Seq<GLive>)
    ensures
        glives_kinds(a + b) == glives_kinds(a) + glives_kinds(b),
    decreases a,
{
    if a.len() == 0 {
        assert(a + b =~= b);
        assert(glives_kinds(a) + glives_kinds(b) =~= glives_kinds(b));
    } else {
        assert((a + b).drop_first() =~= a.drop_first() + b);
        assert((a + b)[0] == a[0]);
        lemma_glives_kinds_concat(a.drop_first(), b);
        assert(glive_kinds(a[0]) + (glives_kinds(a.drop_first()) + glives_kinds(b)) =~= (
        glive_kinds(a[0]) + glives_kinds(a.drop_first())) + glives_kinds(b));
        assert(glives_kinds(a + b) =~= glives_kinds(a) + glives_kinds(b));
    }
}

/// Index-stability law: the structural-index kind sequence of a materialized
/// live tree equals that of the tree snapshot it came from — index
/// assignment is deterministic and identical whether computed over the
/// snapshot or over the live tree, markers excluded from both.
pub proof fn lemma_index_stability(n: GNode)
    ensures
        glive_kinds(pure_materialize(n)) == gnode_kinds(n),
    decreases n,
{
    match n {
        GNode::Text { .. } => {},
        GNode::Element { children, .. } => {
            lemma_index_stability_children(children, false);
            assert(glive_kinds(pure_materialize(n)) =~= gnode_kinds(n));
        },
    }
}

/// Index stability for a child sequence, whatever text-adjacency state
/// precedes it.
pub proof fn lemma_index_stability_children(ns: Seq<GNode>, prev_text: bool)
    ensures
        glives_kinds(materialize_children(ns, prev_text)) == gnodes_kinds(ns),
    decreases ns,
{
    if ns.len() > 0 {
        lemma_index_stability(ns[0]);
        lemma_index_stability_children(ns.drop_first(), ns[0] is Text);
        let head = if (ns[0] is Text) && prev_text {
            seq![GLive::Marker, pure_materialize(ns[0])]
        } else {
            seq![pure_materialize(ns[0])]
        };
        lemma_glives_kinds_concat(head, materialize_children(ns.drop_first(), ns[0] is Text));
        if (ns[0] is Text) && prev_text {
            assert(head[0] == GLive::Marker);
            assert(head.drop_first() =~= seq![pure_materialize(ns[0])]);
            assert(glives_kinds(head) == glive_kinds(head[0]) + glives_kinds(head.drop_first()));
            assert(glives_kinds(head.drop_first()) == glive_kinds(head.drop_first()[0])
                + glives_kinds(head.drop_first().drop_first()));
            assert(head.drop_first().drop_first() =~= Seq::<GLive>::empty());
            assert(glives_kinds(Seq::<GLive>::empty()) == Seq::<bool>::empty());
            assert(glives_kinds(head) =~= glive_kinds(pure_materialize(ns[0])));
        } else {
            assert(head[0] == pure_materialize(ns[0]));
            assert(glives_kinds(head) == glive_kinds(head[0]) + glives_kinds(head.drop_first()));
            assert(head.drop_first() =~= Seq::<GLive>::empty());
            assert(glives_kinds(Seq::<GLive>::empty()) == Seq::<bool>::empty());
            assert(glives_kinds(head) =~= glive_kinds(pure_materialize(ns[0])));
        }
        assert(glives_kinds(materialize_children(ns, prev_text)) =~= gnodes_kinds(ns));
    }
}

/// Bind a key to a value in an association list: the first entry with the
/// key is overwritten in place, or the pair is appended.
pub open spec fn assoc_set(
    m: Seq<(Seq<char>, Seq<char>)>,
    k: Seq<char>,
    v: Seq<char>,
) -> Seq<(Seq<char>, Seq<char>)>
    decreases m,
{
    if m.len() == 0 {
        seq![(k, v)]
    } else if m[0].0 == k {
        seq![(k, v)] + m.drop_first()
    } else {
        seq![m[0]] + assoc_set(m.drop_first(), k, v)
    }
}

/// Bind each listed pair in order.
pub open spec fn set_attrs(
    m: Seq<(Seq<char>, Seq<char>)>,
    adds: Seq<(Seq<char>, Seq<char>)>,
) -> Seq<(Seq<char>, Seq<char>)>
    decreases adds,
{
    if adds.len() == 0 {
        m
    } else {
        set_attrs(assoc_set(m, adds[0].0, adds[0].1), adds.drop_first())
    }
}

/// Drop every entry with the given key.
pub open spec fn assoc_remove(m: Seq<(Seq<char>, Seq<char>)>, k: Seq<char>) -> Seq<
    (Seq<char>, Seq<char>),
>
    decreases m,
{
    if m.len() == 0 {
        m
    } else {
        (if m[0].0 == k {
            Seq::empty()
        } else {
            seq![m[0]]
        }) + assoc_remove(m.drop_first(), k)
    }
}

/// Drop each listed key in order.
pub open spec fn remove_attrs(m: Seq<(Seq<char>, Seq<char>)>, keys: Seq<Seq<char>>) -> Seq<
    (Seq<char>, Seq<char>),
>
    decreases keys,
{
    if keys.len() == 0 {
        m
    } else {
        remove_attrs(assoc_remove(m, keys[0]), keys.drop_first())
    }
}

/// Keep the leading live children up to `keep` countable ones: markers are
/// never counted and never removed; countable children beyond the keep-count
/// are dropped.
pub open spec fn trunc_children(ls: Seq<GLive>, keep: int) -> Seq<GLive>
    decreases ls,
{
    if ls.len() == 0 {
        ls
    } else if ls[0] is Marker {
        seq![ls[0]] + trunc_children(ls.drop_first(), keep)
    } else if keep > 0 {
        seq![ls[0]] + trunc_children(ls.drop_first(), keep - 1)
    } else {
        trunc_children(ls.drop_first(), 0)
    }
}

/// Each subtree materialized in order, with no separators between the listed
/// roots.
pub open spec fn materialize_list(ns: Seq<GNode>) -> Seq<GLive>
    decreases ns,
{
    if ns.len() == 0 {
        Seq::empty()
    } else {
        seq![pure_materialize(ns[0])] + materialize_list(ns.drop_first())
    }
}

/// How many unique identifiers applying one patch can draw: the
/// event-carrying elements of the subtrees it materializes.
pub open spec fn gpatch_event_count(p: GPatch) -> nat {
    match p {
        GPatch::Replace(_, n) => gnode_event_count(n),
        GPatch::AppendChildren(_, ns) => gnodes_event_count(ns),
        _ => 0,
    }
}

/// Identifier budget of the patches addressed to the node at `base`.
pub open spec fn patches_here_count(ps: Seq<GPatch>, base: int) -> nat
    decreases ps,
{
    if ps.len() == 0 {
        0
    } else {
        (if gpatch_idx(ps[0]) == base {
            gpatch_event_count(ps[0])
        } else {
            0nat
        }) + patches_here_count(ps.drop_first(), base)
    }
}

/// Identifier budget of applying the patch list over a live subtree rooted
/// at structural index `base`.
pub open spec fn apply_count(l: GLive, ps: Seq<GPatch>, base: int) -> nat
    decreases l,
{
    match l {
        GLive::Marker => 0,
        GLive::Text { .. } => patches_here_count(ps, base),
        GLive::Element { children, .. } => patches_here_count(ps, base) + apply_children_count(
            children,
            ps,
            base + 1,
        ),
    }
}

pub open spec fn apply_children_count(ls: Seq<GLive>, ps: Seq<GPatch>, base: int) -> nat
    decreases ls,
{
    if ls.len() == 0 {
        0
    } else {
        apply_count(ls[0], ps, base) + apply_children_count(
            ls.drop_first(),
            ps,
            base + glive_size(ls[0]),
        )
    }
}

/// What one patch does to the node it is addressed to. A patch whose kind
/// does not fit the node leaves it unchanged; the public entry point's
/// precondition rules that routing error out.
pub open spec fn apply_here(l: GLive, p: GPatch) -> GLive {
    match p {
        GPatch::AddAttributes(_, adds) => match l {
            GLive::Element { tag, attrs, handlers, children } => GLive::Element {
                tag,
                attrs: set_attrs(attrs, adds),
                handlers,
                children,
            },
            _ => l,
        },
        GPatch::RemoveAttributes(_, keys) => match l {
            GLive::Element { tag, attrs, handlers, children } => GLive::Element {
                tag,
                attrs: remove_attrs(attrs, keys),
                handlers,
                children,
            },
            _ => l,
        },
        GPatch::Replace(_, n) => pure_materialize(n),
        GPatch::AppendChildren(_, ns) => match l {
            GLive::Element { tag, attrs, handlers, children } => GLive::Element {
                tag,
                attrs,
                handlers,
                children: children + materialize_list(ns),
            },
            _ => l,
        },
        GPatch::TruncateChildren(_, keep) => match l {
            GLive::Element { tag, attrs, handlers, children } => GLive::Element {
                tag,
                attrs,
                handlers,
                children: trunc_children(children, keep),
            },
            _ => l,
        },
        GPatch::ChangeText(_, s) => match l {
            GLive::Text { .. } => GLive::Text { text: s },
            _ => l,
        },
    }
}

/// Apply, in supplied order, every patch addressed to the node at `base`.
pub open spec fn fold_here(l: GLive, ps: Seq<GPatch>, base: int) -> GLive
    decreases ps,
{
    if ps.len() == 0 {
        l
    } else {
        fold_here(
            if gpatch_idx(ps[0]) == base {
                apply_here(l, ps[0])
            } else {
                l
            },
            ps.drop_first(),
            base,
        )
    }
}

/// Apply a patch list over a live subtree rooted at structural index `base`:
/// one depth-first pass over the tree as it stood before any of these
/// patches, resolving every index against that original numbering. The
/// descendants are patched first, then the patches addressed to the node
/// itself apply in supplied order.
pub open spec fn apply_tree(l: GLive, ps: Seq<GPatch>, base: int) -> GLive
    decreases l,
{
    match l {
        GLive::Marker => GLive::Marker,
        GLive::Text { .. } => fold_here(l, ps, base),
        GLive::Element { tag, attrs, handlers, children } => fold_here(
            GLive::Element {
                tag,
                attrs,
                handlers,
                children: apply_tree_children(children, ps, base + 1),
            },
            ps,
            base,
        ),
    }
}

pub open spec fn apply_tree_children(ls: Seq<GLive>, ps: Seq<GPatch>, base: int) -> Seq<GLive>
    decreases ls,
{
    if ls.len() == 0 {
        ls
    } else {
        seq![apply_tree(ls[0], ps, base)] + apply_tree_children(
            ls.drop_first(),
            ps,
            base + glive_size(ls[0]),
        )
    }
}

/// A patch is routable against a live tree when its index falls on a slot
/// of the fitting kind: attribute and child-list patches on an element
/// slot, `ChangeText` on a text slot, `Replace` on either.
pub open spec fn routable(l: GLive, p: GPatch) -> bool {
    let k = gpatch_idx(p);
    &&& 0 <= k < glive_kinds(l).len()
    &&& match p {
        GPatch::ChangeText(_, _) => !glive_kinds(l)[k],
        GPatch::Replace(_, _) => true,
        _ => glive_kinds(l)[k],
    }
}

/// Adjacent-text law: materializing two adjacent text children yields their
/// two live text nodes with exactly one marker between them.
pub proof fn lemma_adjacent_text_marker(a: Seq<char>, b: Seq<char>)
    ensures
        materialize_children(seq![GNode::Text { text: a }, GNode::Text { text: b }], false)
            == seq![GLive::Text { text: a }, GLive::Marker, GLive::Text { text: b }],
{
    let ns = seq![GNode::Text { text: a }, GNode::Text { text: b }];
    assert(ns[0] == (GNode::Text { text: a }));
    assert(ns.drop_first() =~= seq![GNode::Text { text: b }]);
    assert(ns.drop_first()[0] == (GNode::Text { text: b }));
    assert(ns.drop_first().drop_first() =~= Seq::<GNode>::empty());
    assert(materialize_children(ns.drop_first().drop_first(), true) == Seq::<GLive>::empty());
    assert(pure_materialize(GNode::Text { text: a }) == (GLive::Text { text: a }));
    assert(pure_materialize(GNode::Text { text: b }) == (GLive::Text { text: b }));
    assert(materialize_children(ns.drop_first(), true) == seq![
        GLive::Marker,
        GLive::Text { text: b },
    ] + materialize_children(ns.drop_first().drop_first(), true));
    assert(materialize_children(ns.drop_first(), true) =~= seq![
        GLive::Marker,
        GLive::Text { text: b },
    ]);
    assert(materialize_children(ns, false) == seq![GLive::Text { text: a }]
        + materialize_children(ns.drop_first(), true));
    assert(materialize_children(ns, false) =~= seq![
        GLive::Text { text: a },
        GLive::Marker,
        GLive::Text { text: b },
    ]);
}

/// Index of the first entry with the given key.
#[verifier::loop_isolation(false)]
fn props_find(v: &Vec<(String, String)>, key: &str) -> (r: Option<usize>)
    ensures
        match r {
            Some(i) => i < v@.len() && props_view(v@)[i as int].0 == key@ && (forall|j: int|
                0 <= j < i ==> props_view(v@)[j].0 != key@),
            None => forall|j: int| 0 <= j < v@.len() ==> props_view(v@)[j].0 != key@,
        },
{
    let mut i: usize = 0;
    while i < v.len()
        invariant
            i <= v.len(),
            forall|j: int| 0 <= j < i ==> props_view(v@)[j].0 != key@,
        decreases v.len() - i,
    {
        if str_eq(v[i].0.as_str(), key) {
            return Some(i);
        }
        i = i + 1;
    }
    None
}

/// Binding a key whose first match sits at `i` overwrites that entry.
proof fn lemma_assoc_set_found(m: Seq<(Seq<char>, Seq<char>)>, k: Seq<char>, v: Seq<char>, i: int)
    requires
        0 <= i < m.len(),
        m[i].0 == k,
        forall|j: int| 0 <= j < i ==> m[j].0 != k,
    ensures
        assoc_set(m, k, v) == m.update(i, (k, v)),
    decreases i,
{
    if i == 0 {
        assert(assoc_set(m, k, v) =~= m.update(0, (k, v)));
    } else {
        assert(forall|j: int| 0 <= j < i - 1 ==> m.drop_first()[j] == m[j + 1]);
        assert(m.drop_first()[i - 1] == m[i]);
        lemma_assoc_set_found(m.drop_first(), k, v, i - 1);
        assert(assoc_set(m, k, v) =~= m.update(i, (k, v)));
    }
}

/// Binding an absent key appends the pair.
proof fn lemma_assoc_set_absent(m: Seq<(Seq<char>, Seq<char>)>, k: Seq<char>, v: Seq<char>)
    requires
        forall|j: int| 0 <= j < m.len() ==> m[j].0 != k,
    ensures
        assoc_set(m, k, v) == m + seq![(k, v)],
    decreases m,
{
    if m.len() == 0 {
        assert(assoc_set(m, k, v) =~= m + seq![(k, v)]);
    } else {
        assert(forall|j: int| 0 <= j < m.drop_first().len() ==> m.drop_first()[j] == m[j + 1]);
        lemma_assoc_set_absent(m.drop_first(), k, v);
        assert(assoc_set(m, k, v) =~= m + seq![(k, v)]);
    }
}

/// Set one attribute: overwrite the first entry with the key, or append.
#[verifier::loop_isolation(false)]
fn set_attr_exec(attrs: &mut Vec<(String, String)>, key: &String, val: &String)
    ensures
        props_view(final(attrs)@) == assoc_set(props_view(old(attrs)@), key@, val@),
{
    let found = props_find(attrs, key.as_str());
    match found {
        Some(i) => {
            proof {
                lemma_assoc_set_found(props_view(attrs@), key@, val@, i as int);
            }
            attrs.remove(i);
            attrs.insert(i, (key.clone(), val.clone()));
            proof {
                assert(props_view(attrs@) =~= assoc_set(props_view(old(attrs)@), key@, val@));
            }
        },
        None => {
            proof {
                lemma_assoc_set_absent(props_view(attrs@), key@, val@);
            }
            attrs.push((key.clone(), val.clone()));
            proof {
                assert(props_view(attrs@) =~= assoc_set(props_view(old(attrs)@), key@, val@));
            }
        },
    }
}

/// Remove every entry with the given key.
#[verifier::loop_isolation(false)]
fn remove_attr_exec(attrs: &mut Vec<(String, String)>, key: &String)
    ensures
        props_view(final(attrs)@) == assoc_remove(props_view(old(attrs)@), key@),
{
    let ghost m0 = props_view(old(attrs)@);
    let mut i: usize = 0;
    proof {
        assert(props_view(attrs@).skip(0) =~= props_view(attrs@));
        assert(props_view(attrs@).take(0) =~= Seq::<(Seq<char>, Seq<char>)>::empty());
        assert(Seq::<(Seq<char>, Seq<char>)>::empty() + assoc_remove(props_view(attrs@), key@)
            =~= assoc_remove(props_view(attrs@), key@));
    }
    while i < attrs.len()
        invariant
            i <= attrs.len(),
            forall|j: int| 0 <= j < i ==> props_view(attrs@)[j].0 != key@,
            props_view(attrs@).take(i as int) + assoc_remove(
                props_view(attrs@).skip(i as int),
                key@,
            ) == assoc_remove(m0, key@),
        decreases attrs.len() - i,
    {
        let ghost mcur = props_view(attrs@);
        proof {
            assert(mcur.skip(i as int)[0] == mcur[i as int]);
            assert(mcur.skip(i as int).drop_first() =~= mcur.skip(i as int + 1));
        }
        if str_eq(attrs[i].0.as_str(), key.as_str()) {
            attrs.remove(i);
            proof {
                assert(props_view(attrs@) =~= mcur.remove(i as int));
                assert(props_view(attrs@).take(i as int) =~= mcur.take(i as int));
                assert(props_view(attrs@).skip(i as int) =~= mcur.skip(i as int + 1));
                assert(Seq::<(Seq<char>, Seq<char>)>::empty() + assoc_remove(
                    mcur.skip(i as int + 1),
                    key@,
                ) =~= assoc_remove(mcur.skip(i as int + 1), key@));
            }
        } else {
            proof {
                assert(props_view(attrs@).take(i as int + 1) =~= mcur.take(i as int) + seq![
                    mcur[i as int],
                ]);
                assert((mcur.take(i as int) + seq![mcur[i as int]]) + assoc_remove(
                    mcur.skip(i as int + 1),
                    key@,
                ) =~= mcur.take(i as int) + (seq![mcur[i as int]] + assoc_remove(
                    mcur.skip(i as int + 1),
                    key@,
                )));
            }
            i = i + 1;
        }
    }
    proof {
        assert(props_view(attrs@).skip(i as int) =~= Seq::<(Seq<char>, Seq<char>)>::empty());
        assert(props_view(attrs@).take(i as int) =~= props_view(attrs@));
        assert(props_view(attrs@) + Seq::<(Seq<char>, Seq<char>)>::empty() =~= props_view(attrs@));
    }
}

/// Number of structural index slots a live subtree occupies.
#[verifier::loop_isolation(false)]
pub fn live_node_size(l: &LiveNode) -> (r: usize)
    requires
        glive_size(l@) <= usize::MAX,
    ensures
        r == glive_size(l@),
    decreases l,
{
    match l {
        LiveNode::Marker => 0,
        LiveNode::Text(_) => 1,
        LiveNode::Element(e) => {
            proof {
                assert(*l == LiveNode::Element(*e));
                lemma_live_view_children(e.children@);
            }
            let ghost kids = LiveNode::view_children(e.children@);
            proof {
                assert(kids.skip(0) =~= kids);
            }
            let mut total: usize = 1;
            let mut i: usize = 0;
            while i < e.children.len()
                invariant
                    i <= e.children.len(),
                    total + glives_size(kids.skip(i as int)) == glive_size(l@),
                decreases e.children.len() - i,
            {
                proof {
                    vstd::std_specs::vec::axiom_vec_index_decreases(e.children, i as int);
                    assert(kids.skip(i as int)[0] == kids[i as int]);
                    assert(kids.skip(i as int).drop_first() =~= kids.skip(i as int + 1));
                }
                let c = live_node_size(&e.children[i]);
                total = total + c;
                i = i + 1;
            }
            total
        },
    }
}

/// Apply one patch to the node it is addressed to, materializing any subtree
/// it carries; fresh identifiers come from the counter and new registry
/// entries are appended to the registry.
#[verifier::loop_isolation(false)]
#[verifier::rlimit(60)]
fn apply_here_exec(
    node: LiveNode,
    p: &Patch,
    counter: &mut u32,
    registry: &mut Vec<(u32, Vec<u64>)>,
) -> (r: LiveNode)
    requires
        *old(counter) + gpatch_event_count(p@) <= u32::MAX,
    ensures
        r@ == apply_here(node@, p@),
        *old(counter) <= *final(counter) <= *old(counter) + gpatch_event_count(p@),
        final(registry)@.len() >= old(registry)@.len(),
        final(registry)@.take(old(registry)@.len() as int) == old(registry)@,
        forall|j: int|
            old(registry)@.len() <= j < final(registry)@.len() ==> *old(counter)
                < #[trigger] final(registry)@[j].0 <= *final(counter),
{
    match p {
        Patch::AddAttributes(pidx, adds) => {
            proof {
                assert(*p == Patch::AddAttributes(*pidx, *adds));
            }
            match node {
                LiveNode::Element(mut e) => {
                    let ghost e0 = e;
                    let ghost m0 = props_view(e.attrs@);
                    let ghost addsv = props_view(adds@);
                    proof {
                        assert(node == LiveNode::Element(e0));
                        assert(addsv.skip(0) =~= addsv);
                    }
                    let mut i: usize = 0;
                    while i < adds.len()
                        invariant
                            i <= adds.len(),
                            e.tag == e0.tag,
                            e.vdom_id == e0.vdom_id,
                            e.handlers == e0.handlers,
                            e.children == e0.children,
                            set_attrs(props_view(e.attrs@), addsv.skip(i as int)) == set_attrs(
                                m0,
                                addsv,
                            ),
                        decreases adds.len() - i,
                    {
                        proof {
                            assert(addsv.skip(i as int)[0] == addsv[i as int]);
                            assert(addsv.skip(i as int).drop_first() =~= addsv.skip(i as int + 1));
                        }
                        set_attr_exec(&mut e.attrs, &adds[i].0, &adds[i].1);
                        i = i + 1;
                    }
                    proof {
                        assert(addsv.skip(adds@.len() as int) =~= Seq::<
                            (Seq<char>, Seq<char>),
                        >::empty());
                        assert((LiveNode::Element(e))@ =~~= apply_here(node@, p@));
                    }
                    LiveNode::Element(e)
                },
                other => other,
            }
        },
        Patch::RemoveAttributes(pidx, keys) => {
            proof {
                assert(*p == Patch::RemoveAttributes(*pidx, *keys));
            }
            match node {
                LiveNode::Element(mut e) => {
                    let ghost e0 = e;
                    let ghost m0 = props_view(e.attrs@);
                    let ghost keysv = crate::diff::keys_view(keys@);
                    proof {
                        assert(node == LiveNode::Element(e0));
                        assert(keysv.skip(0) =~= keysv);
                    }
                    let mut i: usize = 0;
                    while i < keys.len()
                        invariant
                            i <= keys.len(),
                            e.tag == e0.tag,
                            e.vdom_id == e0.vdom_id,
                            e.handlers == e0.handlers,
                            e.children == e0.children,
                            remove_attrs(props_view(e.attrs@), keysv.skip(i as int))
                                == remove_attrs(m0, keysv),
                        decreases keys.len() - i,
                    {
                        proof {
                            assert(keysv.skip(i as int)[0] == keysv[i as int]);
                            assert(keysv.skip(i as int).drop_first() =~= keysv.skip(i as int + 1));
                        }
                        remove_attr_exec(&mut e.attrs, &keys[i]);
                        i = i + 1;
                    }
                    proof {
                        assert(keysv.skip(keys@.len() as int) =~= Seq::<Seq<char>>::empty());
                        assert((LiveNode::Element(e))@ =~~= apply_here(node@, p@));
                    }
                    LiveNode::Element(e)
                },
                other => other,
            }
        },
        Patch::Replace(pidx, n) => {
            proof {
                assert(*p == Patch::Replace(*pidx, *n));
            }
            let ghost ctr_before = *counter;
            let created = n.create_dom_node(counter);
            let mut cc = created.closures;
            registry.append(&mut cc);
            proof {
                assert(final(registry)@.take(old(registry)@.len() as int) =~= old(registry)@);
                lemma_event_entries_ids(n@, ctr_before as int);
                assert forall|j: int|
                    old(registry)@.len() <= j < registry@.len() implies ctr_before
                    < #[trigger] registry@[j].0 <= *counter by {
                    let k = j - old(registry)@.len();
                    assert(registry@[j] == created.closures@[k]);
                    assert(closures_view(created.closures@)[k].0 == created.closures@[k].0);
                    assert(event_entries(n@, ctr_before as int)[k].0 == created.closures@[k].0);
                }
            }
            created.node
        },
        Patch::AppendChildren(pidx, ns) => {
            proof {
                assert(*p == Patch::AppendChildren(*pidx, *ns));
            }
            match node {
                LiveNode::Element(mut e) => {
                    let ghost e0 = e;
                    proof {
                        assert(node == LiveNode::Element(e0));
                        lemma_view_children(ns@);
                    }
                    let ghost nsv = VirtualNode::view_children(ns@);
                    let ghost lc0 = e.children@;
                    let ghost reg0 = registry@;
                    let mut i: usize = 0;
                    proof {
                        assert(nsv.skip(0) =~= nsv);
                        assert(LiveNode::view_children(e.children@) + Seq::<GLive>::empty()
                            =~= LiveNode::view_children(e.children@));
                    }
                    while i < ns.len()
                        invariant
                            i <= ns.len(),
                            e.tag == e0.tag,
                            e.vdom_id == e0.vdom_id,
                            e.handlers == e0.handlers,
                            e.attrs == e0.attrs,
                            LiveNode::view_children(e.children@) + materialize_list(
                                nsv.skip(i as int),
                            ) == LiveNode::view_children(lc0) + materialize_list(nsv),
                            *counter + gnodes_event_count(nsv.skip(i as int)) == *old(counter)
                                + gnodes_event_count(nsv),
                            registry@.len() >= reg0.len(),
                            registry@.take(reg0.len() as int) == reg0,
                            *counter >= *old(counter),
                            forall|j: int|
                                reg0.len() <= j < registry@.len() ==> *old(counter)
                                    < #[trigger] registry@[j].0 <= *counter,
                        decreases ns.len() - i,
                    {
                        let ghost lc_mid = e.children@;
                        proof {
                            assert(nsv.skip(i as int)[0] == nsv[i as int]);
                            assert(nsv.skip(i as int).drop_first() =~= nsv.skip(i as int + 1));
                        }
                        let ghost ctr_before = *counter;
                        let ghost reg_before = registry@;
                        let created = ns[i].create_dom_node(counter);
                        let mut cc = created.closures;
                        e.children.push(created.node);
                        registry.append(&mut cc);
                        proof {
                            lemma_event_entries_ids(nsv[i as int], ctr_before as int);
                            assert forall|j: int|
                                reg0.len() <= j < registry@.len() implies *old(counter)
                                < #[trigger] registry@[j].0 <= *counter by {
                                if j >= reg_before.len() {
                                    let k = j - reg_before.len();
                                    assert(registry@[j] == created.closures@[k]);
                                    assert(closures_view(created.closures@)[k].0
                                        == created.closures@[k].0);
                                    assert(event_entries(nsv[i as int], ctr_before as int)[k].0
                                        == created.closures@[k].0);
                                } else {
                                    assert(registry@[j] == reg_before[j]);
                                }
                            }
                            lemma_live_view_children_push(lc_mid, e.children@.last());
                            assert(LiveNode::view_children(e.children@) + materialize_list(
                                nsv.skip(i as int + 1),
                            ) =~= LiveNode::view_children(lc0) + materialize_list(nsv));
                            assert(registry@.take(reg0.len() as int) =~= reg0);
                        }
                        i = i + 1;
                    }
                    proof {
                        assert(nsv.skip(ns@.len() as int) =~= Seq::<GNode>::empty());
                        assert(LiveNode::view_children(e.children@) + Seq::<GLive>::empty()
                            =~= LiveNode::view_children(e.children@));
                        assert((LiveNode::Element(e))@ =~~= apply_here(node@, p@));
                    }
                    LiveNode::Element(e)
                },
                other => other,
            }
        },
        Patch::TruncateChildren(pidx, keep) => {
            proof {
                assert(*p == Patch::TruncateChildren(*pidx, *keep));
            }
            match node {
                LiveNode::Element(mut e) => {
                    let ghost e0 = e;
                    proof {
                        assert(node == LiveNode::Element(e0));
                    }
                    let mut cs = e.children;
                    e.children = Vec::new();
                    let ghost cs0 = cs@;
                    let mut kept: usize = 0;
                    proof {
                        lemma_live_view_children(cs@);
                        assert(LiveNode::view_children(Seq::<LiveNode>::empty()) + trunc_children(
                            LiveNode::view_children(cs@),
                            *keep as int,
                        ) =~= trunc_children(LiveNode::view_children(cs0), *keep as int));
                    }
                    while cs.len() > 0
                        invariant
                            kept <= *keep,
                            e.tag == e0.tag,
                            e.vdom_id == e0.vdom_id,
                            e.handlers == e0.handlers,
                            e.attrs == e0.attrs,
                            LiveNode::view_children(e.children@) + trunc_children(
                                LiveNode::view_children(cs@),
                                *keep - kept,
                            ) == trunc_children(LiveNode::view_children(cs0), *keep as int),
                        decreases cs.len(),
                    {
                        let ghost lc_mid = e.children@;
                        let ghost csv = LiveNode::view_children(cs@);
                        proof {
                            lemma_live_view_children(cs@);
                            assert(csv[0] == cs@[0]@);
                            assert(LiveNode::view_children(cs@.drop_first()) =~= csv.drop_first());
                        }
                        let c = cs.remove(0);
                        let is_marker: bool = match &c {
                            LiveNode::Marker => true,
                            _ => false,
                        };
                        if is_marker {
                            e.children.push(c);
                            proof {
                                lemma_live_view_children_push(lc_mid, e.children@.last());
                                assert(LiveNode::view_children(e.children@) + trunc_children(
                                    LiveNode::view_children(cs@),
                                    *keep - kept,
                                ) =~= trunc_children(LiveNode::view_children(cs0), *keep as int));
                            }
                        } else if kept < *keep {
                            e.children.push(c);
                            kept = kept + 1;
                            proof {
                                lemma_live_view_children_push(lc_mid, e.children@.last());
                                assert(LiveNode::view_children(e.children@) + trunc_children(
                                    LiveNode::view_children(cs@),
                                    *keep - kept,
                                ) =~= trunc_children(LiveNode::view_children(cs0), *keep as int));
                            }
                        } else {
                            proof {
                                assert(LiveNode::view_children(e.children@) + trunc_children(
                                    LiveNode::view_children(cs@),
                                    0,
                                ) =~= trunc_children(LiveNode::view_children(cs0), *keep as int));
                            }
                        }
                    }
                    proof {
                        assert(LiveNode::view_children(cs@) =~= Seq::<GLive>::empty());
                        assert(LiveNode::view_children(e.children@) + Seq::<GLive>::empty()
                            =~= LiveNode::view_children(e.children@));
                        assert((LiveNode::Element(e))@ =~~= apply_here(node@, p@));
                    }
                    LiveNode::Element(e)
                },
                other => other,
            }
        },
        Patch::ChangeText(pidx, t) => {
            proof {
                assert(*p == Patch::ChangeText(*pidx, *t));
            }
            match node {
                LiveNode::Text(_) => LiveNode::Text(t.text.clone()),
                other => other,
            }
        },
    }
}

/// Apply, in supplied order, every patch addressed to structural index
/// `base` to this node.
#[verifier::loop_isolation(false)]
fn fold_here_exec(
    node: LiveNode,
    patches: &Vec<Patch>,
    base: usize,
    counter: &mut u32,
    registry: &mut Vec<(u32, Vec<u64>)>,
) -> (r: LiveNode)
    requires
        *old(counter) + patches_here_count(patches_view(patches@), base as int) <= u32::MAX,
    ensures
        r@ == fold_here(node@, patches_view(patches@), base as int),
        *old(counter) <= *final(counter) <= *old(counter) + patches_here_count(
            patches_view(patches@),
            base as int,
        ),
        final(registry)@.len() >= old(registry)@.len(),
        final(registry)@.take(old(registry)@.len() as int) == old(registry)@,
        forall|j: int|
            old(registry)@.len() <= j < final(registry)@.len() ==> *old(counter)
                < #[trigger] final(registry)@[j].0 <= *final(counter),
{
    let ghost pv = patches_view(patches@);
    let mut cur = node;
    let mut i: usize = 0;
    proof {
        assert(pv.skip(0) =~= pv);
    }
    while i < patches.len()
        invariant
            i <= patches.len(),
            fold_here(cur@, pv.skip(i as int), base as int) == fold_here(node@, pv, base as int),
            *counter + patches_here_count(pv.skip(i as int), base as int) <= *old(counter)
                + patches_here_count(pv, base as int),
            *counter >= *old(counter),
            registry@.len() >= old(registry)@.len(),
            registry@.take(old(registry)@.len() as int) == old(registry)@,
            forall|j: int|
                old(registry)@.len() <= j < registry@.len() ==> *old(counter)
                    < #[trigger] registry@[j].0 <= *counter,
        decreases patches.len() - i,
    {
        proof {
            assert(pv.skip(i as int)[0] == pv[i as int]);
            assert(pv.skip(i as int).drop_first() =~= pv.skip(i as int + 1));
        }
        let idx = patches[i].node_idx();
        if idx == base {
            let ghost reg_prev = registry@;
            let ghost ctr_prev = *counter;
            cur = apply_here_exec(cur, &patches[i], counter, registry);
            proof {
                assert(registry@.take(old(registry)@.len() as int) =~= old(registry)@);
                assert forall|j: int|
                    old(registry)@.len() <= j < registry@.len() implies *old(counter)
                    < #[trigger] registry@[j].0 <= *counter by {
                    if j < reg_prev.len() {
                        assert(registry@.take(reg_prev.len() as int) == reg_prev);
                        assert(registry@[j] == reg_prev[j]);
                    } else {
                        assert(ctr_prev < registry@[j].0 <= *counter);
                    }
                }
            }
        }
        i = i + 1;
    }
    proof {
        assert(pv.skip(patches@.len() as int) =~= Seq::<GPatch>::empty());
    }
    cur
}

/// Apply a patch list over a live subtree rooted at structural index `base`,
/// in one depth-first pass: the children as they originally stood are
/// patched first, then the patches addressed to this node apply in order.
#[verifier::loop_isolation(false)]
#[verifier::rlimit(60)]
fn apply_tree_exec(
    node: LiveNode,
    patches: &Vec<Patch>,
    base: usize,
    counter: &mut u32,
    registry: &mut Vec<(u32, Vec<u64>)>,
) -> (r: LiveNode)
    requires
        *old(counter) + apply_count(node@, patches_view(patches@), base as int) <= u32::MAX,
        base + glive_size(node@) <= usize::MAX,
    ensures
        r@ == apply_tree(node@, patches_view(patches@), base as int),
        *old(counter) <= *final(counter) <= *old(counter) + apply_count(
            node@,
            patches_view(patches@),
            base as int,
        ),
        final(registry)@.len() >= old(registry)@.len(),
        final(registry)@.take(old(registry)@.len() as int) == old(registry)@,
        forall|j: int|
            old(registry)@.len() <= j < final(registry)@.len() ==> *old(counter)
                < #[trigger] final(registry)@[j].0 <= *final(counter),
    decreases node,
{
    let ghost node0 = node;
    let ghost pv = patches_view(patches@);
    match node {
        LiveNode::Marker => LiveNode::Marker,
        LiveNode::Text(t) => fold_here_exec(LiveNode::Text(t), patches, base, counter, registry),
        LiveNode::Element(mut e) => {
            let ghost e0 = e;
            proof {
                assert(node0 == LiveNode::Element(e0));
            }
            let mut cs = e.children;
            e.children = Vec::new();
            let ghost cs0 = cs@;
            let ghost ocv = LiveNode::view_children(cs0);
            proof {
                assert(cs0 == e0.children@);
                lemma_live_view_children(cs0);
                assert(ocv.skip(0) =~= ocv);
                assert(LiveNode::view_children(Seq::<LiveNode>::empty()) + apply_tree_children(
                    ocv,
                    pv,
                    base + 1,
                ) =~= apply_tree_children(ocv, pv, base + 1));
            }
            let mut child_base: usize = base + 1;
            let mut i: usize = 0;
            let ghost ctr0 = *counter;
            let cs_len: usize = cs.len();
            proof {
                assert(cs0.len() == cs_len);
            }
            while cs.len() > 0
                invariant
                    i <= cs0.len(),
                    cs0.len() <= usize::MAX,
                    i + cs@.len() == cs0.len(),
                    e.tag == e0.tag,
                    e.vdom_id == e0.vdom_id,
                    e.handlers == e0.handlers,
                    e.attrs == e0.attrs,
                    forall|j: int| 0 <= j < cs@.len() ==> cs@[j] == cs0[i + j],
                    LiveNode::view_children(e.children@) + apply_tree_children(
                        ocv.skip(i as int),
                        pv,
                        child_base as int,
                    ) == apply_tree_children(ocv, pv, base + 1),
                    child_base + glives_size(ocv.skip(i as int)) == base + glive_size(node0@),
                    *counter + apply_children_count(ocv.skip(i as int), pv, child_base as int)
                        <= ctr0 + apply_children_count(ocv, pv, base + 1),
                    *counter >= ctr0,
                    registry@.len() >= old(registry)@.len(),
                    registry@.take(old(registry)@.len() as int) == old(registry)@,
                    forall|j: int|
                        old(registry)@.len() <= j < registry@.len() ==> *old(counter)
                            < #[trigger] registry@[j].0 <= *counter,
                decreases cs@.len(),
            {
                proof {
                    lemma_live_view_children(cs0);
                    assert(cs@[0] == cs0[i as int]);
                    assert(ocv.skip(i as int)[0] == ocv[i as int]);
                    assert(ocv.skip(i as int).drop_first() =~= ocv.skip(i as int + 1));
                    assert(ocv[i as int] == cs0[i as int]@);
                }
                let c = cs.remove(0);
                proof {
                    assert(node0 == LiveNode::Element(e0));
                    assert(decreases_to!(e0 => e0.children));
                    assert(decreases_to!(e0.children => e0.children@));
                    vstd::seq::axiom_seq_index_decreases(e0.children@, i as int);
                    assert(c == e0.children@[i as int]);
                }
                let sz = live_node_size(&c);
                let ghost lc_mid = e.children@;
                let ghost reg_prev = registry@;
                let ghost ctr_prev = *counter;
                let c2 = apply_tree_exec(c, patches, child_base, counter, registry);
                e.children.push(c2);
                proof {
                    assert forall|j: int|
                        old(registry)@.len() <= j < registry@.len() implies *old(counter)
                        < #[trigger] registry@[j].0 <= *counter by {
                        if j < reg_prev.len() {
                            assert(registry@.take(reg_prev.len() as int) == reg_prev);
                            assert(registry@[j] == reg_prev[j]);
                        } else {
                            assert(ctr_prev < registry@[j].0 <= *counter);
                        }
                    }
                    lemma_live_view_children_push(lc_mid, e.children@.last());
                    assert(LiveNode::view_children(e.children@) + apply_tree_children(
                        ocv.skip(i as int + 1),
                        pv,
                        child_base + sz,
                    ) =~= apply_tree_children(ocv, pv, base + 1));
                    assert(registry@.take(old(registry)@.len() as int) =~= old(registry)@);
                }
                child_base = child_base + sz;
                i = i + 1;
            }
            proof {
                assert(ocv.skip(i as int) =~= Seq::<GLive>::empty());
                assert(LiveNode::view_children(e.children@) + Seq::<GLive>::empty()
                    =~= LiveNode::view_children(e.children@));
            }
            let ghost folded_input = (LiveNode::Element(e))@;
            proof {
                assert(folded_input =~~= (GLive::Element {
                    tag: e0.tag@,
                    attrs: props_view(e0.attrs@),
                    handlers: events_view(e0.handlers@),
                    children: apply_tree_children(ocv, pv, base + 1),
                }));
            }
            let ghost reg_prev = registry@;
            let ghost ctr_prev = *counter;
            let r = fold_here_exec(LiveNode::Element(e), patches, base, counter, registry);
            proof {
                assert(r@ == apply_tree(node0@, pv, base as int));
                assert forall|j: int|
                    old(registry)@.len() <= j < registry@.len() implies *old(counter)
                    < #[trigger] registry@[j].0 <= *counter by {
                    if j < reg_prev.len() {
                        assert(registry@.take(reg_prev.len() as int) == reg_prev);
                        assert(registry@[j] == reg_prev[j]);
                    } else {
                        assert(ctr_prev < registry@[j].0 <= *counter);
                    }
                }
            }
            r
        },
    }
}

/// Materializing a subtree registers one entry per event-carrying element,
/// each under an identifier drawn from the counter range it consumes.
pub proof fn lemma_event_entries_ids(n: GNode, base: int)
    requires
        0 <= base,
        base + gnode_event_count(n) <= u32::MAX,
    ensures
        event_entries(n, base).len() == gnode_event_count(n),
        forall|j: int|
            0 <= j < event_entries(n, base).len() ==> base < #[trigger] event_entries(n, base)[j].0
                <= base + gnode_event_count(n),
    decreases n,
{
    match n {
        GNode::Text { .. } => {},
        GNode::Element { events, children, .. } => {
            let own: int = if events.len() > 0 {
                1
            } else {
                0
            };
            lemma_event_entries_children_ids(children, base + own);
        },
    }
}

pub proof fn lemma_event_entries_children_ids(s: Seq<GNode>, base: int)
    requires
        0 <= base,
        base + gnodes_event_count(s) <= u32::MAX,
    ensures
        event_entries_children(s, base).len() == gnodes_event_count(s),
        forall|j: int|
            0 <= j < event_entries_children(s, base).len() ==> base
                < #[trigger] event_entries_children(s, base)[j].0 <= base + gnodes_event_count(s),
    decreases s,
{
    if s.len() > 0 {
        lemma_event_entries_ids(s[0], base);
        lemma_event_entries_children_ids(s.drop_first(), base + gnode_event_count(s[0]));
        assert forall|j: int|
            0 <= j < event_entries_children(s, base).len() implies base
            < #[trigger] event_entries_children(s, base)[j].0 <= base + gnodes_event_count(s) by {
            let head = event_entries(s[0], base);
            let tail = event_entries_children(s.drop_first(), base + gnode_event_count(s[0]));
            if j < head.len() {
                assert(event_entries_children(s, base)[j] == head[j]);
            } else {
                assert(event_entries_children(s, base)[j] == tail[j - head.len()]);
            }
        }
    }
}

/// What a key is bound to in an association list, if anything.
pub open spec fn assoc_opt(m: Seq<(Seq<char>, Seq<char>)>, k: Seq<char>) -> Option<Seq<char>> {
    if crate::node::assoc_has(m, k) {
        Some(crate::node::assoc_get(m, k))
    } else {
        None
    }
}

/// Whether a key list names a key.
pub open spec fn key_in(keys: Seq<Seq<char>>, k: Seq<char>) -> bool {
    exists|i: int| 0 <= i < keys.len() && keys[i] == k
}

/// Binding one key rebinds it and touches nothing else.
proof fn lemma_assoc_set_opt(m: Seq<(Seq<char>, Seq<char>)>, k: Seq<char>, v: Seq<char>)
    requires
        crate::node::keys_unique(m),
    ensures
        crate::node::keys_unique(assoc_set(m, k, v)),
        assoc_opt(assoc_set(m, k, v), k) == Some(v),
        forall|q: Seq<char>| q != k ==> assoc_opt(assoc_set(m, k, v), q) == assoc_opt(m, q),
    decreases m,
{
    let r = assoc_set(m, k, v);
    if m.len() == 0 {
        assert(r =~= seq![(k, v)]);
        assert(r[0] == (k, v));
        assert forall|q: Seq<char>| q != k implies assoc_opt(r, q) == assoc_opt(m, q) by {
            assert(!crate::node::assoc_has(r, q));
        }
    } else if m[0].0 == k {
        assert(r == seq![(k, v)] + m.drop_first());
        assert(r[0] == (k, v));
        assert(crate::node::assoc_get(r, k) == v);
        assert forall|i: int, j: int| 0 <= i < j < r.len() implies r[i].0 != r[j].0 by {
            if i == 0 {
                assert(r[j] == m[j]);
                assert(m[0].0 != m[j].0);
            } else {
                assert(r[i] == m[i] && r[j] == m[j]);
            }
        }
        assert forall|q: Seq<char>| q != k implies assoc_opt(r, q) == assoc_opt(m, q) by {
            assert(r.drop_first() =~= m.drop_first());
            if crate::node::assoc_has(m, q) {
                let w = choose|w: int| 0 <= w < m.len() && m[w].0 == q;
                assert(w > 0);
                assert(m.drop_first()[w - 1].0 == q);
                assert(crate::node::assoc_has(r, q));
            }
            if crate::node::assoc_has(r, q) {
                let w = choose|w: int| 0 <= w < r.len() && r[w].0 == q;
                assert(w > 0);
                assert(m[w].0 == q);
            }
        }
    } else {
        assert(crate::node::keys_unique(m.drop_first())) by {
            assert(forall|p: int, q: int|
                0 <= p < q < m.drop_first().len() ==> m.drop_first()[p] == m[p + 1]
                    && m.drop_first()[q] == m[q + 1]);
        }
        lemma_assoc_set_opt(m.drop_first(), k, v);
        let rr = assoc_set(m.drop_first(), k, v);
        assert(r == seq![m[0]] + rr);
        assert(r[0] == m[0]);
        assert(r.drop_first() =~= rr);
        assert(crate::node::assoc_has(rr, k) && crate::node::assoc_get(rr, k) == v);
        assert(crate::node::assoc_has(r, k)) by {
            let w = choose|w: int| 0 <= w < rr.len() && rr[w].0 == k;
            assert(r[w + 1].0 == k);
        }
        assert(crate::node::assoc_get(r, k) == v);
        assert forall|i: int, j: int| 0 <= i < j < r.len() implies r[i].0 != r[j].0 by {
            if i > 0 {
                assert(r[i] == rr[i - 1] && r[j] == rr[j - 1]);
            } else {
                assert(r[j] == rr[j - 1]);
                assert(assoc_opt(rr, m[0].0) == assoc_opt(m.drop_first(), m[0].0));
                if rr[j - 1].0 == m[0].0 {
                    assert(crate::node::assoc_has(rr, m[0].0)) by {
                        assert(rr[j - 1].0 == m[0].0);
                    }
                    assert(crate::node::assoc_has(m.drop_first(), m[0].0));
                    let w = choose|w: int|
                        0 <= w < m.drop_first().len() && m.drop_first()[w].0 == m[0].0;
                    assert(m[w + 1].0 == m[0].0);
                    assert(false);
                }
            }
        }
        assert forall|q: Seq<char>| q != k implies assoc_opt(r, q) == assoc_opt(m, q) by {
            if q == m[0].0 {
                assert(r[0].0 == q);
                assert(m[0].0 == q);
                assert(crate::node::assoc_get(r, q) == m[0].1);
                assert(crate::node::assoc_get(m, q) == m[0].1);
            } else {
                assert(assoc_opt(rr, q) == assoc_opt(m.drop_first(), q));
                if crate::node::assoc_has(rr, q) {
                    let w = choose|w: int| 0 <= w < rr.len() && rr[w].0 == q;
                    assert(r[w + 1].0 == q);
                    assert(crate::node::assoc_has(r, q));
                }
                if crate::node::assoc_has(r, q) {
                    let w = choose|w: int| 0 <= w < r.len() && r[w].0 == q;
                    assert(w > 0 && rr[w - 1].0 == q);
                    assert(crate::node::assoc_has(rr, q));
                }
                if crate::node::assoc_has(m, q) {
                    let w = choose|w: int| 0 <= w < m.len() && m[w].0 == q;
                    assert(w > 0 && m.drop_first()[w - 1].0 == q);
                    assert(crate::node::assoc_has(m.drop_first(), q));
                }
                if crate::node::assoc_has(m.drop_first(), q) {
                    let w = choose|w: int|
                        0 <= w < m.drop_first().len() && m.drop_first()[w].0 == q;
                    assert(m[w + 1].0 == q);
                    assert(crate::node::assoc_has(m, q));
                }
                assert(crate::node::assoc_get(r, q) == crate::node::assoc_get(rr, q));
                assert(crate::node::assoc_get(m, q) == crate::node::assoc_get(m.drop_first(), q));
            }
        }
    }
}

/// Removing one key unbinds it and touches nothing else.
proof fn lemma_assoc_remove_opt(m: Seq<(Seq<char>, Seq<char>)>, k: Seq<char>)
    requires
        crate::node::keys_unique(m),
    ensures
        crate::node::keys_unique(assoc_remove(m, k)),
        assoc_opt(assoc_remove(m, k), k) == None::<Seq<char>>,
        forall|q: Seq<char>| q != k ==> assoc_opt(assoc_remove(m, k), q) == assoc_opt(m, q),
    decreases m,
{
    let r = assoc_remove(m, k);
    if m.len() > 0 {
        assert(crate::node::keys_unique(m.drop_first())) by {
            assert(forall|p: int, q: int|
                0 <= p < q < m.drop_first().len() ==> m.drop_first()[p] == m[p + 1]
                    && m.drop_first()[q] == m[q + 1]);
        }
        lemma_assoc_remove_opt(m.drop_first(), k);
        let rr = assoc_remove(m.drop_first(), k);
        assert forall|q: Seq<char>|
            crate::node::assoc_has(m.drop_first(), q) implies crate::node::assoc_has(m, q) by {
            let w = choose|w: int| 0 <= w < m.drop_first().len() && m.drop_first()[w].0 == q;
            assert(m[w + 1].0 == q);
        }
        if m[0].0 == k {
            assert(r =~= rr);
            assert forall|q: Seq<char>| q != k implies assoc_opt(r, q) == assoc_opt(m, q) by {
                assert(assoc_opt(assoc_remove(m.drop_first(), k), q) == assoc_opt(
                    m.drop_first(),
                    q,
                ));
                if crate::node::assoc_has(m, q) {
                    let w = choose|w: int| 0 <= w < m.len() && m[w].0 == q;
                    assert(w > 0 && m.drop_first()[w - 1].0 == q);
                    assert(crate::node::assoc_has(m.drop_first(), q));
                }
                assert(crate::node::assoc_get(m, q) == crate::node::assoc_get(m.drop_first(), q));
            }
        } else {
            assert(r == seq![m[0]] + rr);
            assert(r[0] == m[0]);
            assert(r.drop_first() =~= rr);
            assert forall|i: int, j: int| 0 <= i < j < r.len() implies r[i].0 != r[j].0 by {
                if i > 0 {
                    assert(r[i] == rr[i - 1] && r[j] == rr[j - 1]);
                } else {
                    assert(r[j] == rr[j - 1]);
                    if rr[j - 1].0 == m[0].0 {
                        assert(crate::node::assoc_has(rr, m[0].0));
                        assert(assoc_opt(rr, m[0].0) == assoc_opt(m.drop_first(), m[0].0));
                        assert(crate::node::assoc_has(m.drop_first(), m[0].0));
                        let w = choose|w: int|
                            0 <= w < m.drop_first().len() && m.drop_first()[w].0 == m[0].0;
                        assert(m[w + 1].0 == m[0].0);
                        assert(false);
                    }
                }
            }
            assert(assoc_opt(r, k) == None::<Seq<char>>) by {
                if crate::node::assoc_has(r, k) {
                    let w = choose|w: int| 0 <= w < r.len() && r[w].0 == k;
                    assert(w > 0 && rr[w - 1].0 == k);
                    assert(crate::node::assoc_has(rr, k));
                }
            }
            assert forall|q: Seq<char>| q != k implies assoc_opt(r, q) == assoc_opt(m, q) by {
                if q == m[0].0 {
                    assert(r[0].0 == q && m[0].0 == q);
                    assert(crate::node::assoc_has(r, q));
                    assert(crate::node::assoc_has(m, q));
                    assert(crate::node::assoc_get(r, q) == m[0].1);
                    assert(crate::node::assoc_get(m, q) == m[0].1);
                } else {
                    assert(assoc_opt(assoc_remove(m.drop_first(), k), q) == assoc_opt(
                        m.drop_first(),
                        q,
                    ));
                    if crate::node::assoc_has(rr, q) {
                        let w = choose|w: int| 0 <= w < rr.len() && rr[w].0 == q;
                        assert(r[w + 1].0 == q);
                        assert(crate::node::assoc_has(r, q));
                    }
                    if crate::node::assoc_has(r, q) {
                        let w = choose|w: int| 0 <= w < r.len() && r[w].0 == q;
                        assert(w > 0 && rr[w - 1].0 == q);
                        assert(crate::node::assoc_has(rr, q));
                    }
                    if crate::node::assoc_has(m, q) {
                        let w = choose|w: int| 0 <= w < m.len() && m[w].0 == q;
                        assert(w > 0 && m.drop_first()[w - 1].0 == q);
                        assert(crate::node::assoc_has(m.drop_first(), q));
                    }
                    assert(crate::node::assoc_get(r, q) == crate::node::assoc_get(rr, q));
                    assert(crate::node::assoc_get(m, q) == crate::node::assoc_get(
                        m.drop_first(),
                        q,
                    ));
                }
            }
        }
    }
}

/// Binding a unique-keyed batch rebinds exactly its keys.
proof fn lemma_set_attrs_opt(
    m: Seq<(Seq<char>, Seq<char>)>,
    adds: Seq<(Seq<char>, Seq<char>)>,
)
    requires
        crate::node::keys_unique(m),
        crate::node::keys_unique(adds),
    ensures
        crate::node::keys_unique(set_attrs(m, adds)),
        forall|q: Seq<char>|
            #[trigger] assoc_opt(set_attrs(m, adds), q) == if crate::node::assoc_has(adds, q) {
                Some(crate::node::assoc_get(adds, q))
            } else {
                assoc_opt(m, q)
            },
    decreases adds,
{
    if adds.len() > 0 {
        lemma_assoc_set_opt(m, adds[0].0, adds[0].1);
        let m2 = assoc_set(m, adds[0].0, adds[0].1);
        assert(crate::node::keys_unique(adds.drop_first())) by {
            assert(forall|p: int, q: int|
                0 <= p < q < adds.drop_first().len() ==> adds.drop_first()[p] == adds[p + 1]
                    && adds.drop_first()[q] == adds[q + 1]);
        }
        lemma_set_attrs_opt(m2, adds.drop_first());
        assert forall|q: Seq<char>|
            #[trigger] assoc_opt(set_attrs(m, adds), q) == if crate::node::assoc_has(adds, q) {
                Some(crate::node::assoc_get(adds, q))
            } else {
                assoc_opt(m, q)
            } by {
            assert(set_attrs(m, adds) == set_attrs(m2, adds.drop_first()));
            if crate::node::assoc_has(adds.drop_first(), q) {
                let w = choose|w: int|
                    0 <= w < adds.drop_first().len() && adds.drop_first()[w].0 == q;
                assert(adds[w + 1].0 == q);
                assert(q != adds[0].0);
                assert(crate::node::assoc_has(adds, q));
                assert(crate::node::assoc_get(adds, q) == crate::node::assoc_get(
                    adds.drop_first(),
                    q,
                ));
            } else if q == adds[0].0 {
                assert(crate::node::assoc_has(adds, q));
                assert(crate::node::assoc_get(adds, q) == adds[0].1);
                assert(assoc_opt(m2, q) == Some(adds[0].1));
            } else {
                if crate::node::assoc_has(adds, q) {
                    let w = choose|w: int| 0 <= w < adds.len() && adds[w].0 == q;
                    assert(w > 0 && adds.drop_first()[w - 1].0 == q);
                    assert(false);
                }
                assert(assoc_opt(m2, q) == assoc_opt(m, q));
            }
        }
    }
}

/// Removing a key batch unbinds exactly its keys.
proof fn lemma_remove_attrs_opt(m: Seq<(Seq<char>, Seq<char>)>, keys: Seq<Seq<char>>)
    requires
        crate::node::keys_unique(m),
    ensures
        crate::node::keys_unique(remove_attrs(m, keys)),
        forall|q: Seq<char>|
            #[trigger] assoc_opt(remove_attrs(m, keys), q) == if key_in(keys, q) {
                None::<Seq<char>>
            } else {
                assoc_opt(m, q)
            },
    decreases keys,
{
    if keys.len() > 0 {
        lemma_assoc_remove_opt(m, keys[0]);
        let m2 = assoc_remove(m, keys[0]);
        lemma_remove_attrs_opt(m2, keys.drop_first());
        assert forall|q: Seq<char>|
            #[trigger] assoc_opt(remove_attrs(m, keys), q) == if key_in(keys, q) {
                None::<Seq<char>>
            } else {
                assoc_opt(m, q)
            } by {
            assert(remove_attrs(m, keys) == remove_attrs(m2, keys.drop_first()));
            if key_in(keys.drop_first(), q) {
                let w = choose|w: int|
                    0 <= w < keys.drop_first().len() && keys.drop_first()[w] == q;
                assert(keys[w + 1] == q);
                assert(key_in(keys, q));
            } else if q == keys[0] {
                assert(key_in(keys, q));
                assert(assoc_opt(m2, q) == None::<Seq<char>>);
            } else {
                if key_in(keys, q) {
                    let w = choose|w: int| 0 <= w < keys.len() && keys[w] == q;
                    assert(w > 0 && keys.drop_first()[w - 1] == q);
                    assert(false);
                }
                assert(assoc_opt(m2, q) == assoc_opt(m, q));
            }
        }
    }
}

/// The computed additions bind exactly the new keys that are absent from
/// the old list or bound there to a different value, to their new values.
proof fn lemma_attrs_to_add_opt(
    old_attrs: Seq<(Seq<char>, Seq<char>)>,
    new_attrs: Seq<(Seq<char>, Seq<char>)>,
)
    requires
        crate::node::keys_unique(new_attrs),
    ensures
        crate::node::keys_unique(crate::diff::attrs_to_add(old_attrs, new_attrs)),
        forall|q: Seq<char>|
            #[trigger] assoc_opt(crate::diff::attrs_to_add(old_attrs, new_attrs), q) == if crate::node::assoc_has(
                new_attrs,
                q,
            ) && assoc_opt(old_attrs, q) != Some(crate::node::assoc_get(new_attrs, q)) {
                Some(crate::node::assoc_get(new_attrs, q))
            } else {
                None::<Seq<char>>
            },
    decreases new_attrs,
{
    let a = crate::diff::attrs_to_add(old_attrs, new_attrs);
    if new_attrs.len() > 0 {
        assert(crate::node::keys_unique(new_attrs.drop_first())) by {
            assert(forall|p: int, q: int|
                0 <= p < q < new_attrs.drop_first().len() ==> new_attrs.drop_first()[p]
                    == new_attrs[p + 1] && new_attrs.drop_first()[q] == new_attrs[q + 1]);
        }
        lemma_attrs_to_add_opt(old_attrs, new_attrs.drop_first());
        let rest = crate::diff::attrs_to_add(old_attrs, new_attrs.drop_first());
        let e0 = new_attrs[0];
        let cond0 = !crate::node::assoc_has(old_attrs, e0.0) || crate::node::assoc_get(
            old_attrs,
            e0.0,
        ) != e0.1;
        assert forall|q: Seq<char>|
            crate::node::assoc_has(new_attrs.drop_first(), q) implies crate::node::assoc_has(
            new_attrs,
            q,
        ) && q != e0.0 && crate::node::assoc_get(new_attrs, q) == crate::node::assoc_get(
            new_attrs.drop_first(),
            q,
        ) by {
            let w = choose|w: int|
                0 <= w < new_attrs.drop_first().len() && new_attrs.drop_first()[w].0 == q;
            assert(new_attrs[w + 1].0 == q);
        }
        assert forall|q: Seq<char>|
            q != e0.0 && crate::node::assoc_has(new_attrs, q) implies crate::node::assoc_has(
            new_attrs.drop_first(),
            q,
        ) by {
            let w = choose|w: int| 0 <= w < new_attrs.len() && new_attrs[w].0 == q;
            assert(w > 0 && new_attrs.drop_first()[w - 1].0 == q);
        }
        assert(assoc_opt(rest, e0.0) == None::<Seq<char>>);
        if cond0 {
            assert(a == seq![e0] + rest);
            assert(a[0] == e0);
            assert(a.drop_first() =~= rest);
            assert forall|i: int, j: int| 0 <= i < j < a.len() implies a[i].0 != a[j].0 by {
                if i > 0 {
                    assert(a[i] == rest[i - 1] && a[j] == rest[j - 1]);
                } else {
                    assert(a[j] == rest[j - 1]);
                    if rest[j - 1].0 == e0.0 {
                        assert(crate::node::assoc_has(rest, e0.0));
                        assert(false);
                    }
                }
            }
            assert forall|q: Seq<char>|
                q != e0.0 implies #[trigger] assoc_opt(a, q) == assoc_opt(rest, q) by {
                if crate::node::assoc_has(rest, q) {
                    let w = choose|w: int| 0 <= w < rest.len() && rest[w].0 == q;
                    assert(a[w + 1].0 == q);
                    assert(crate::node::assoc_has(a, q));
                }
                if crate::node::assoc_has(a, q) {
                    let w = choose|w: int| 0 <= w < a.len() && a[w].0 == q;
                    assert(w > 0 && rest[w - 1].0 == q);
                    assert(crate::node::assoc_has(rest, q));
                }
                assert(crate::node::assoc_get(a, q) == crate::node::assoc_get(rest, q));
            }
            assert(crate::node::assoc_has(a, e0.0) && crate::node::assoc_get(a, e0.0) == e0.1);
            assert(crate::node::assoc_get(new_attrs, e0.0) == e0.1);
        } else {
            assert(a == rest);
            assert(crate::node::assoc_get(new_attrs, e0.0) == e0.1);
        }
    }
}

/// The computed removals name exactly the old keys absent from the new
/// list.
proof fn lemma_attrs_to_remove_keys(
    old_attrs: Seq<(Seq<char>, Seq<char>)>,
    new_attrs: Seq<(Seq<char>, Seq<char>)>,
)
    ensures
        forall|q: Seq<char>|
            #[trigger] key_in(crate::diff::attrs_to_remove(old_attrs, new_attrs), q) <==> (
            crate::node::assoc_has(old_attrs, q) && !crate::node::assoc_has(new_attrs, q)),
    decreases old_attrs,
{
    let r = crate::diff::attrs_to_remove(old_attrs, new_attrs);
    if old_attrs.len() > 0 {
        lemma_attrs_to_remove_keys(old_attrs.drop_first(), new_attrs);
        let rest = crate::diff::attrs_to_remove(old_attrs.drop_first(), new_attrs);
        let e0 = old_attrs[0];
        assert forall|q: Seq<char>|
            crate::node::assoc_has(old_attrs.drop_first(), q) implies crate::node::assoc_has(
            old_attrs,
            q,
        ) by {
            let w = choose|w: int|
                0 <= w < old_attrs.drop_first().len() && old_attrs.drop_first()[w].0 == q;
            assert(old_attrs[w + 1].0 == q);
        }
        assert forall|q: Seq<char>|
            q != e0.0 && crate::node::assoc_has(old_attrs, q) implies crate::node::assoc_has(
            old_attrs.drop_first(),
            q,
        ) by {
            let w = choose|w: int| 0 <= w < old_attrs.len() && old_attrs[w].0 == q;
            assert(w > 0 && old_attrs.drop_first()[w - 1].0 == q);
        }
        assert forall|q: Seq<char>|
            #[trigger] key_in(r, q) <==> (crate::node::assoc_has(old_attrs, q)
                && !crate::node::assoc_has(new_attrs, q)) by {
            if !crate::node::assoc_has(new_attrs, e0.0) {
                assert(r == seq![e0.0] + rest);
                assert(r[0] == e0.0);
                if key_in(r, q) {
                    let w = choose|w: int| 0 <= w < r.len() && r[w] == q;
                    if w > 0 {
                        assert(rest[w - 1] == q);
                        assert(key_in(rest, q));
                    } else {
                        assert(crate::node::assoc_has(old_attrs, e0.0)) by {
                            assert(old_attrs[0].0 == e0.0);
                        }
                    }
                }
                if key_in(rest, q) {
                    let w = choose|w: int| 0 <= w < rest.len() && rest[w] == q;
                    assert(r[w + 1] == q);
                    assert(key_in(r, q));
                }
                if q == e0.0 {
                    assert(r[0] == q);
                    assert(key_in(r, q));
                    assert(crate::node::assoc_has(old_attrs, q)) by {
                        assert(old_attrs[0].0 == q);
                    }
                }
            } else {
                assert(r == rest);
                if q == e0.0 {
                    assert(!(crate::node::assoc_has(old_attrs, q) && !crate::node::assoc_has(
                        new_attrs,
                        q,
                    )));
                    if key_in(r, q) {
                        assert(crate::node::assoc_has(old_attrs.drop_first(), q)
                            && !crate::node::assoc_has(new_attrs, q));
                        assert(false);
                    }
                }
            }
        }
    }
}

/// Attribute-delta law: applying the additions and removals that the diff
/// engine computes for an old and a new attribute list to the old list
/// yields a list that binds exactly the keys of the new list, each to its
/// new value.
pub proof fn lemma_attribute_delta_applies(
    old_attrs: Seq<(Seq<char>, Seq<char>)>,
    new_attrs: Seq<(Seq<char>, Seq<char>)>,
)
    requires
        crate::node::keys_unique(old_attrs),
        crate::node::keys_unique(new_attrs),
    ensures
        forall|q: Seq<char>|
            #[trigger] assoc_opt(
                remove_attrs(
                    set_attrs(old_attrs, crate::diff::attrs_to_add(old_attrs, new_attrs)),
                    crate::diff::attrs_to_remove(old_attrs, new_attrs),
                ),
                q,
            ) == assoc_opt(new_attrs, q),
{
    let adds = crate::diff::attrs_to_add(old_attrs, new_attrs);
    let removes = crate::diff::attrs_to_remove(old_attrs, new_attrs);
    let m1 = set_attrs(old_attrs, adds);
    lemma_attrs_to_add_opt(old_attrs, new_attrs);
    lemma_attrs_to_remove_keys(old_attrs, new_attrs);
    lemma_set_attrs_opt(old_attrs, adds);
    lemma_remove_attrs_opt(m1, removes);
    assert forall|q: Seq<char>|
        #[trigger] assoc_opt(remove_attrs(m1, removes), q) == assoc_opt(new_attrs, q) by {
        assert(assoc_opt(adds, q) == if crate::node::assoc_has(new_attrs, q) && assoc_opt(
            old_attrs,
            q,
        ) != Some(crate::node::assoc_get(new_attrs, q)) {
            Some(crate::node::assoc_get(new_attrs, q))
        } else {
            None::<Seq<char>>
        });
        assert(assoc_opt(m1, q) == if crate::node::assoc_has(adds, q) {
            Some(crate::node::assoc_get(adds, q))
        } else {
            assoc_opt(old_attrs, q)
        });
        assert(key_in(removes, q) <==> (crate::node::assoc_has(old_attrs, q)
            && !crate::node::assoc_has(new_attrs, q)));
    }
}

/// Patches addressed below this subtree's index range apply nothing here.
proof fn lemma_fold_here_below(l: GLive, ps: Seq<GPatch>, base: int)
    requires
        forall|j: int| 0 <= j < ps.len() ==> gpatch_idx(#[trigger] ps[j]) < base,
    ensures
        fold_here(l, ps, base) == l,
    decreases ps,
{
    if ps.len() > 0 {
        assert(forall|j: int|
            0 <= j < ps.drop_first().len() ==> #[trigger] ps.drop_first()[j] == ps[j + 1]);
        lemma_fold_here_below(l, ps.drop_first(), base);
    }
}

/// Applying patches that are all addressed below a subtree's index range
/// leaves the subtree unchanged.
proof fn lemma_apply_tree_below(l: GLive, ps: Seq<GPatch>, base: int)
    requires
        forall|j: int| 0 <= j < ps.len() ==> gpatch_idx(#[trigger] ps[j]) < base,
    ensures
        apply_tree(l, ps, base) == l,
    decreases l,
{
    match l {
        GLive::Marker => {},
        GLive::Text { .. } => {
            lemma_fold_here_below(l, ps, base);
        },
        GLive::Element { tag, attrs, handlers, children } => {
            lemma_apply_tree_children_below(children, ps, base + 1);
            lemma_fold_here_below(
                GLive::Element {
                    tag,
                    attrs,
                    handlers,
                    children: apply_tree_children(children, ps, base + 1),
                },
                ps,
                base,
            );
            assert(apply_tree(l, ps, base) =~~= l);
        },
    }
}

proof fn lemma_apply_tree_children_below(ls: Seq<GLive>, ps: Seq<GPatch>, base: int)
    requires
        forall|j: int| 0 <= j < ps.len() ==> gpatch_idx(#[trigger] ps[j]) < base,
    ensures
        apply_tree_children(ls, ps, base) == ls,
    decreases ls,
{
    if ls.len() > 0 {
        lemma_apply_tree_below(ls[0], ps, base);
        lemma_apply_tree_children_below(ls.drop_first(), ps, base + glive_size(ls[0]));
        assert(apply_tree_children(ls, ps, base) =~= ls);
    }
}

/// Convergence law, identical-snapshot case: applying the patch list that
/// diffing a well-formed tree against itself produces — the empty list —
/// leaves the materialized live tree unchanged.
pub proof fn lemma_patch_converges_same(n: GNode)
    requires
        crate::node::gnode_wf(n),
    ensures
        apply_tree(
            pure_materialize(n),
            crate::diff::spec_diff(n, n, 0),
            0,
        ) == pure_materialize(n),
{
    crate::diff::lemma_diff_reflexive(n, 0);
    lemma_apply_tree_below(pure_materialize(n), Seq::<GPatch>::empty(), 0);
}

/// Convergence law, text-to-text case: applying the patch list from diffing
/// one text snapshot against another to the materialized old text node
/// yields exactly the materialized new text node.
pub proof fn lemma_patch_converges_text(ta: Seq<char>, tb: Seq<char>)
    ensures
        apply_tree(
            pure_materialize(GNode::Text { text: ta }),
            crate::diff::spec_diff(GNode::Text { text: ta }, GNode::Text { text: tb }, 0),
            0,
        ) == pure_materialize(GNode::Text { text: tb }),
{
    let ps = crate::diff::spec_diff(GNode::Text { text: ta }, GNode::Text { text: tb }, 0);
    let l = pure_materialize(GNode::Text { text: ta });
    if ta == tb {
        lemma_apply_tree_below(l, ps, 0);
    } else {
        assert(ps == seq![GPatch::ChangeText(0, tb)]);
        assert(ps.drop_first() =~= Seq::<GPatch>::empty());
        assert(ps[0] == GPatch::ChangeText(0, tb) && gpatch_idx(ps[0]) == 0);
        assert(apply_here(l, ps[0]) == pure_materialize(GNode::Text { text: tb }));
        assert(fold_here(l, ps, 0) == fold_here(apply_here(l, ps[0]), ps.drop_first(), 0));
        assert(fold_here(apply_here(l, ps[0]), ps.drop_first(), 0) == apply_here(l, ps[0]));
    }
}

/// Convergence law, whole-replace case: when the old and new snapshots
/// differ in kind, or are elements with different tags, the diff is a
/// single whole-subtree replace, and applying it to the materialized old
/// tree yields exactly the materialized new tree.
pub proof fn lemma_patch_converges_replace(old_n: GNode, new_n: GNode)
    requires
        match (old_n, new_n) {
            (GNode::Text { .. }, GNode::Text { .. }) => false,
            (GNode::Element { tag: ta, .. }, GNode::Element { tag: tb, .. }) => ta != tb,
            _ => true,
        },
    ensures
        apply_tree(
            pure_materialize(old_n),
            crate::diff::spec_diff(old_n, new_n, 0),
            0,
        ) == pure_materialize(new_n),
{
    let ps = crate::diff::spec_diff(old_n, new_n, 0);
    let l = pure_materialize(old_n);
    assert(ps == seq![GPatch::Replace(0, new_n)]);
    assert(ps.drop_first() =~= Seq::<GPatch>::empty());
    match l {
        GLive::Marker => {
            assert(false);
        },
        GLive::Text { .. } => {
            assert(ps[0] == GPatch::Replace(0, new_n) && gpatch_idx(ps[0]) == 0);
            assert(apply_here(l, ps[0]) == pure_materialize(new_n));
            assert(fold_here(l, ps, 0) == fold_here(apply_here(l, ps[0]), ps.drop_first(), 0));
            assert(fold_here(apply_here(l, ps[0]), ps.drop_first(), 0) == apply_here(l, ps[0]));
        },
        GLive::Element { tag, attrs, handlers, children } => {
            lemma_apply_tree_children_below(children, ps, 1);
            let l2 = GLive::Element {
                tag,
                attrs,
                handlers,
                children: apply_tree_children(children, ps, 1),
            };
            assert(l2 =~~= l);
            assert(ps[0] == GPatch::Replace(0, new_n) && gpatch_idx(ps[0]) == 0);
            assert(apply_here(l2, ps[0]) == pure_materialize(new_n));
            assert(fold_here(l2, ps, 0) == fold_here(apply_here(l2, ps[0]), ps.drop_first(), 0));
            assert(fold_here(apply_here(l2, ps[0]), ps.drop_first(), 0) == apply_here(l2, ps[0]));
        },
    }
}

/// Apply a patch list, as produced by the diff engine, to a live document
/// root: one depth-first pass resolves every structural index against the
/// tree as it stands on entry and applies each patch exactly once. The
/// result is the patched root together with the registry entries created
/// for event-carrying elements materialized along the way.
///
/// A patch routed at a missing index or at a node of the wrong kind is an
/// internal-consistency failure between diffing and application; such patch
/// lists are ruled out by precondition rather than applied partially.
pub fn patch(root_node: LiveNode, patches: &Vec<Patch>, counter: &mut u32) -> (r: (
    LiveNode,
    Vec<(u32, Vec<u64>)>,
))
    requires
        forall|i: int|
            0 <= i < patches@.len() ==> routable(root_node@, #[trigger] patches@[i]@),
        *old(counter) + apply_count(root_node@, patches_view(patches@), 0) <= u32::MAX,
        glive_size(root_node@) <= usize::MAX,
    ensures
        r.0@ == apply_tree(root_node@, patches_view(patches@), 0),
        *old(counter) <= *final(counter) <= *old(counter) + apply_count(
            root_node@,
            patches_view(patches@),
            0,
        ),
        forall|j: int|
            0 <= j < r.1@.len() ==> *old(counter) < #[trigger] r.1@[j].0 <= *final(counter),
{
    let mut registry: Vec<(u32, Vec<u64>)> = Vec::new();
    let new_root = apply_tree_exec(root_node, patches, 0, counter, &mut registry);
    (new_root, registry)
}

} // verus!
