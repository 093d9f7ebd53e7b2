//! The diff engine: compares two tree snapshots and emits a minimal ordered
//! list of index-addressed mutation instructions.

use vstd::prelude::*;
use crate::node::{
    GNode, VirtualNode, VirtualNodeText, assoc_get, assoc_has, clone_node, gnode_size, gnode_wf,
    gnodes_size, gnodes_wf, lemma_assoc_get_entry, lemma_view_children, props_view, str_eq,
};

verus! {

broadcast use vstd::std_specs::vec::group_vec_axioms, vstd::seq::axiom_seq_index_decreases;

/// One mutation instruction, addressed by the structural index of its target
/// in the tree that the live document currently reflects.
///
/// The attribute patches and the child-list patches apply only to
/// element-positioned indices; `ChangeText` applies only to text-positioned
/// indices.
#[derive(Debug, PartialEq)]
pub enum Patch {
    /// Add (or overwrite) each listed attribute on the target element.
    AddAttributes(usize, Vec<(String, String)>),
    /// Remove each named attribute from the target element.
    RemoveAttributes(usize, Vec<String>),
    /// Replace the target node with the given subtree, materialized wholesale.
    Replace(usize, VirtualNode),
    /// Materialize and append each given subtree to the target element.
    AppendChildren(usize, Vec<VirtualNode>),
    /// Remove trailing children of the target element beyond the keep-count.
    TruncateChildren(usize, usize),
    /// Overwrite the target text node's payload.
    ChangeText(usize, VirtualNodeText),
}

/// Mathematical model of a patch.
#[verifier::ext_equal]
pub enum GPatch {
    AddAttributes(int, Seq<(Seq<char>, Seq<char>)>),
    RemoveAttributes(int, Seq<Seq<char>>),
    Replace(int, GNode),
    AppendChildren(int, Seq<GNode>),
    TruncateChildren(int, int),
    ChangeText(int, Seq<char>),
}

/// View of a list of attribute names.
pub open spec fn keys_view(v: Seq<String>) -> Seq<Seq<char>> {
    Seq::new(v.len(), |i: int| v[i]@)
}

impl View for Patch {
    type V = GPatch;

    open spec fn view(&self) -> GPatch {
        match self {
            Patch::AddAttributes(idx, attrs) => GPatch::AddAttributes(
                *idx as int,
                props_view(attrs@),
            ),
            Patch::RemoveAttributes(idx, names) => GPatch::RemoveAttributes(
                *idx as int,
                keys_view(names@),
            ),
            Patch::Replace(idx, n) => GPatch::Replace(*idx as int, n@),
            Patch::AppendChildren(idx, ns) => GPatch::AppendChildren(
                *idx as int,
                VirtualNode::view_children(ns@),
            ),
            Patch::TruncateChildren(idx, keep) => GPatch::TruncateChildren(
                *idx as int,
                *keep as int,
            ),
            Patch::ChangeText(idx, t) => GPatch::ChangeText(*idx as int, t@),
        }
    }
}

/// The structural index a patch targets.
pub open spec fn gpatch_idx(p: GPatch) -> int {
    match p {
        GPatch::AddAttributes(idx, _) => idx,
        GPatch::RemoveAttributes(idx, _) => idx,
        GPatch::Replace(idx, _) => idx,
        GPatch::AppendChildren(idx, _) => idx,
        GPatch::TruncateChildren(idx, _) => idx,
        GPatch::ChangeText(idx, _) => idx,
    }
}

impl Patch {
    /// The structural index this patch targets.
    pub fn node_idx(&self) -> (r: usize)
        ensures
            r as int == gpatch_idx(self@),
    {
        match self {
            Patch::AddAttributes(idx, _) => *idx,
            Patch::RemoveAttributes(idx, _) => *idx,
            Patch::Replace(idx, _) => *idx,
            Patch::AppendChildren(idx, _) => *idx,
            Patch::TruncateChildren(idx, _) => *idx,
            Patch::ChangeText(idx, _) => *idx,
        }
    }
}

/// View of a patch list.
pub open spec fn patches_view(s: Seq<Patch>) -> Seq<GPatch> {
    Seq::new(s.len(), |i: int| s[i]@)
}

/// Entries of the new attribute list whose key is absent from the old list or
/// bound there to a different value, in new-list order.
pub open spec fn attrs_to_add(
    old_attrs: Seq<(Seq<char>, Seq<char>)>,
    new_attrs: Seq<(Seq<char>, Seq<char>)>,
) -> Seq<(Seq<char>, Seq<char>)>
    decreases new_attrs,
{
    if new_attrs.len() == 0 {
        Seq::empty()
    } else {
        let rest = attrs_to_add(old_attrs, new_attrs.drop_first());
        if !assoc_has(old_attrs, new_attrs[0].0) || assoc_get(old_attrs, new_attrs[0].0)
            != new_attrs[0].1 {
            seq![new_attrs[0]] + rest
        } else {
            rest
        }
    }
}

/// Keys of the old attribute list that are absent from the new list, in
/// old-list order.
pub open spec fn attrs_to_remove(
    old_attrs: Seq<(Seq<char>, Seq<char>)>,
    new_attrs: Seq<(Seq<char>, Seq<char>)>,
) -> Seq<Seq<char>>
    decreases old_attrs,
{
    if old_attrs.len() == 0 {
        Seq::empty()
    } else {
        let rest = attrs_to_remove(old_attrs.drop_first(), new_attrs);
        if !assoc_has(new_attrs, old_attrs[0].0) {
            seq![old_attrs[0].0] + rest
        } else {
            rest
        }
    }
}

/// The ordered patch list that transforms a live document reflecting
/// `old_n` into one reflecting `new_n`, when `old_n` sits at structural
/// index `idx`.
///
/// Within one element the order is: attribute additions, attribute removals,
/// the patches for the pairwise-diffed children in ascending position, then
/// one `AppendChildren` or one `TruncateChildren` if the child count grew or
/// shrank. A tag or kind mismatch replaces the whole subtree, with no
/// descent. Event maps are never compared, so a handler-only change yields
/// no patch.
pub open spec fn spec_diff(old_n: GNode, new_n: GNode, idx: int) -> Seq<GPatch>
    decreases old_n,
{
    match (old_n, new_n) {
        (GNode::Text { text: ta }, GNode::Text { text: tb }) => if ta == tb {
            Seq::empty()
        } else {
            seq![GPatch::ChangeText(idx, tb)]
        },
        (
            GNode::Element { tag: taga, attrs: aa, children: ca, .. },
            GNode::Element { tag: tagb, attrs: ab, children: cb, .. },
        ) => {
            if taga != tagb {
                seq![GPatch::Replace(idx, new_n)]
            } else {
                let adds = attrs_to_add(aa, ab);
                let removes = attrs_to_remove(aa, ab);
                (if adds.len() > 0 {
                    seq![GPatch::AddAttributes(idx, adds)]
                } else {
                    Seq::empty()
                }) + (if removes.len() > 0 {
                    seq![GPatch::RemoveAttributes(idx, removes)]
                } else {
                    Seq::empty()
                }) + spec_diff_children(ca, cb, idx + 1) + (if cb.len() > ca.len() {
                    seq![GPatch::AppendChildren(idx, cb.skip(ca.len() as int))]
                } else {
                    Seq::empty()
                }) + (if cb.len() < ca.len() {
                    seq![GPatch::TruncateChildren(idx, cb.len() as int)]
                } else {
                    Seq::empty()
                })
            }
        },
        _ => seq![GPatch::Replace(idx, new_n)],
    }
}

/// Patches for the children compared pairwise by position, the first pair at
/// index `idx`, each further pair past the whole subtree the old child
/// occupies.
pub open spec fn spec_diff_children(olds: Seq<GNode>, news: Seq<GNode>, idx: int) -> Seq<GPatch>
    decreases olds,
{
    if olds.len() == 0 || news.len() == 0 {
        Seq::empty()
    } else {
        spec_diff(olds[0], news[0], idx) + spec_diff_children(
            olds.drop_first(),
            news.drop_first(),
            idx + gnode_size(olds[0]),
        )
    }
}

/// When every entry of the new list is already bound to the same value in
/// the old list, there is nothing to add.
proof fn lemma_attrs_to_add_covered(
    old_attrs: Seq<(Seq<char>, Seq<char>)>,
    new_attrs: Seq<(Seq<char>, Seq<char>)>,
)
    requires
        forall|i: int|
            0 <= i < new_attrs.len() ==> assoc_has(old_attrs, #[trigger] new_attrs[i].0)
                && assoc_get(old_attrs, new_attrs[i].0) == new_attrs[i].1,
    ensures
        attrs_to_add(old_attrs, new_attrs) == Seq::<(Seq<char>, Seq<char>)>::empty(),
    decreases new_attrs,
{
    if new_attrs.len() > 0 {
        assert(forall|i: int|
            0 <= i < new_attrs.drop_first().len() ==> #[trigger] new_attrs.drop_first()[i]
                == new_attrs[i + 1]);
        lemma_attrs_to_add_covered(old_attrs, new_attrs.drop_first());
    }
}

/// When every key of the old list is still present in the new list, there is
/// nothing to remove.
proof fn lemma_attrs_to_remove_covered(
    old_attrs: Seq<(Seq<char>, Seq<char>)>,
    new_attrs: Seq<(Seq<char>, Seq<char>)>,
)
    requires
        forall|i: int|
            0 <= i < old_attrs.len() ==> assoc_has(new_attrs, #[trigger] old_attrs[i].0),
    ensures
        attrs_to_remove(old_attrs, new_attrs) == Seq::<Seq<char>>::empty(),
    decreases old_attrs,
{
    if old_attrs.len() > 0 {
        assert(forall|i: int|
            0 <= i < old_attrs.drop_first().len() ==> #[trigger] old_attrs.drop_first()[i]
                == old_attrs[i + 1]);
        lemma_attrs_to_remove_covered(old_attrs.drop_first(), new_attrs);
    }
}

/// Round-trip law: diffing a well-formed tree against itself yields an empty
/// patch list, wherever the tree sits in the index numbering.
pub proof fn lemma_diff_reflexive(n: GNode, idx: int)
    requires
        gnode_wf(n),
    ensures
        spec_diff(n, n, idx) == Seq::<GPatch>::empty(),
    decreases n,
{
    match n {
        GNode::Text { .. } => {},
        GNode::Element { attrs, children, .. } => {
            assert forall|i: int|
                0 <= i < attrs.len() implies assoc_has(attrs, #[trigger] attrs[i].0) && assoc_get(
                attrs,
                attrs[i].0,
            ) == attrs[i].1 by {
                lemma_assoc_get_entry(attrs, i);
            }
            lemma_attrs_to_add_covered(attrs, attrs);
            lemma_attrs_to_remove_covered(attrs, attrs);
            lemma_diff_children_reflexive(children, idx + 1);
            assert(spec_diff(n, n, idx) =~= Seq::<GPatch>::empty());
        },
    }
}

/// Diffing a well-formed child sequence against itself yields no patches.
pub proof fn lemma_diff_children_reflexive(s: Seq<GNode>, idx: int)
    requires
        gnodes_wf(s),
    ensures
        spec_diff_children(s, s, idx) == Seq::<GPatch>::empty(),
    decreases s,
{
    if s.len() > 0 {
        lemma_diff_reflexive(s[0], idx);
        lemma_diff_children_reflexive(s.drop_first(), idx + gnode_size(s[0]));
        assert(spec_diff_children(s, s, idx) =~= Seq::<GPatch>::empty());
    }
}

/// Splitting a child sequence splits its index-slot count.
pub proof fn lemma_gnodes_size_split(s: Seq<GNode>, i: int)
    requires
        0 <= i <= s.len(),
    ensures
        gnodes_size(s) == gnodes_size(s.take(i)) + gnodes_size(s.skip(i)),
    decreases i,
{
    if i == 0 {
        assert(s.take(0) =~= Seq::<GNode>::empty());
        assert(s.skip(0) =~= s);
    } else {
        lemma_gnodes_size_split(s.drop_first(), i - 1);
        assert(s.take(i).drop_first() =~= s.drop_first().take(i - 1));
        assert(s.skip(i) =~= s.drop_first().skip(i - 1));
        assert(gnodes_size(s.take(i)) == gnode_size(s[0]) + gnodes_size(s.drop_first().take(i - 1)));
    }
}

/// One step of the skip decomposition of the index-slot count.
pub proof fn lemma_gnodes_size_skip(s: Seq<GNode>, i: int)
    requires
        0 <= i < s.len(),
    ensures
        gnodes_size(s.skip(i)) == gnode_size(s[i]) + gnodes_size(s.skip(i + 1)),
{
    assert(s.skip(i)[0] == s[i]);
    assert(s.skip(i).drop_first() =~= s.skip(i + 1));
}

/// One step of the take decomposition of the index-slot count.
pub proof fn lemma_gnodes_size_take(s: Seq<GNode>, i: int)
    requires
        0 <= i < s.len(),
    ensures
        gnodes_size(s.take(i + 1)) == gnodes_size(s.take(i)) + gnode_size(s[i]),
{
    lemma_gnodes_size_split(s, i);
    lemma_gnodes_size_split(s, i + 1);
    lemma_gnodes_size_skip(s, i);
    assert(s.skip(i).drop_first() =~= s.skip(i + 1));
}

/// The number of structural index slots a subtree occupies.
#[verifier::loop_isolation(false)]
pub fn node_count(n: &VirtualNode) -> (r: usize)
    requires
        gnode_size(n@) <= usize::MAX,
    ensures
        r == gnode_size(n@),
    decreases n,
{
    match n {
        VirtualNode::Text(_) => 1,
        VirtualNode::Element(e) => {
            proof {
                assert(*n == VirtualNode::Element(*e));
                lemma_view_children(e.children@);
            }
            let ghost kids = VirtualNode::view_children(e.children@);
            proof {
                assert(kids.skip(0) =~= kids);
                assert(kids.take(0) =~= Seq::<GNode>::empty());
            }
            let mut total: usize = 1;
            let mut i: usize = 0;
            while i < e.children.len()
                invariant
                    i <= e.children.len(),
                    total == 1 + gnodes_size(kids.take(i as int)),
                    total + gnodes_size(kids.skip(i as int)) == gnode_size(n@),
                decreases e.children.len() - i,
            {
                proof {
                    vstd::std_specs::vec::axiom_vec_index_decreases(e.children, i as int);
                    lemma_gnodes_size_take(kids, i as int);
                    lemma_gnodes_size_skip(kids, i as int);
                }
                let c = node_count(&e.children[i]);
                total = total + c;
                i = i + 1;
            }
            proof {
                assert(kids.take(e.children.len() as int) =~= kids);
            }
            total
        },
    }
}

/// First value bound to the key in the attribute list, if any.
#[verifier::loop_isolation(false)]
pub fn props_lookup(v: &Vec<(String, String)>, key: &str) -> (r: Option<String>)
    ensures
        match r {
            Some(s) => assoc_has(props_view(v@), key@) && s@ == assoc_get(props_view(v@), key@),
            None => !assoc_has(props_view(v@), key@),
        },
{
    let mut i: usize = 0;
    while i < v.len()
        invariant
            i <= v.len(),
            forall|j: int| 0 <= j < i ==> props_view(v@)[j].0 != key@,
        decreases v.len() - i,
    {
        if str_eq(v[i].0.as_str(), key) {
            proof {
                lemma_assoc_get_first(props_view(v@), key@, i as int);
            }
            return Some(v[i].1.clone());
        }
        i = i + 1;
    }
    None
}

/// `assoc_get` returns the first entry that matches.
pub proof fn lemma_assoc_get_first<V>(m: Seq<(Seq<char>, V)>, k: Seq<char>, i: int)
    requires
        0 <= i < m.len(),
        m[i].0 == k,
        forall|j: int| 0 <= j < i ==> m[j].0 != k,
    ensures
        assoc_has(m, k),
        assoc_get(m, k) == m[i].1,
    decreases i,
{
    if i > 0 {
        assert(forall|j: int| 0 <= j < i - 1 ==> m.drop_first()[j] == m[j + 1]);
        assert(m.drop_first()[i - 1] == m[i]);
        lemma_assoc_get_first(m.drop_first(), k, i - 1);
    }
}

/// The attribute additions and changes from the old to the new list.
#[verifier::loop_isolation(false)]
pub fn diff_attrs_to_add(
    old_attrs: &Vec<(String, String)>,
    new_attrs: &Vec<(String, String)>,
) -> (r: Vec<(String, String)>)
    ensures
        props_view(r@) == attrs_to_add(props_view(old_attrs@), props_view(new_attrs@)),
{
    let ghost oa = props_view(old_attrs@);
    let ghost na = props_view(new_attrs@);
    let mut r: Vec<(String, String)> = Vec::new();
    proof {
        assert(na.skip(0) =~= na);
        assert(props_view(r@) + attrs_to_add(oa, na) =~= attrs_to_add(oa, na));
    }
    let mut i: usize = 0;
    while i < new_attrs.len()
        invariant
            i <= new_attrs.len(),
            props_view(r@) + attrs_to_add(oa, na.skip(i as int)) == attrs_to_add(oa, na),
        decreases new_attrs.len() - i,
    {
        proof {
            assert(na.skip(i as int)[0] == na[i as int]);
            assert(na.skip(i as int).drop_first() =~= na.skip(i as int + 1));
        }
        let key = &new_attrs[i].0;
        let val = &new_attrs[i].1;
        let looked = props_lookup(old_attrs, key.as_str());
        let differs: bool = match looked {
            Option::None => true,
            Option::Some(old_val) => !(old_val == *val),
        };
        if differs {
            r.push((key.clone(), val.clone()));
            proof {
                assert(props_view(r@) =~= props_view(r@.drop_last()) + seq![na[i as int]]);
                assert(props_view(r@.drop_last()) + (seq![na[i as int]] + attrs_to_add(
                    oa,
                    na.skip(i as int + 1),
                )) =~= props_view(r@) + attrs_to_add(oa, na.skip(i as int + 1)));
            }
        }
        i = i + 1;
    }
    proof {
        assert(na.skip(new_attrs.len() as int) =~= Seq::<(Seq<char>, Seq<char>)>::empty());
        assert(props_view(r@) + Seq::<(Seq<char>, Seq<char>)>::empty() =~= props_view(r@));
    }
    r
}

/// The attribute keys the new list no longer carries.
#[verifier::loop_isolation(false)]
pub fn diff_attrs_to_remove(
    old_attrs: &Vec<(String, String)>,
    new_attrs: &Vec<(String, String)>,
) -> (r: Vec<String>)
    ensures
        keys_view(r@) == attrs_to_remove(props_view(old_attrs@), props_view(new_attrs@)),
{
    let ghost oa = props_view(old_attrs@);
    let ghost na = props_view(new_attrs@);
    let mut r: Vec<String> = Vec::new();
    proof {
        assert(oa.skip(0) =~= oa);
        assert(keys_view(r@) + attrs_to_remove(oa, na) =~= attrs_to_remove(oa, na));
    }
    let mut i: usize = 0;
    while i < old_attrs.len()
        invariant
            i <= old_attrs.len(),
            keys_view(r@) + attrs_to_remove(oa.skip(i as int), na) == attrs_to_remove(oa, na),
        decreases old_attrs.len() - i,
    {
        proof {
            assert(oa.skip(i as int)[0] == oa[i as int]);
            assert(oa.skip(i as int).drop_first() =~= oa.skip(i as int + 1));
        }
        let key = &old_attrs[i].0;
        let looked = props_lookup(new_attrs, key.as_str());
        if looked.is_none() {
            r.push(key.clone());
            proof {
                assert(keys_view(r@) =~= keys_view(r@.drop_last()) + seq![oa[i as int].0]);
                assert(keys_view(r@.drop_last()) + (seq![oa[i as int].0] + attrs_to_remove(
                    oa.skip(i as int + 1),
                    na,
                )) =~= keys_view(r@) + attrs_to_remove(oa.skip(i as int + 1), na));
            }
        }
        i = i + 1;
    }
    proof {
        assert(oa.skip(old_attrs.len() as int) =~= Seq::<(Seq<char>, Seq<char>)>::empty());
        assert(keys_view(r@) + Seq::<Seq<char>>::empty() =~= keys_view(r@));
    }
    r
}

/// Deep copies of the children from position `from` on, in order.
#[verifier::loop_isolation(false)]
fn clone_children_from(children: &Vec<VirtualNode>, from: usize) -> (r: Vec<VirtualNode>)
    requires
        from <= children.len(),
    ensures
        VirtualNode::view_children(r@) == VirtualNode::view_children(children@).skip(from as int),
{
    let mut r: Vec<VirtualNode> = Vec::new();
    let mut i: usize = from;
    while i < children.len()
        invariant
            from <= i <= children.len(),
            r@.len() == i - from,
            forall|j: int| 0 <= j < r@.len() ==> r@[j]@ == children@[from + j]@,
        decreases children.len() - i,
    {
        let c = clone_node(&children[i]);
        r.push(c);
        i = i + 1;
    }
    proof {
        lemma_view_children(r@);
        lemma_view_children(children@);
        assert(VirtualNode::view_children(r@) =~= VirtualNode::view_children(children@).skip(
            from as int,
        ));
    }
    r
}

/// Compare an old and a new tree snapshot and produce the ordered patch list
/// that transforms a live document reflecting the old tree into one
/// reflecting the new tree, addressed by structural index starting at zero.
pub fn diff(old_node: &VirtualNode, new_node: &VirtualNode) -> (patches: Vec<Patch>)
    requires
        gnode_size(old_node@) <= usize::MAX,
    ensures
        patches_view(patches@) == spec_diff(old_node@, new_node@, 0),
{
    let mut patches: Vec<Patch> = Vec::new();
    diff_recursive(old_node, new_node, 0, &mut patches);
    proof {
        assert(patches_view(Seq::<Patch>::empty()) =~= Seq::<GPatch>::empty());
        assert(patches_view(patches@) =~= spec_diff(old_node@, new_node@, 0));
    }
    patches
}

/// Diff one old/new pair sitting at structural index `idx`, appending its
/// patches to `patches`.
#[verifier::loop_isolation(false)]
#[verifier::rlimit(60)]
fn diff_recursive(
    old_node: &VirtualNode,
    new_node: &VirtualNode,
    idx: usize,
    patches: &mut Vec<Patch>,
)
    requires
        idx + gnode_size(old_node@) <= usize::MAX,
    ensures
        patches_view(final(patches)@) == patches_view(old(patches)@) + spec_diff(
            old_node@,
            new_node@,
            idx as int,
        ),
    decreases old_node,
{
    match (old_node, new_node) {
        (VirtualNode::Text(ta), VirtualNode::Text(tb)) => {
            if !str_eq(ta.text.as_str(), tb.text.as_str()) {
                patches.push(Patch::ChangeText(idx, VirtualNodeText { text: tb.text.clone() }));
                proof {
                    assert(patches_view(patches@) =~= patches_view(old(patches)@) + spec_diff(
                        old_node@,
                        new_node@,
                        idx as int,
                    ));
                }
            } else {
                proof {
                    assert(patches_view(patches@) =~= patches_view(old(patches)@) + spec_diff(
                        old_node@,
                        new_node@,
                        idx as int,
                    ));
                }
            }
        },
        (VirtualNode::Element(ea), VirtualNode::Element(eb)) => {
            proof {
                assert(*old_node == VirtualNode::Element(*ea));
            }
            if !str_eq(ea.tag.as_str(), eb.tag.as_str()) {
                let replacement = clone_node(new_node);
                patches.push(Patch::Replace(idx, replacement));
                proof {
                    assert(patches_view(patches@) =~= patches_view(old(patches)@) + spec_diff(
                        old_node@,
                        new_node@,
                        idx as int,
                    ));
                }
            } else {
                let ghost aa = props_view(ea.props@);
                let ghost ab = props_view(eb.props@);
                let ghost ca = VirtualNode::view_children(ea.children@);
                let ghost cb = VirtualNode::view_children(eb.children@);
                proof {
                    lemma_view_children(ea.children@);
                    lemma_view_children(eb.children@);
                }
                let adds = diff_attrs_to_add(&ea.props, &eb.props);
                if adds.len() > 0 {
                    patches.push(Patch::AddAttributes(idx, adds));
                }
                let removes = diff_attrs_to_remove(&ea.props, &eb.props);
                if removes.len() > 0 {
                    patches.push(Patch::RemoveAttributes(idx, removes));
                }
                let ghost base = patches_view(patches@);
                proof {
                    assert(base =~= patches_view(old(patches)@) + (if attrs_to_add(aa, ab).len()
                        > 0 {
                        seq![GPatch::AddAttributes(idx as int, attrs_to_add(aa, ab))]
                    } else {
                        Seq::<GPatch>::empty()
                    }) + (if attrs_to_remove(aa, ab).len() > 0 {
                        seq![GPatch::RemoveAttributes(idx as int, attrs_to_remove(aa, ab))]
                    } else {
                        Seq::<GPatch>::empty()
                    }));
                }
                let min_count: usize = if ea.children.len() < eb.children.len() {
                    ea.children.len()
                } else {
                    eb.children.len()
                };
                let mut child_idx: usize = idx + 1;
                let ghost mut built: Seq<GPatch> = Seq::empty();
                let mut i: usize = 0;
                proof {
                    assert(ca.take(0) =~= Seq::<GNode>::empty());
                    assert(ca.skip(0) =~= ca);
                    assert(cb.skip(0) =~= cb);
                    assert(Seq::<GPatch>::empty() + spec_diff_children(ca, cb, idx + 1)
                        =~= spec_diff_children(ca, cb, idx + 1));
                }
                while i < min_count
                    invariant
                        i <= min_count,
                        patches_view(patches@) == base + built,
                        built + spec_diff_children(
                            ca.skip(i as int),
                            cb.skip(i as int),
                            child_idx as int,
                        ) == spec_diff_children(ca, cb, idx + 1),
                        child_idx == idx + 1 + gnodes_size(ca.take(i as int)),
                        child_idx + gnodes_size(ca.skip(i as int)) <= idx + gnode_size(old_node@),
                    decreases min_count - i,
                {
                    proof {
                        vstd::std_specs::vec::axiom_vec_index_decreases(ea.children, i as int);
                        lemma_gnodes_size_take(ca, i as int);
                        lemma_gnodes_size_skip(ca, i as int);
                        assert(ca.skip(i as int)[0] == ca[i as int]);
                        assert(cb.skip(i as int)[0] == cb[i as int]);
                        assert(ca.skip(i as int).drop_first() =~= ca.skip(i as int + 1));
                        assert(cb.skip(i as int).drop_first() =~= cb.skip(i as int + 1));
                    }
                    let c = node_count(&ea.children[i]);
                    diff_recursive(&ea.children[i], &eb.children[i], child_idx, patches);
                    proof {
                        built = built + spec_diff(ca[i as int], cb[i as int], child_idx as int);
                        assert(patches_view(patches@) =~= base + built);
                        assert(built + spec_diff_children(
                            ca.skip(i as int + 1),
                            cb.skip(i as int + 1),
                            child_idx + gnode_size(ca[i as int]),
                        ) =~= spec_diff_children(ca, cb, idx + 1));
                    }
                    child_idx = child_idx + c;
                    i = i + 1;
                }
                proof {
                    if ca.len() <= cb.len() {
                        assert(ca.skip(min_count as int).len() == 0);
                    } else {
                        assert(cb.skip(min_count as int).len() == 0);
                    }
                    assert(built =~= spec_diff_children(ca, cb, idx + 1));
                }
                if eb.children.len() > ea.children.len() {
                    let extras = clone_children_from(&eb.children, ea.children.len());
                    patches.push(Patch::AppendChildren(idx, extras));
                    proof {
                        assert(patches_view(patches@) =~= base + built + seq![
                            GPatch::AppendChildren(idx as int, cb.skip(ca.len() as int)),
                        ]);
                    }
                } else if eb.children.len() < ea.children.len() {
                    patches.push(Patch::TruncateChildren(idx, eb.children.len()));
                    proof {
                        assert(patches_view(patches@) =~= base + built + seq![
                            GPatch::TruncateChildren(idx as int, cb.len() as int),
                        ]);
                    }
                }
                proof {
                    assert(patches_view(patches@) =~= patches_view(old(patches)@) + spec_diff(
                        old_node@,
                        new_node@,
                        idx as int,
                    ));
                }
            }
        },
        _ => {
            let replacement = clone_node(new_node);
            patches.push(Patch::Replace(idx, replacement));
            proof {
                assert(patches_view(patches@) =~= patches_view(old(patches)@) + spec_diff(
                    old_node@,
                    new_node@,
                    idx as int,
                ));
            }
        },
    }
}

} // verus!
