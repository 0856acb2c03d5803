//! The mathematical shape of the node graph.
//!
//! `NodeModel` and `RefModel` mirror `Node` and `NodeRef` with every text a
//! `Seq<char>` and every list a `Seq`; the contracts of the whole crate are
//! stated over them.

use crate::node::Node;
use crate::node::NodeRef;
use vstd::prelude::*;

verus! {

/// Mathematical shape of a `Node`: every text is a `Seq<char>`, every list
/// a `Seq`.
#[verifier::ext_equal]
pub struct NodeModel {
    pub typ: Seq<Seq<char>>,
    pub id: Option<Seq<char>>,
    pub total_items: Option<usize>,
    pub items: Seq<RefModel>,
    pub first: Option<RefModel>,
    pub ordered_items: Seq<RefModel>,
    pub next: Option<RefModel>,
    pub object: Seq<RefModel>,
    pub url: Option<Seq<char>>,
    pub content: Seq<Seq<char>>,
    pub in_reply_to: Seq<RefModel>,
    pub attachment: Seq<RefModel>,
    pub media_type: Seq<Seq<char>>,
    pub sensitive: Option<bool>,
}

/// Mathematical shape of a `NodeRef`.
#[verifier::ext_equal]
pub enum RefModel {
    Inline(Box<NodeModel>),
    Link(Seq<char>),
}

/// The views of a sequence of strings.
pub open spec fn strings_model(s: Seq<String>) -> Seq<Seq<char>> {
    s.map_values(|x: String| x@)
}

/// The view of an optional string.
pub open spec fn opt_string_model(s: Option<String>) -> Option<Seq<char>> {
    match s {
        Some(x) => Some(x@),
        None => None,
    }
}

/// The model of a reference.
pub open spec fn ref_model(r: NodeRef) -> RefModel
    decreases r,
{
    match r {
        NodeRef::Inline(n) => RefModel::Inline(Box::new(node_model(*n))),
        NodeRef::Link(href) => RefModel::Link(href@),
    }
}

/// The models of a sequence of references, in order.
pub open spec fn refs_model(s: Seq<NodeRef>) -> Seq<RefModel>
    decreases s,
{
    if s.len() == 0 {
        Seq::empty()
    } else {
        seq![ref_model(s[0])] + refs_model(s.subrange(1, s.len() as int))
    }
}

/// The model of an optional (boxed) reference.
pub open spec fn opt_ref_model(r: Option<Box<NodeRef>>) -> Option<RefModel>
    decreases r,
{
    match r {
        Some(b) => Some(ref_model(*b)),
        None => None,
    }
}

/// The model of a node.
pub open spec fn node_model(n: Node) -> NodeModel
    decreases n,
{
    NodeModel {
        typ: strings_model(n.typ@),
        id: opt_string_model(n.id),
        total_items: n.total_items,
        items: refs_model(n.items@),
        first: opt_ref_model(n.first),
        ordered_items: refs_model(n.ordered_items@),
        next: opt_ref_model(n.next),
        object: refs_model(n.object@),
        url: opt_string_model(n.url),
        content: strings_model(n.content@),
        in_reply_to: refs_model(n.in_reply_to@),
        attachment: refs_model(n.attachment@),
        media_type: strings_model(n.media_type@),
        sensitive: n.sensitive,
    }
}

/// Whether every reference in the sequence is inline: walking them needs no
/// resolution.
pub open spec fn all_inline(s: Seq<RefModel>) -> bool {
    forall|i: int| 0 <= i < s.len() ==> s[i] is Inline
}

/// The nodes behind a sequence of inline references, in order (meaningful
/// under `all_inline`).
pub open spec fn inline_nodes(s: Seq<RefModel>) -> Seq<NodeModel> {
    s.map_values(
        |r: RefModel|
            match r {
                RefModel::Inline(n) => *n,
                RefModel::Link(_) => arbitrary(),
            },
    )
}

/// `refs_model` maps `ref_model` over the sequence, element by element.
pub broadcast proof fn lemma_refs_model(s: Seq<NodeRef>)
    ensures
        #![trigger refs_model(s)]
        refs_model(s).len() == s.len(),
        forall|i: int| 0 <= i < s.len() ==> refs_model(s)[i] == ref_model(s[i]),
    decreases s,
{
    if s.len() > 0 {
        lemma_refs_model(s.subrange(1, s.len() as int));
    }
}

} // verus!
