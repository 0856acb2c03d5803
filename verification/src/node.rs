//! The node graph: a generic federated object, its references, and the
//! resolver capability that materializes a reference.
//!
//! `Node` keeps exactly the projections the traversal consults; a `NodeRef`
//! is either an inline node or a bare link (href) that a `LinkResolver`
//! turns into a node.  The view of a node is its `NodeModel` (see the
//! `model` module), which every contract speaks of.

use crate::model::node_model;
use crate::model::ref_model;
use crate::model::refs_model;
use crate::model::NodeModel;
use crate::model::RefModel;
use vstd::prelude::*;

verus! {

broadcast use crate::model::lemma_refs_model;

/// A federated object, reduced to the fields the traversal reads.
///
/// Collection form: `total_items`, `items`, `first`; ordered-collection
/// form: `ordered_items`; page form: `next`; activity form: `object`;
/// plain-object form: `url`, `content`, `in_reply_to`, `attachment`,
/// `media_type`; extension: `sensitive`.
#[derive(Debug)]
pub struct Node {
    pub typ: Vec<String>,
    pub id: Option<String>,
    pub total_items: Option<usize>,
    pub items: Vec<NodeRef>,
    pub first: Option<Box<NodeRef>>,
    pub ordered_items: Vec<NodeRef>,
    pub next: Option<Box<NodeRef>>,
    pub object: Vec<NodeRef>,
    pub url: Option<String>,
    pub content: Vec<String>,
    pub in_reply_to: Vec<NodeRef>,
    pub attachment: Vec<NodeRef>,
    pub media_type: Vec<String>,
    pub sensitive: Option<bool>,
}

/// A reference to a node: fully materialized inline, or a link (an href)
/// that must be resolved before the node behind it can be inspected.
#[derive(Debug)]
pub enum NodeRef {
    Inline(Box<Node>),
    Link(String),
}

impl View for Node {
    type V = NodeModel;

    open spec fn view(&self) -> NodeModel {
        node_model(*self)
    }
}

impl View for NodeRef {
    type V = RefModel;

    open spec fn view(&self) -> RefModel {
        ref_model(*self)
    }
}

/// A deep copy of a list of references; the copy has the same models.
fn clone_refs(v: &Vec<NodeRef>) -> (r: Vec<NodeRef>)
    ensures
        refs_model(r@) == refs_model(v@),
    decreases v@,
{
    let mut r: Vec<NodeRef> = Vec::new();
    let mut i: usize = 0;
    while i < v.len()
        invariant
            i <= v@.len(),
            r@.len() == i,
            forall|j: int| 0 <= j < i ==> ref_model(#[trigger] r@[j]) == ref_model(v@[j]),
        decreases v@.len() - i,
    {
        r.push(v[i].clone());
        i = i + 1;
    }
    proof {
        assert(refs_model(r@) =~= refs_model(v@));
    }
    r
}

/// A deep copy of an optional reference; the copy has the same model.
fn clone_opt_ref(o: &Option<Box<NodeRef>>) -> (r: Option<Box<NodeRef>>)
    ensures
        crate::model::opt_ref_model(r) == crate::model::opt_ref_model(*o),
    decreases o,
{
    match o {
        Some(b) => Some(Box::new((**b).clone())),
        None => None,
    }
}

impl Clone for NodeRef {
    /// A deep copy; the copy has the same model.
    fn clone(&self) -> (r: Self)
        ensures
            r@ == self@,
        decreases *self,
    {
        match self {
            NodeRef::Inline(n) => NodeRef::Inline(Box::new((**n).clone())),
            NodeRef::Link(h) => NodeRef::Link(h.clone()),
        }
    }
}

impl Clone for Node {
    /// A deep copy; the copy has the same model.
    fn clone(&self) -> (r: Self)
        ensures
            r@ == self@,
        decreases *self,
    {
        let r = Node {
            typ: self.typ.clone(),
            id: self.id.clone(),
            total_items: self.total_items,
            items: clone_refs(&self.items),
            first: clone_opt_ref(&self.first),
            ordered_items: clone_refs(&self.ordered_items),
            next: clone_opt_ref(&self.next),
            object: clone_refs(&self.object),
            url: self.url.clone(),
            content: self.content.clone(),
            in_reply_to: clone_refs(&self.in_reply_to),
            attachment: clone_refs(&self.attachment),
            media_type: self.media_type.clone(),
            sensitive: self.sensitive,
        };
        proof {
            assert(r.typ@ =~= self.typ@);
            assert(r.content@ =~= self.content@);
            assert(r.media_type@ =~= self.media_type@);
            assert(r@ =~= self@);
        }
        r
    }
}

/// An opaque failure of the resolver capability: the network fetch or the
/// decode behind a link did not produce a node.
#[derive(Debug)]
pub struct ResolveError {
    pub message: String,
}

/// The capability that materializes a link: given a dereferenceable URL it
/// returns the node that inline embedding would have produced, or fails.
///
/// Nothing is promised of the returned node; every caller in this crate is
/// verified for every node an implementation may hand back.
pub trait LinkResolver {
    fn resolve(&self, url: &str) -> Result<Node, ResolveError>;
}

} // verus!
