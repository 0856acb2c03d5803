//! The collection walker: turns an outbox root into an ordered,
//! budget-limited sequence of activities.
//!
//! The walk drains the root's inline `items`, then its `ordered_items`;
//! only when both are empty does it follow the `first` page pointer and the
//! pages' `next` chain.  Every resolution failure aborts the walk and
//! discards what was gathered in that call.

use crate::model::all_inline;
use crate::model::inline_nodes;
use crate::model::node_model;
use crate::model::ref_model;
use crate::model::refs_model;
use crate::model::NodeModel;
use crate::model::RefModel;
use crate::node::LinkResolver;
use crate::node::Node;
use crate::node::NodeRef;
use crate::node::ResolveError;
use crate::views::Activity;
use vstd::prelude::*;

verus! {

broadcast use crate::model::lemma_refs_model;

/// The outbox: the root collection node of the walk.
#[derive(Debug)]
pub struct Outbox(pub Node);

impl View for Outbox {
    type V = NodeModel;

    open spec fn view(&self) -> NodeModel {
        self.0@
    }
}

/// The root declares itself empty: `total_items` is present and zero.  Such
/// a collection is never walked, whatever its lists or pages hold.
pub open spec fn declared_empty(root: NodeModel) -> bool {
    root.total_items == Some(0usize)
}

/// The root's inline entries: `items` first, then `ordered_items`.
pub open spec fn inline_refs(root: NodeModel) -> Seq<RefModel> {
    root.items + root.ordered_items
}

/// A page's entries: its `items` first, then its `ordered_items`.
pub open spec fn page_refs(p: NodeModel) -> Seq<RefModel> {
    p.items + p.ordered_items
}

/// How many entries of `refs` a walk with `budget` remaining consumes.
pub open spec fn consulted_len(budget: nat, refs: Seq<RefModel>) -> nat {
    if budget <= refs.len() {
        budget
    } else {
        refs.len()
    }
}

/// Whether the page chain behind `r` can be walked with `budget` remaining
/// without any resolution: the page itself and every entry the budget
/// reaches are inline, page by page until the walk stops.
pub open spec fn page_walk_ok(r: RefModel, budget: nat) -> bool
    decreases r,
{
    match r {
        RefModel::Link(_) => false,
        RefModel::Inline(p) => {
            let refs = page_refs(*p);
            if budget == 0 || refs.len() == 0 {
                true
            } else if budget <= refs.len() {
                all_inline(refs.take(budget as int))
            } else {
                all_inline(refs) && match (*p).next {
                    None => true,
                    Some(nr) => page_walk_ok(nr, (budget - refs.len()) as nat),
                }
            }
        },
    }
}

/// The nodes a resolution-free page walk yields: each page contributes its
/// entries up to the remaining budget; a page with no entries at all ends
/// the walk even if it declares a `next` pointer.
pub open spec fn page_walk(r: RefModel, budget: nat) -> Seq<NodeModel>
    decreases r,
{
    match r {
        RefModel::Link(_) => Seq::empty(),
        RefModel::Inline(p) => {
            let refs = page_refs(*p);
            if budget == 0 || refs.len() == 0 {
                Seq::empty()
            } else if budget <= refs.len() {
                inline_nodes(refs.take(budget as int))
            } else {
                match (*p).next {
                    None => inline_nodes(refs),
                    Some(nr) => inline_nodes(refs) + page_walk(nr, (budget - refs.len()) as nat),
                }
            }
        },
    }
}

/// Whether the whole walk needs no resolution: it is cut short at the
/// start, or every entry it reaches (inline lists, or else the page chain)
/// is inline.
pub open spec fn walk_ok(root: NodeModel, max_items: nat) -> bool {
    if declared_empty(root) || max_items == 0 {
        true
    } else if inline_refs(root).len() > 0 {
        all_inline(inline_refs(root).take(consulted_len(max_items, inline_refs(root)) as int))
    } else {
        match root.first {
            None => true,
            Some(f) => page_walk_ok(f, max_items),
        }
    }
}

/// The nodes a resolution-free walk yields, in source order: the inline
/// lists' entries up to the budget; or, when both lists are empty, the page
/// walk behind `first`.
pub open spec fn walk_result(root: NodeModel, max_items: nat) -> Seq<NodeModel> {
    if declared_empty(root) || max_items == 0 {
        Seq::empty()
    } else if inline_refs(root).len() > 0 {
        inline_nodes(inline_refs(root).take(consulted_len(max_items, inline_refs(root)) as int))
    } else {
        match root.first {
            None => Seq::empty(),
            Some(f) => page_walk(f, max_items),
        }
    }
}

/// A budget smaller than the number of inline entries cuts the
/// resolution-free walk to exactly the first `max_items` entries, in source
/// order: `items` before `ordered_items`.
pub proof fn lemma_budget_limits_inline_walk(root: NodeModel, max_items: nat)
    requires
        !declared_empty(root),
        0 < max_items < inline_refs(root).len(),
    ensures
        walk_result(root, max_items).len() == max_items,
        walk_result(root, max_items) == inline_nodes(inline_refs(root).take(max_items as int)),
{
}

/// Pagination is only consulted when both inline lists are empty: a root
/// with at least one inline entry is walked the same whatever stands
/// behind its `first` pointer.
pub proof fn lemma_first_not_consulted(r1: NodeModel, r2: NodeModel, max_items: nat)
    requires
        inline_refs(r1).len() > 0,
        r2 == (NodeModel { first: r2.first, ..r1 }),
    ensures
        walk_ok(r2, max_items) == walk_ok(r1, max_items),
        walk_result(r2, max_items) == walk_result(r1, max_items),
{
}

/// A page that yields no entries at all ends the walk, even when it
/// declares a `next` pointer: exhaustion overrides continuation.
pub proof fn lemma_empty_page_stops(r: RefModel, budget: nat)
    requires
        r matches RefModel::Inline(p) && page_refs(*p).len() == 0,
    ensures
        page_walk_ok(r, budget),
        page_walk(r, budget) == Seq::<NodeModel>::empty(),
{
}

/// A sequence pinned pointwise to the inline entries of a prefix of `refs`
/// is exactly the nodes of that prefix.
proof fn lemma_pinned_prefix(acts: Seq<NodeModel>, refs: Seq<RefModel>, k: int)
    requires
        0 <= k <= refs.len(),
        acts.len() == k,
        forall|i: int|
            0 <= i < k ==> (refs[i] matches RefModel::Inline(n) ==> #[trigger] acts[i] == *n),
        all_inline(refs.take(k)),
    ensures
        acts == inline_nodes(refs.take(k)),
{
    assert forall|i: int| 0 <= i < k implies acts[i] == inline_nodes(refs.take(k))[i] by {
        assert(refs.take(k)[i] == refs[i]);
        assert(refs.take(k)[i] is Inline);
    }
    assert(acts =~= inline_nodes(refs.take(k)));
}

/// Resolves up to `budget` entries of `refs` in order, appending one
/// activity per entry to `acc` and decrementing `budget` per entry; stops
/// as soon as the budget reaches zero.  A failed resolution aborts at once.
#[verifier::loop_isolation(false)]
fn drain_refs<R: LinkResolver>(
    refs: &Vec<NodeRef>,
    acc: &mut Vec<Activity>,
    budget: &mut usize,
    resolver: &R,
) -> (r: Result<(), ResolveError>)
    requires
        *old(budget) >= 1,
    ensures
        forall|k: int|
            0 <= k < old(acc)@.len() ==> #[trigger] final(acc).deep_view()[k]
                == old(acc).deep_view()[k],
        final(acc)@.len() >= old(acc)@.len(),
        r matches Ok(u) ==> final(acc)@.len() == old(acc)@.len() + consulted_len(
            *old(budget) as nat,
            refs_model(refs@),
        ),
        r matches Ok(u) ==> *final(budget) == *old(budget) - consulted_len(
            *old(budget) as nat,
            refs_model(refs@),
        ),
        r matches Ok(u) ==> forall|k: int|
            0 <= k < consulted_len(*old(budget) as nat, refs_model(refs@))
                ==> (refs_model(refs@)[k] matches RefModel::Inline(n)
                ==> #[trigger] final(acc).deep_view()[old(acc)@.len() + k] == *n),
        all_inline(
            refs_model(refs@).take(
                consulted_len(*old(budget) as nat, refs_model(refs@)) as int,
            ),
        ) ==> r is Ok,
{
    proof {
        crate::model::lemma_refs_model(refs@);
    }
    let ghost base: int = old(acc)@.len() as int;
    let mut i: usize = 0;
    while i < refs.len()
        invariant
            *old(budget) >= 1,
            i <= refs@.len(),
            i < *old(budget),
            *budget == *old(budget) - i,
            acc@.len() == base + i,
            refs_model(refs@).len() == refs@.len(),
            forall|j: int| 0 <= j < refs@.len() ==> refs_model(refs@)[j] == ref_model(refs@[j]),
            forall|k: int|
                0 <= k < base ==> #[trigger] acc.deep_view()[k] == old(acc).deep_view()[k],
            forall|k: int|
                0 <= k < i ==> (refs_model(refs@)[k] matches RefModel::Inline(n)
                    ==> #[trigger] acc.deep_view()[base + k] == *n),
        decreases refs@.len() - i,
    {
        let ghost pre_dv: Seq<NodeModel> = acc.deep_view();
        match &refs[i] {
            NodeRef::Inline(n) => {
                acc.push(Activity((**n).clone()));
                proof {
                    assert(acc.deep_view() =~= pre_dv.push(node_model(**n)));
                    assert(ref_model(refs@[i as int]) matches RefModel::Inline(b) && *b
                        == node_model(**n));
                }
            },
            NodeRef::Link(href) => match resolver.resolve(href.as_str()) {
                Ok(node) => {
                    acc.push(Activity(node));
                    proof {
                        assert(acc.deep_view() =~= pre_dv.push(node@));
                    }
                },
                Err(e) => {
                    proof {
                        assert(refs_model(refs@)[i as int] is Link);
                        assert(consulted_len(*old(budget) as nat, refs_model(refs@)) > i);
                        assert(refs_model(refs@).take(
                            consulted_len(*old(budget) as nat, refs_model(refs@)) as int,
                        )[i as int] is Link);
                        assert(!all_inline(
                            refs_model(refs@).take(
                                consulted_len(*old(budget) as nat, refs_model(refs@)) as int,
                            ),
                        ));
                    }
                    return Err(e);
                },
            },
        }
        *budget = *budget - 1;
        i = i + 1;
        if *budget == 0 {
            proof {
                assert(consulted_len(*old(budget) as nat, refs_model(refs@)) == i);
                assert forall|k: int| 0 <= k < base implies acc.deep_view()[k] == old(
                    acc,
                ).deep_view()[k] by {
                    assert(acc.deep_view()[k] == pre_dv[k]);
                }
                assert forall|k: int|
                    0 <= k < i implies (refs_model(refs@)[k] matches RefModel::Inline(n)
                    ==> #[trigger] acc.deep_view()[base + k] == *n) by {
                    if k < i - 1 {
                        assert(acc.deep_view()[base + k] == pre_dv[base + k]);
                    }
                }
            }
            return Ok(());
        }
    }
    proof {
        assert(consulted_len(*old(budget) as nat, refs_model(refs@)) == refs@.len());
    }
    Ok(())
}

impl Outbox {
    /// Walks the page chain starting at `next_ref`: resolves each page,
    /// drains its entries under the remaining budget, and follows `next`
    /// until the budget is spent, a page is empty, or the chain ends.
    #[verifier::loop_isolation(false)]
    fn fetch_activities<R: LinkResolver>(
        next_ref: NodeRef,
        items: Vec<Activity>,
        resolver: &R,
        max_items: usize,
    ) -> (r: Result<Vec<Activity>, ResolveError>)
        requires
            items@.len() == 0,
            max_items >= 1,
        ensures
            r matches Ok(acts) ==> acts@.len() <= max_items,
            page_walk_ok(next_ref@, max_items as nat) ==> (r matches Ok(acts)
                && acts.deep_view() == page_walk(next_ref@, max_items as nat)),
    {
        let ghost orig: RefModel = next_ref@;
        let ghost orig_budget: nat = max_items as nat;
        let mut items = items;
        let mut budget = max_items;
        let mut cur = next_ref;
        loop
            invariant
                budget >= 1,
                items@.len() + budget == max_items,
                page_walk_ok(orig, orig_budget) ==> (page_walk_ok(cur@, budget as nat)
                    && page_walk(orig, orig_budget) == items.deep_view() + page_walk(
                    cur@,
                    budget as nat,
                )),
                orig_budget == max_items,
            decreases budget,
        {
            let ghost budget0: nat = budget as nat;
            let ghost cur0: RefModel = cur@;
            let page: Node = match cur {
                NodeRef::Inline(n) => *n,
                NodeRef::Link(href) => match resolver.resolve(href.as_str()) {
                    Ok(node) => node,
                    Err(e) => {
                        return Err(e);
                    },
                },
            };
            let ghost acc0 = items.deep_view();
            let ghost refs: Seq<RefModel> = page_refs(page@);
            proof {
                assert(refs == refs_model(page.items@) + refs_model(page.ordered_items@));
            }
            match drain_refs(&page.items, &mut items, &mut budget, resolver) {
                Ok(_u) => {},
                Err(e) => {
                    proof {
                        if page_walk_ok(orig, orig_budget) && refs.len() > 0 {
                            if budget0 > refs.len() {
                                assert(refs.take(refs.len() as int) =~= refs);
                            }
                            assert(all_inline(refs.take(consulted_len(budget0, refs) as int)));
                            lemma_take_concat_left(
                                refs_model(page.items@),
                                refs_model(page.ordered_items@),
                                budget0,
                            );
                        }
                    }
                    return Err(e);
                },
            }
            let ghost c1: nat = consulted_len(budget0, refs_model(page.items@));
            if budget == 0 {
                proof {
                    finish_page_full(
                        orig,
                        orig_budget,
                        cur0,
                        budget0,
                        page@,
                        acc0,
                        items.deep_view(),
                        c1,
                        0,
                    );
                }
                return Ok(items);
            }
            match drain_refs(&page.ordered_items, &mut items, &mut budget, resolver) {
                Ok(_u) => {},
                Err(e) => {
                    proof {
                        if page_walk_ok(orig, orig_budget) && refs.len() > 0 {
                            if budget0 > refs.len() {
                                assert(refs.take(refs.len() as int) =~= refs);
                            }
                            assert(all_inline(refs.take(consulted_len(budget0, refs) as int)));
                            assert(budget0 > refs_model(page.items@).len());
                            lemma_take_concat_right(
                                refs_model(page.items@),
                                refs_model(page.ordered_items@),
                                budget0,
                            );
                        }
                    }
                    return Err(e);
                },
            }
            let ghost c2: nat = consulted_len(
                (budget0 - c1) as nat,
                refs_model(page.ordered_items@),
            );
            if budget == 0 {
                proof {
                    finish_page_full(
                        orig,
                        orig_budget,
                        cur0,
                        budget0,
                        page@,
                        acc0,
                        items.deep_view(),
                        c1,
                        c2,
                    );
                }
                return Ok(items);
            }
            if page.items.len() == 0 && page.ordered_items.len() == 0 {
                proof {
                    if page_walk_ok(orig, orig_budget) {
                        assert(page_walk(cur0, budget0) =~= Seq::<NodeModel>::empty());
                        assert(items.deep_view() =~= acc0 + page_walk(cur0, budget0));
                    }
                }
                return Ok(items);
            }
            match page.next {
                None => {
                    proof {
                        finish_page_all(orig, orig_budget, cur0, budget0, page@, acc0,
                            items.deep_view());
                    }
                    return Ok(items);
                },
                Some(next_b) => {
                    proof {
                        finish_page_all(orig, orig_budget, cur0, budget0, page@, acc0,
                            items.deep_view());
                    }
                    cur = *next_b;
                },
            }
        }
    }

    /// The outbox's activities, in source order, at most `max_items` of
    /// them: the root's inline `items` then `ordered_items`; only when both
    /// are empty, the pages behind `first`.  A root that declares
    /// `total_items` zero, or a zero budget, yields nothing.  Any resolution
    /// failure aborts the walk and discards what it had gathered.
    #[verifier::loop_isolation(false)]
    pub fn activity_items<R: LinkResolver>(&self, resolver: &R, max_items: usize) -> (r: Result<
        Vec<Activity>,
        ResolveError,
    >)
        ensures
            r matches Ok(acts) ==> acts@.len() <= max_items,
            max_items == 0 ==> (r matches Ok(acts) && acts@.len() == 0),
            declared_empty(self@) ==> (r matches Ok(acts) && acts@.len() == 0),
            walk_ok(self@, max_items as nat) ==> (r matches Ok(acts) && acts.deep_view()
                == walk_result(self@, max_items as nat)),
            !declared_empty(self@) && max_items > 0 && inline_refs(self@).len() > 0 ==> (r
                matches Ok(acts) ==> (acts@.len() == consulted_len(
                max_items as nat,
                inline_refs(self@),
            ) && forall|i: int|
                0 <= i < acts@.len() ==> (inline_refs(self@)[i] matches RefModel::Inline(n)
                    ==> #[trigger] acts.deep_view()[i] == *n))),
    {
        let items: Vec<Activity> = Vec::new();
        match self.0.total_items {
            Some(x) => {
                if x == 0 {
                    return Ok(items);
                }
            },
            None => {},
        }
        if max_items == 0 {
            return Ok(items);
        }
        let ghost refs: Seq<RefModel> = inline_refs(self@);
        proof {
            assert(refs == refs_model(self.0.items@) + refs_model(self.0.ordered_items@));
        }
        let mut items = items;
        let mut budget = max_items;
        match drain_refs(&self.0.items, &mut items, &mut budget, resolver) {
            Ok(_u) => {},
            Err(e) => {
                proof {
                    if walk_ok(self@, max_items as nat) && refs.len() > 0 {
                        lemma_take_concat_left(
                            refs_model(self.0.items@),
                            refs_model(self.0.ordered_items@),
                            max_items as nat,
                        );
                    }
                    if refs.len() == 0 {
                        assert(refs_model(self.0.items@).len() == 0);
                    }
                }
                return Err(e);
            },
        }
        let ghost mid: Seq<NodeModel> = items.deep_view();
        let ghost c1: nat = consulted_len(max_items as nat, refs_model(self.0.items@));
        if budget == 0 {
            proof {
                assert forall|k: int|
                    0 <= k < c1 implies (self@.items[k] matches RefModel::Inline(n)
                    ==> #[trigger] items.deep_view()[k] == *n) by {
                    assert(items.deep_view()[0 + k] == items.deep_view()[k]);
                }
                finish_inline(self@, max_items as nat, items.deep_view(), c1, 0);
            }
            return Ok(items);
        }
        match drain_refs(&self.0.ordered_items, &mut items, &mut budget, resolver) {
            Ok(_u) => {},
            Err(e) => {
                proof {
                    if walk_ok(self@, max_items as nat) && refs.len() > 0 {
                        assert(max_items as nat > refs_model(self.0.items@).len());
                        lemma_take_concat_right(
                            refs_model(self.0.items@),
                            refs_model(self.0.ordered_items@),
                            max_items as nat,
                        );
                    }
                    if refs.len() == 0 {
                        assert(refs_model(self.0.ordered_items@).len() == 0);
                    }
                }
                return Err(e);
            },
        }
        let ghost c2: nat = consulted_len((max_items - c1) as nat, refs_model(
            self.0.ordered_items@,
        ));
        if budget == 0 {
            proof {
                assert forall|k: int|
                    0 <= k < c1 implies (self@.items[k] matches RefModel::Inline(n)
                    ==> #[trigger] items.deep_view()[k] == *n) by {
                    assert(mid[0 + k] == mid[k]);
                    assert(items.deep_view()[k] == mid[k]);
                }
                assert forall|k: int|
                    0 <= k < c2 implies (self@.ordered_items[k] matches RefModel::Inline(n)
                    ==> #[trigger] items.deep_view()[c1 + k] == *n) by {
                    assert(items.deep_view()[mid.len() + k] == items.deep_view()[c1 + k]);
                }
                finish_inline(self@, max_items as nat, items.deep_view(), c1, c2);
            }
            return Ok(items);
        }
        if items.len() > 0 {
            proof {
                assert forall|k: int|
                    0 <= k < c1 implies (self@.items[k] matches RefModel::Inline(n)
                    ==> #[trigger] items.deep_view()[k] == *n) by {
                    assert(mid[0 + k] == mid[k]);
                    assert(items.deep_view()[k] == mid[k]);
                }
                assert forall|k: int|
                    0 <= k < c2 implies (self@.ordered_items[k] matches RefModel::Inline(n)
                    ==> #[trigger] items.deep_view()[c1 + k] == *n) by {
                    assert(items.deep_view()[mid.len() + k] == items.deep_view()[c1 + k]);
                }
                finish_inline(self@, max_items as nat, items.deep_view(), c1, c2);
            }
            return Ok(items);
        }
        match &self.0.first {
            None => Ok(items),
            Some(f) => {
                let first_ref = (**f).clone();
                let r = Self::fetch_activities(first_ref, items, resolver, budget);
                proof {
                    if walk_ok(self@, max_items as nat) {
                        assert(page_walk_ok(first_ref@, max_items as nat));
                    }
                }
                r
            },
        }
    }
}

/// An inline prefix of a concatenation restricts to an inline prefix of its
/// left part.
proof fn lemma_take_concat_left(a: Seq<RefModel>, b: Seq<RefModel>, budget: nat)
    requires
        all_inline((a + b).take(consulted_len(budget, a + b) as int)),
    ensures
        all_inline(a.take(consulted_len(budget, a) as int)),
{
    let k = consulted_len(budget, a) as int;
    assert forall|i: int| 0 <= i < k implies a.take(k)[i] is Inline by {
        assert(a.take(k)[i] == (a + b)[i]);
        assert((a + b).take(consulted_len(budget, a + b) as int)[i] == (a + b)[i]);
    }
}

/// An inline prefix of a concatenation restricts, past the whole left part,
/// to an inline prefix of the right part under the remaining budget.
proof fn lemma_take_concat_right(a: Seq<RefModel>, b: Seq<RefModel>, budget: nat)
    requires
        all_inline((a + b).take(consulted_len(budget, a + b) as int)),
        budget > a.len(),
    ensures
        all_inline(b.take(consulted_len((budget - a.len()) as nat, b) as int)),
{
    let k = consulted_len((budget - a.len()) as nat, b) as int;
    assert forall|i: int| 0 <= i < k implies b.take(k)[i] is Inline by {
        assert(b.take(k)[i] == (a + b)[a.len() + i]);
        assert((a + b).take(consulted_len(budget, a + b) as int)[a.len() + i] == (a + b)[a.len()
            + i]);
    }
}

/// Closes the walk-specification obligations of `activity_items` at a
/// return out of the inline phase, where `c1` entries of `items` and `c2`
/// of `ordered_items` were consumed.
proof fn finish_inline(root: NodeModel, max_items: nat, acts: Seq<NodeModel>, c1: nat, c2: nat)
    requires
        !declared_empty(root),
        max_items >= 1,
        c1 == consulted_len(max_items, root.items),
        c2 == consulted_len((max_items - c1) as nat, root.ordered_items),
        acts.len() == c1 + c2,
        forall|k: int| 0 <= k < c1 ==> (root.items[k] matches RefModel::Inline(n)
            ==> #[trigger] acts[k] == *n),
        forall|k: int| 0 <= k < c2 ==> (root.ordered_items[k] matches RefModel::Inline(n)
            ==> #[trigger] acts[c1 + k] == *n),
        acts.len() == consulted_len(max_items, inline_refs(root)) || inline_refs(root).len() == 0,
    ensures
        acts.len() == consulted_len(max_items, inline_refs(root)),
        forall|i: int| 0 <= i < acts.len() ==> (inline_refs(root)[i] matches RefModel::Inline(n)
            ==> #[trigger] acts[i] == *n),
        walk_ok(root, max_items) && inline_refs(root).len() > 0 ==> acts == walk_result(
            root,
            max_items,
        ),
{
    let refs = inline_refs(root);
    let total = consulted_len(max_items, refs);
    assert(acts.len() == total);
    assert forall|i: int| 0 <= i < acts.len() implies (refs[i] matches RefModel::Inline(n)
        ==> #[trigger] acts[i] == *n) by {
        if i < c1 {
            assert(refs[i] == root.items[i]);
        } else {
            assert(c1 == root.items.len());
            assert(refs[i] == root.ordered_items[i - c1]);
            assert(acts[c1 + (i - c1)] == acts[i]);
        }
    }
    if walk_ok(root, max_items) && refs.len() > 0 {
        lemma_pinned_prefix(acts, refs, total as int);
        assert(acts == walk_result(root, max_items));
    }
}

/// Closes the page-walk equation at a return where the page's entries were
/// consumed up to the budget, which the drains exhausted.
proof fn finish_page_full(
    orig: RefModel,
    orig_budget: nat,
    cur: RefModel,
    budget: nat,
    page: NodeModel,
    acc0: Seq<NodeModel>,
    acc: Seq<NodeModel>,
    c1: nat,
    c2: nat,
)
    requires
        budget >= 1,
        page_walk_ok(orig, orig_budget) ==> (cur matches RefModel::Inline(p) && *p == page),
        c1 == consulted_len(budget, page.items),
        c2 == consulted_len((budget - c1) as nat, page.ordered_items),
        c1 + c2 == budget,
        acc.len() == acc0.len() + c1 + c2,
        forall|k: int| 0 <= k < acc0.len() ==> #[trigger] acc[k] == acc0[k],
        forall|k: int| 0 <= k < c1 ==> (page.items[k] matches RefModel::Inline(n)
            ==> #[trigger] acc[acc0.len() + k] == *n),
        forall|k: int| 0 <= k < c2 ==> (page.ordered_items[k] matches RefModel::Inline(n)
            ==> #[trigger] acc[acc0.len() + c1 + k] == *n),
        page_walk_ok(orig, orig_budget) ==> (page_walk_ok(cur, budget) && page_walk(
            orig,
            orig_budget,
        ) == acc0 + page_walk(cur, budget)),
    ensures
        page_walk_ok(orig, orig_budget) ==> acc == page_walk(orig, orig_budget),
{
    if page_walk_ok(orig, orig_budget) {
        let refs = page_refs(page);
        assert(budget <= refs.len());
        let pinned = acc.subrange(acc0.len() as int, acc.len() as int);
        assert forall|i: int| 0 <= i < budget implies (refs[i] matches RefModel::Inline(n)
            ==> #[trigger] pinned[i] == *n) by {
            if i < c1 {
                assert(refs[i] == page.items[i]);
                assert(pinned[i] == acc[acc0.len() + i]);
            } else {
                assert(refs[i] == page.ordered_items[i - c1]);
                assert(pinned[i] == acc[acc0.len() + c1 + (i - c1)]);
            }
        }
        lemma_pinned_prefix(pinned, refs, budget as int);
        assert(page_walk(cur, budget) == inline_nodes(refs.take(budget as int)));
        assert(acc =~= acc0 + pinned);
        assert(acc == page_walk(orig, orig_budget));
    }
}

/// Closes the page-walk equation when a page's entries were all consumed
/// and budget remains: the accumulated nodes extend by the whole page.
proof fn finish_page_all(
    orig: RefModel,
    orig_budget: nat,
    cur: RefModel,
    budget: nat,
    page: NodeModel,
    acc0: Seq<NodeModel>,
    acc: Seq<NodeModel>,
)
    requires
        budget >= 1,
        page_walk_ok(orig, orig_budget) ==> (cur matches RefModel::Inline(p) && *p == page),
        budget > page_refs(page).len(),
        acc.len() == acc0.len() + page_refs(page).len(),
        forall|k: int| 0 <= k < acc0.len() ==> #[trigger] acc[k] == acc0[k],
        forall|k: int| 0 <= k < page.items.len() ==> (page.items[k] matches RefModel::Inline(n)
            ==> #[trigger] acc[acc0.len() + k] == *n),
        forall|k: int| 0 <= k < page.ordered_items.len() ==> (page.ordered_items[k] matches
            RefModel::Inline(n) ==> #[trigger] acc[acc0.len() + page.items.len() + k] == *n),
        page_walk_ok(orig, orig_budget) ==> (page_walk_ok(cur, budget) && page_walk(
            orig,
            orig_budget,
        ) == acc0 + page_walk(cur, budget)),
    ensures
        page_walk_ok(orig, orig_budget) && page_refs(page).len() > 0 && page.next is None
            ==> acc == page_walk(orig, orig_budget),
        page_walk_ok(orig, orig_budget) && page_refs(page).len() > 0 ==> (page.next matches Some(
            nr,
        ) ==> (page_walk_ok(nr, (budget - page_refs(page).len()) as nat) && page_walk(
            orig,
            orig_budget,
        ) == acc + page_walk(nr, (budget - page_refs(page).len()) as nat))),
{
    if page_walk_ok(orig, orig_budget) && page_refs(page).len() > 0 {
        let refs = page_refs(page);
        let c1 = page.items.len();
        let pinned = acc.subrange(acc0.len() as int, acc.len() as int);
        assert forall|i: int| 0 <= i < refs.len() implies (refs[i] matches RefModel::Inline(n)
            ==> #[trigger] pinned[i] == *n) by {
            if i < c1 {
                assert(refs[i] == page.items[i]);
                assert(pinned[i] == acc[acc0.len() + i]);
            } else {
                assert(refs[i] == page.ordered_items[i - c1]);
                assert(pinned[i] == acc[acc0.len() + c1 + (i - c1)]);
            }
        }
        assert(refs.take(refs.len() as int) =~= refs);
        lemma_pinned_prefix(pinned, refs, refs.len() as int);
        assert(acc =~= acc0 + pinned);
        match page.next {
            None => {
                assert(page_walk(cur, budget) == inline_nodes(refs));
            },
            Some(nr) => {
                assert(page_walk(cur, budget) == inline_nodes(refs) + page_walk(
                    nr,
                    (budget - refs.len()) as nat,
                ));
                assert(page_walk(orig, orig_budget) =~= acc + page_walk(
                    nr,
                    (budget - refs.len()) as nat,
                ));
            },
        }
    }
}

} // verus!

