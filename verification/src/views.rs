//! Typed views over a resolved node: an activity, the item (post/object)
//! behind it, and an item's attachments.
//!
//! Each view is a pure projection over one owned node, plus at most one
//! outbound resolution call per accessor (`Activity::item` resolves the
//! activity's object, `Item::attachments` resolves each attachment entry).

use crate::model::NodeModel;
use crate::model::RefModel;
use crate::node::LinkResolver;
use crate::node::Node;
use crate::node::NodeRef;
use crate::node::ResolveError;
use vstd::prelude::*;

verus! {

broadcast use crate::model::lemma_refs_model;


/// The type tags the classification does not recognize: neither `Create`
/// nor `Announce`.
pub open spec fn unrecognized_tags_of(tags: Seq<Seq<char>>) -> Seq<Seq<char>> {
    tags.filter(|t: Seq<char>| t != "Create"@ && t != "Announce"@)
}

/// The media types the classification does not recognize: neither
/// `image/png` nor `image/jpeg`.
pub open spec fn unrecognized_media_of(types: Seq<Seq<char>>) -> Seq<Seq<char>> {
    types.filter(|t: Seq<char>| t != "image/png"@ && t != "image/jpeg"@)
}

/// One activity of the outbox: a resolved node, produced by the collection
/// walker.
#[derive(Debug)]
pub struct Activity(pub Node);

/// The item (post/object) an activity is about: a resolved node, produced
/// by `Activity::item`.
#[derive(Debug)]
pub struct Item(pub Node);

/// One attachment of an item: a resolved node, produced by
/// `Item::attachments`.
#[derive(Debug)]
pub struct Attachment(pub Node);

impl View for Activity {
    type V = NodeModel;

    open spec fn view(&self) -> NodeModel {
        self.0@
    }
}

impl DeepView for Activity {
    type V = NodeModel;

    open spec fn deep_view(&self) -> NodeModel {
        self.0@
    }
}

impl View for Item {
    type V = NodeModel;

    open spec fn view(&self) -> NodeModel {
        self.0@
    }
}

impl View for Attachment {
    type V = NodeModel;

    open spec fn view(&self) -> NodeModel {
        self.0@
    }
}

/// Classification of one type tag: the recognized activity kinds, with an
/// explicit fallback carrying the unrecognized tag.  Keeping the match
/// closed here centralizes the diagnostic path.
enum TagClass {
    Create,
    Announce,
    Unrecognized(String),
}

/// Classifies a type tag; an unrecognized tag is carried through verbatim.
fn classify_tag(t: &String) -> (r: TagClass)
    ensures
        t@ == "Create"@ ==> r is Create,
        t@ == "Announce"@ ==> r is Announce,
        t@ != "Create"@ && t@ != "Announce"@ ==> (r matches TagClass::Unrecognized(s) && s@
            == t@),
{
    proof {
        reveal_strlit("Create");
        reveal_strlit("Announce");
        assert("Create"@.len() == 6);
        assert("Announce"@.len() == 8);
        assert("Create"@ != "Announce"@);
    }
    let create = String::from_str("Create");
    let announce = String::from_str("Announce");
    if t.eq(&create) {
        TagClass::Create
    } else if t.eq(&announce) {
        TagClass::Announce
    } else {
        TagClass::Unrecognized(t.clone())
    }
}

/// Classification of one media type: the recognized image kinds, with an
/// explicit fallback carrying the unrecognized entry.
enum MediaClass {
    Png,
    Jpeg,
    Unrecognized(String),
}

/// Classifies a media type; an unrecognized entry is carried through
/// verbatim.
fn classify_media(t: &String) -> (r: MediaClass)
    ensures
        t@ == "image/png"@ ==> r is Png,
        t@ == "image/jpeg"@ ==> r is Jpeg,
        t@ != "image/png"@ && t@ != "image/jpeg"@ ==> (r matches MediaClass::Unrecognized(s)
            && s@ == t@),
{
    proof {
        reveal_strlit("image/png");
        reveal_strlit("image/jpeg");
        assert("image/png"@.len() == 9);
        assert("image/jpeg"@.len() == 10);
        assert("image/png"@ != "image/jpeg"@);
    }
    let png = String::from_str("image/png");
    let jpeg = String::from_str("image/jpeg");
    if t.eq(&png) {
        MediaClass::Png
    } else if t.eq(&jpeg) {
        MediaClass::Jpeg
    } else {
        MediaClass::Unrecognized(t.clone())
    }
}

impl Activity {
    /// Whether the activity carries the `Create` type tag, anywhere in its
    /// tag sequence.  Tags other than `Create` and `Announce` do not affect
    /// the result; `unrecognized_tags` reports them.
    pub fn is_create(&self) -> (r: bool)
        ensures
            r == self@.typ.contains("Create"@),
    {
        let mut i: usize = 0;
        while i < self.0.typ.len()
            invariant
                i <= self.0.typ@.len(),
                forall|j: int| 0 <= j < i ==> self.0.typ@[j]@ != "Create"@,
            decreases self.0.typ@.len() - i,
        {
            match classify_tag(&self.0.typ[i]) {
                TagClass::Create => {
                    proof {
                        assert(self@.typ[i as int] == "Create"@);
                    }
                    return true;
                },
                TagClass::Announce => {},
                TagClass::Unrecognized(_) => {},
            }
            i = i + 1;
        }
        proof {
            assert forall|j: int| 0 <= j < self@.typ.len() implies self@.typ[j] != "Create"@ by {
                assert(self@.typ[j] == self.0.typ@[j]@);
            }
        }
        false
    }

    /// The type tags that the classification does not recognize, in order:
    /// the non-fatal diagnostics an embedding application may report.
    #[verifier::loop_isolation(false)]
    pub fn unrecognized_tags(&self) -> (r: Vec<String>)
        ensures
            r.deep_view() == unrecognized_tags_of(self@.typ),
    {
        let ghost pred = (|t: Seq<char>| t != "Create"@ && t != "Announce"@);
        let mut out: Vec<String> = Vec::new();
        let mut i: usize = 0;
        while i < self.0.typ.len()
            invariant
                i <= self.0.typ@.len(),
                self@.typ.len() == self.0.typ@.len(),
                out.deep_view() == self@.typ.take(i as int).filter(pred),
            decreases self.0.typ@.len() - i,
        {
            let ghost pre = out.deep_view();
            let ghost tv = self@.typ[i as int];
            match classify_tag(&self.0.typ[i]) {
                TagClass::Create => {},
                TagClass::Announce => {},
                TagClass::Unrecognized(raw) => {
                    out.push(raw);
                    proof {
                        assert(out.deep_view() =~= pre.push(tv));
                    }
                },
            }
            proof {
                reveal(Seq::filter);
                let prefix1 = self@.typ.take(i + 1);
                assert(prefix1.drop_last() =~= self@.typ.take(i as int));
                assert(prefix1.last() == tv);
                if pred(tv) {
                    assert(prefix1.filter(pred) == prefix1.drop_last().filter(pred).push(tv));
                } else {
                    assert(prefix1.filter(pred) == prefix1.drop_last().filter(pred));
                }
                assert(out.deep_view() == prefix1.filter(pred));
            }
            i = i + 1;
        }
        proof {
            assert(self@.typ.take(self.0.typ@.len() as int) =~= self@.typ);
        }
        out
    }

    /// The item behind the activity: the first entry of its `object` list,
    /// resolved if it is a link.  `None` exactly when the list is empty;
    /// entries past the first are ignored by design.
    pub fn item<R: LinkResolver>(&self, resolver: &R) -> (r: Result<
        Option<Item>,
        ResolveError,
    >)
        ensures
            r matches Ok(x) ==> (x is None <==> self@.object.len() == 0),
            self@.object.len() == 0 ==> (r matches Ok(x) && x is None),
            self@.object.len() > 0 ==> (self@.object[0] matches RefModel::Inline(n) ==> (r
                matches Ok(x) && x matches Some(it) && it@ == *n)),
    {
        if self.0.object.len() == 0 {
            return Ok(None);
        }
        match &self.0.object[0] {
            NodeRef::Inline(n) => Ok(Some(Item((**n).clone()))),
            NodeRef::Link(href) => match resolver.resolve(href.as_str()) {
                Ok(node) => Ok(Some(Item(node))),
                Err(e) => Err(e),
            },
        }
    }
}

impl Item {
    /// The node's stable identifier, unmodified.
    pub fn id(&self) -> (r: Option<&str>)
        ensures
            self@.id matches Some(v) ==> (r matches Some(s) && s@ == v),
            self@.id is None ==> r is None,
    {
        match &self.0.id {
            Some(x) => Some(x.as_str()),
            None => None,
        }
    }

    /// The item's reachable URL: the explicit `url` href when present,
    /// otherwise the identifier (the convention that a federated object's id
    /// is its canonical URL), otherwise nothing.
    pub fn url(&self) -> (r: Option<&str>)
        ensures
            self@.url matches Some(h) ==> (r matches Some(s) && s@ == h),
            self@.url is None ==> (self@.id matches Some(v) ==> (r matches Some(s) && s@ == v)),
            self@.url is None && self@.id is None ==> r is None,
    {
        match &self.0.url {
            Some(x) => Some(x.as_str()),
            None => self.id(),
        }
    }

    /// The first entry of the item's `content` list, or nothing.
    pub fn content(&self) -> (r: Option<&str>)
        ensures
            self@.content.len() > 0 ==> (r matches Some(s) && s@ == self@.content[0]),
            self@.content.len() == 0 ==> r is None,
    {
        if self.0.content.len() > 0 {
            Some(self.0.content[0].as_str())
        } else {
            None
        }
    }

    /// Whether the item answers another object: its `in_reply_to` list is
    /// non-empty.
    pub fn is_reply(&self) -> (r: bool)
        ensures
            r == (self@.in_reply_to.len() > 0),
    {
        self.0.in_reply_to.len() > 0
    }

    /// The extension `sensitive` flag, `false` when absent.
    pub fn is_sensitive(&self) -> (r: bool)
        ensures
            r == (self@.sensitive matches Some(true)),
    {
        match self.0.sensitive {
            Some(b) => b,
            None => false,
        }
    }

    /// Every entry of the item's `attachment` list, resolved in order.  A
    /// single failed resolution aborts the whole call: no attachment list is
    /// returned, not even the entries already resolved.
    pub fn attachments<R: LinkResolver>(&self, resolver: &R) -> (r: Result<
        Vec<Attachment>,
        ResolveError,
    >)
        ensures
            r matches Ok(v) ==> v@.len() == self@.attachment.len(),
            r matches Ok(v) ==> forall|i: int|
                0 <= i < v@.len() ==> (self@.attachment[i] matches RefModel::Inline(n)
                    ==> #[trigger] v@[i]@ == *n),
            crate::model::all_inline(self@.attachment) ==> r is Ok,
    {
        proof {
            crate::model::lemma_refs_model(self.0.attachment@);
        }
        let mut result: Vec<Attachment> = Vec::new();
        let mut i: usize = 0;
        while i < self.0.attachment.len()
            invariant
                i <= self.0.attachment@.len(),
                self@.attachment.len() == self.0.attachment@.len(),
                result@.len() == i,
                forall|j: int|
                    0 <= j < i ==> (self@.attachment[j] matches RefModel::Inline(n)
                        ==> #[trigger] result@[j]@ == *n),
            decreases self.0.attachment@.len() - i,
        {
            proof {
                crate::model::lemma_refs_model(self.0.attachment@);
                assert(self@.attachment[i as int] == crate::model::ref_model(
                    self.0.attachment@[i as int],
                ));
            }
            match &self.0.attachment[i] {
                NodeRef::Inline(n) => result.push(Attachment((**n).clone())),
                NodeRef::Link(href) => match resolver.resolve(href.as_str()) {
                    Ok(node) => result.push(Attachment(node)),
                    Err(e) => {
                        proof {
                            assert(self@.attachment[i as int] is Link);
                        }
                        return Err(e);
                    },
                },
            }
            i = i + 1;
        }
        Ok(result)
    }
}

impl Attachment {
    /// Whether any `media_type` entry is exactly `image/png` or
    /// `image/jpeg`.  Other entries do not affect the result;
    /// `unrecognized_media_types` reports them.
    pub fn is_media(&self) -> (r: bool)
        ensures
            r == (self@.media_type.contains("image/png"@) || self@.media_type.contains(
                "image/jpeg"@,
            )),
    {
        let mut i: usize = 0;
        while i < self.0.media_type.len()
            invariant
                i <= self.0.media_type@.len(),
                forall|j: int|
                    0 <= j < i ==> self.0.media_type@[j]@ != "image/png"@
                        && self.0.media_type@[j]@ != "image/jpeg"@,
            decreases self.0.media_type@.len() - i,
        {
            match classify_media(&self.0.media_type[i]) {
                MediaClass::Png => {
                    proof {
                        assert(self@.media_type[i as int] == "image/png"@);
                    }
                    return true;
                },
                MediaClass::Jpeg => {
                    proof {
                        assert(self@.media_type[i as int] == "image/jpeg"@);
                    }
                    return true;
                },
                MediaClass::Unrecognized(_) => {},
            }
            i = i + 1;
        }
        proof {
            assert forall|j: int| 0 <= j < self@.media_type.len() implies self@.media_type[j]
                != "image/png"@ && self@.media_type[j] != "image/jpeg"@ by {
                assert(self@.media_type[j] == self.0.media_type@[j]@);
            }
        }
        false
    }

    /// The media types that the classification does not recognize, in
    /// order: the non-fatal diagnostics an embedding application may
    /// report.
    #[verifier::loop_isolation(false)]
    pub fn unrecognized_media_types(&self) -> (r: Vec<String>)
        ensures
            r.deep_view() == unrecognized_media_of(self@.media_type),
    {
        let ghost pred = (|t: Seq<char>| t != "image/png"@ && t != "image/jpeg"@);
        let mut out: Vec<String> = Vec::new();
        let mut i: usize = 0;
        while i < self.0.media_type.len()
            invariant
                i <= self.0.media_type@.len(),
                self@.media_type.len() == self.0.media_type@.len(),
                out.deep_view() == self@.media_type.take(i as int).filter(pred),
            decreases self.0.media_type@.len() - i,
        {
            let ghost pre = out.deep_view();
            let ghost tv = self@.media_type[i as int];
            match classify_media(&self.0.media_type[i]) {
                MediaClass::Png => {},
                MediaClass::Jpeg => {},
                MediaClass::Unrecognized(raw) => {
                    out.push(raw);
                    proof {
                        assert(out.deep_view() =~= pre.push(tv));
                    }
                },
            }
            proof {
                reveal(Seq::filter);
                let prefix1 = self@.media_type.take(i + 1);
                assert(prefix1.drop_last() =~= self@.media_type.take(i as int));
                assert(prefix1.last() == tv);
                if pred(tv) {
                    assert(prefix1.filter(pred) == prefix1.drop_last().filter(pred).push(tv));
                } else {
                    assert(prefix1.filter(pred) == prefix1.drop_last().filter(pred));
                }
                assert(out.deep_view() == prefix1.filter(pred));
            }
            i = i + 1;
        }
        proof {
            assert(self@.media_type.take(self.0.media_type@.len() as int) =~= self@.media_type);
        }
        out
    }

    /// The explicit `url` href when present; no identifier fallback here,
    /// unlike `Item::url`.
    pub fn url(&self) -> (r: Option<&str>)
        ensures
            self@.url matches Some(h) ==> (r matches Some(s) && s@ == h),
            self@.url is None ==> r is None,
    {
        match &self.0.url {
            Some(x) => Some(x.as_str()),
            None => None,
        }
    }
}

} // verus!
