//! Type annotations and the `{json, meta}` envelope.
use vstd::prelude::*;
use crate::json::Json;

verus! {

/// A type annotation: the tag of an extended type, and for a container the
/// annotations of its descendants keyed by dotted paths relative to it.
/// Written `["tag"]` or `["tag", {path: annotation, ...}]` on the wire.
#[derive(Debug, PartialEq)]
pub enum TypeAnnotation {
    Leaf(String),
    Node(String, Vec<(String, TypeAnnotation)>),
}

/// The mathematical form of an annotation.
pub enum AnnView {
    Leaf(Seq<char>),
    Node(Seq<char>, Seq<(Seq<char>, AnnView)>),
}

impl AnnView {
    pub open spec fn name(self) -> Seq<char> {
        match self {
            AnnView::Leaf(n) => n,
            AnnView::Node(n, _) => n,
        }
    }

    /// The annotations of descendants; none for a leaf.
    pub open spec fn inner(self) -> Seq<(Seq<char>, AnnView)> {
        match self {
            AnnView::Leaf(_) => Seq::empty(),
            AnnView::Node(_, c) => c,
        }
    }
}

/// The mathematical form of a path-keyed list of annotations.
pub open spec fn entries_view(m: Seq<(String, TypeAnnotation)>) -> Seq<(Seq<char>, AnnView)>
    decreases m,
{
    Seq::new(m.len(), |i: int| if 0 <= i < m.len() { (m[i].0@, m[i].1.view()) } else { (Seq::empty(), AnnView::Leaf(Seq::empty())) })
}

impl TypeAnnotation {
    pub open spec fn view(&self) -> AnnView
        decreases self,
    {
        match self {
            TypeAnnotation::Leaf(n) => AnnView::Leaf(n@),
            TypeAnnotation::Node(n, c) => AnnView::Node(
                n@,
                Seq::new(c@.len(), |i: int| if 0 <= i < c@.len() { (c@[i].0@, c@[i].1.view()) } else { (Seq::empty(), AnnView::Leaf(Seq::empty())) }),
            ),
        }
    }

    /// The tag.
    pub fn name(&self) -> (r: &str)
        ensures
            r@ == self.view().name(),
    {
        match self {
            TypeAnnotation::Leaf(n) => n.as_str(),
            TypeAnnotation::Node(n, _) => n.as_str(),
        }
    }

    /// The annotations of descendants, for a node.
    pub fn children(&self) -> (r: Option<&Vec<(String, TypeAnnotation)>>)
        ensures
            r is None <==> self is Leaf,
            r matches Some(c) ==> self.view().inner() == entries_view(c@),
    {
        match self {
            TypeAnnotation::Leaf(_) => None,
            TypeAnnotation::Node(_, c) => {
                assert(self.view().inner() =~= entries_view(c@));
                Some(c)
            },
        }
    }
}

/// What `meta.values` holds: an annotation of the whole value, or the
/// annotations of its descendants keyed by dotted paths.
#[derive(Debug, PartialEq)]
pub enum AnnotationValues {
    Root(TypeAnnotation),
    Children(Vec<(String, TypeAnnotation)>),
}

/// The mathematical form of `meta.values`.
pub enum ValuesView {
    Root(AnnView),
    Children(Seq<(Seq<char>, AnnView)>),
}

impl AnnotationValues {
    pub open spec fn view(&self) -> ValuesView {
        match self {
            AnnotationValues::Root(a) => ValuesView::Root(a.view()),
            AnnotationValues::Children(c) => ValuesView::Children(entries_view(c@)),
        }
    }
}

/// The `meta` member of the envelope.
#[derive(Debug, PartialEq)]
pub struct Meta {
    pub values: Option<AnnotationValues>,
    /// Carried through untouched.
    pub referential_equalities: Option<Json>,
    /// The format version; 1 when written by this library.
    pub v: Option<u8>,
}

/// The `{json, meta}` envelope; `meta` is absent when no extended type occurs.
#[derive(Debug, PartialEq)]
pub struct SuperJson {
    pub json: Json,
    pub meta: Option<Meta>,
}

} // verus!
