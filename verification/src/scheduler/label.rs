use crate::type_id::TypeId;
use vstd::prelude::*;

verus! {

/// Identifies systems and workloads, and tags them for ordering.
#[derive(Debug, PartialEq)]
pub enum Label {
    /// A system or workload, by the type of the function that makes it.
    Type(TypeId),
    /// A label given by name.
    Name(String),
    /// One occurrence of a system inside a workload being built.
    Unique(usize),
    /// Orders the members of a sequential workload, for a system or workload type.
    Sequential(TypeId),
    /// Orders the members of a sequential workload, for a named workload.
    SequentialName(String),
}

/// Mathematical value of a [`Label`].
pub enum LabelView {
    Type(u64),
    Name(Seq<char>),
    Unique(usize),
    Sequential(u64),
    SequentialName(Seq<char>),
}

impl View for Label {
    type V = LabelView;

    open spec fn view(&self) -> LabelView {
        match self {
            Label::Type(t) => LabelView::Type(t.0),
            Label::Name(s) => LabelView::Name(s@),
            Label::Unique(u) => LabelView::Unique(*u),
            Label::Sequential(t) => LabelView::Sequential(t.0),
            Label::SequentialName(s) => LabelView::SequentialName(s@),
        }
    }
}

/// The views of a sequence of labels.
pub open spec fn label_views(labels: Seq<Label>) -> Seq<LabelView> {
    labels.map_values(|l: Label| l@)
}

/// Returns `true` if some label of `labels` equals `label`.
pub open spec fn labels_contain(labels: Seq<Label>, label: LabelView) -> bool {
    exists|k: int| 0 <= k < labels.len() && #[trigger] labels[k]@ == label
}

/// Returns `true` if the two sequences share a label.
pub open spec fn labels_intersect(a: Seq<Label>, b: Seq<Label>) -> bool {
    exists|k: int| 0 <= k < a.len() && labels_contain(b, #[trigger] a[k]@)
}

impl Label {
    /// Label of a system or workload type.
    pub fn of_type(type_id: TypeId) -> (l: Label)
        ensures
            l@ == LabelView::Type(type_id.0),
    {
        Label::Type(type_id)
    }

    /// Label given by name.
    pub fn named(name: &str) -> (l: Label)
        ensures
            l@ == LabelView::Name(name@),
    {
        Label::Name(name.to_owned())
    }

    /// Returns `true` if both labels are equal.
    pub fn dyn_eq(&self, other: &Label) -> (b: bool)
        ensures
            b == (self@ == other@),
    {
        match (self, other) {
            (Label::Type(a), Label::Type(b)) => a.0 == b.0,
            (Label::Name(a), Label::Name(b)) => *a == *b,
            (Label::Unique(a), Label::Unique(b)) => *a == *b,
            (Label::Sequential(a), Label::Sequential(b)) => a.0 == b.0,
            (Label::SequentialName(a), Label::SequentialName(b)) => *a == *b,
            _ => false,
        }
    }

    /// Returns a copy of this label.
    pub fn dyn_clone(&self) -> (l: Label)
        ensures
            l@ == self@,
    {
        match self {
            Label::Type(t) => Label::Type(*t),
            Label::Name(s) => Label::Name(s.clone()),
            Label::Unique(u) => Label::Unique(*u),
            Label::Sequential(t) => Label::Sequential(*t),
            Label::SequentialName(s) => Label::SequentialName(s.clone()),
        }
    }

    /// Label that orders the members of a sequential workload after this one.
    pub fn sequential(&self) -> (l: Option<Label>)
        ensures
            match self@ {
                LabelView::Type(t) => l is Some && l->0@ == LabelView::Sequential(t),
                LabelView::Name(s) => l is Some && l->0@ == LabelView::SequentialName(s),
                _ => l is None,
            },
    {
        match self {
            Label::Type(t) => Some(Label::Sequential(*t)),
            Label::Name(s) => Some(Label::SequentialName(s.clone())),
            _ => None,
        }
    }
}

/// Returns `true` if `labels` holds a label equal to `label`.
pub fn contains_label(labels: &Vec<Label>, label: &Label) -> (b: bool)
    ensures
        b == labels_contain(labels@, label@),
{
    let mut i: usize = 0;
    while i < labels.len()
        invariant
            i <= labels.len(),
            forall|k: int| 0 <= k < i ==> labels@[k]@ != label@,
        decreases labels.len() - i,
    {
        if labels[i].dyn_eq(label) {
            return true;
        }
        i += 1;
    }
    false
}

/// Returns `true` if `a` and `b` share a label.
pub fn any_label_in(a: &Vec<Label>, b: &Vec<Label>) -> (r: bool)
    ensures
        r == labels_intersect(a@, b@),
{
    let mut i: usize = 0;
    while i < a.len()
        invariant
            i <= a.len(),
            forall|k: int| 0 <= k < i ==> !labels_contain(b@, #[trigger] a@[k]@),
        decreases a.len() - i,
    {
        if contains_label(b, &a[i]) {
            return true;
        }
        i += 1;
    }
    false
}

/// Copies a list of labels.
pub fn clone_labels(labels: &Vec<Label>) -> (r: Vec<Label>)
    ensures
        r@.len() == labels@.len(),
        forall|k: int| 0 <= k < labels@.len() ==> #[trigger] r@[k]@ == labels@[k]@,
{
    let mut r: Vec<Label> = Vec::new();
    let mut i: usize = 0;
    while i < labels.len()
        invariant
            i <= labels.len(),
            r@.len() == i,
            forall|k: int| 0 <= k < i ==> #[trigger] r@[k]@ == labels@[k]@,
        decreases labels.len() - i,
    {
        r.push(labels[i].dyn_clone());
        i += 1;
    }
    r
}

} // verus!
