//! What is known of one module: its dependency record.

use vstd::prelude::*;

verus! {

/// Why a module that exists could not be classified as found.
#[derive(Clone, Copy, Debug, PartialEq, Eq, Structural)]
pub enum FailureKind {
    /// The file exists but could not be read.
    Io,
    /// The bytes are no image of the expected format, or the import table
    /// is corrupt.
    Parse,
    /// A declared dependency name is not valid text.
    NameDecode,
}

/// A failure with the message that describes it.
#[derive(Debug, PartialEq, Eq)]
pub struct Failure {
    pub kind: FailureKind,
    pub detail: String,
}

/// The mathematical value of a [`Failure`].
pub ghost struct FailureView {
    pub kind: FailureKind,
    pub detail: Seq<char>,
}

impl View for Failure {
    type V = FailureView;

    open spec fn view(&self) -> FailureView {
        FailureView { kind: self.kind, detail: self.detail@ }
    }
}

impl Failure {
    /// A failure of the given kind with the given message.
    pub fn new(kind: FailureKind, detail: String) -> (f: Failure)
        ensures
            f@ == (FailureView { kind, detail: detail@ }),
    {
        Failure { kind, detail }
    }

    /// An independent copy of the failure.
    pub fn duplicate(&self) -> (f: Failure)
        ensures
            f@ == self@,
    {
        Failure { kind: self.kind, detail: self.detail.clone() }
    }
}

/// The text of each string of a list, in order.
pub open spec fn texts(list: Seq<String>) -> Seq<Seq<char>> {
    Seq::new(list.len(), |i: int| list[i]@)
}

/// An independent copy of a list of strings.
pub fn duplicate_names(list: &Vec<String>) -> (copy: Vec<String>)
    ensures
        texts(copy@) == texts(list@),
{
    let mut copy: Vec<String> = Vec::new();
    let mut i: usize = 0;
    while i < list.len()
        invariant
            i <= list.len(),
            copy.len() == i,
            forall|k: int| 0 <= k < i ==> copy@[k]@ == list@[k]@,
        decreases list.len() - i,
    {
        copy.push(list[i].clone());
        i += 1;
    }
    assert(texts(copy@) =~= texts(list@));
    copy
}

/// The state of one module in the classification.
#[derive(Debug, PartialEq, Eq)]
pub enum DepRecord {
    /// Discovered, waiting to be read.
    Queued,
    /// Read successfully; holds the dependency names it declares, in the
    /// order of its import table.
    Found(Vec<String>),
    /// A dependency name that no search directory holds.
    NotFound,
    /// The module exists but could not be read or parsed.
    Invalid(Failure),
}

/// The mathematical value of a [`DepRecord`].
pub ghost enum RecordView {
    Queued,
    Found(Seq<Seq<char>>),
    NotFound,
    Invalid(FailureView),
}

impl View for DepRecord {
    type V = RecordView;

    open spec fn view(&self) -> RecordView {
        match self {
            DepRecord::Queued => RecordView::Queued,
            DepRecord::Found(names) => RecordView::Found(texts(names@)),
            DepRecord::NotFound => RecordView::NotFound,
            DepRecord::Invalid(failure) => RecordView::Invalid(failure@),
        }
    }
}

impl RecordView {
    /// A record is terminal once it is anything but `Queued`.
    pub open spec fn is_terminal(self) -> bool {
        !(self is Queued)
    }
}

impl DepRecord {
    /// Whether the record has reached a state that it never leaves.
    pub fn is_terminal(&self) -> (r: bool)
        ensures
            r == self@.is_terminal(),
    {
        match self {
            DepRecord::Queued => false,
            _ => true,
        }
    }

    /// An independent copy of the record.
    pub fn duplicate(&self) -> (r: DepRecord)
        ensures
            r@ == self@,
    {
        match self {
            DepRecord::Queued => DepRecord::Queued,
            DepRecord::Found(names) => DepRecord::Found(duplicate_names(names)),
            DepRecord::NotFound => DepRecord::NotFound,
            DepRecord::Invalid(failure) => DepRecord::Invalid(failure.duplicate()),
        }
    }
}

} // verus!
