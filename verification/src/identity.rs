//! The identity under which a module is classified.

use vstd::prelude::*;

verus! {

/// What a module is known by: the canonical path of a file that was
/// located, or the bare name of a dependency that no search directory
/// holds. The two never compare equal, whatever their text.
#[derive(Debug, PartialEq, Eq)]
pub enum Identity {
    Resolved(String),
    Unresolved(String),
}

/// The mathematical value of an [`Identity`].
pub ghost enum IdentityView {
    Resolved(Seq<char>),
    Unresolved(Seq<char>),
}

impl View for Identity {
    type V = IdentityView;

    open spec fn view(&self) -> IdentityView {
        match self {
            Identity::Resolved(path) => IdentityView::Resolved(path@),
            Identity::Unresolved(name) => IdentityView::Unresolved(name@),
        }
    }
}

impl IdentityView {
    /// The path or name that the identity carries.
    pub open spec fn text(self) -> Seq<char> {
        match self {
            IdentityView::Resolved(path) => path,
            IdentityView::Unresolved(name) => name,
        }
    }
}

impl Identity {
    /// The identity of a file at a canonical path.
    pub fn resolved(path: &str) -> (id: Identity)
        ensures
            id@ == IdentityView::Resolved(path@),
    {
        Identity::Resolved(path.to_owned())
    }

    /// The identity of a dependency name that could not be located.
    pub fn unresolved(name: &str) -> (id: Identity)
        ensures
            id@ == IdentityView::Unresolved(name@),
    {
        Identity::Unresolved(name.to_owned())
    }

    /// Whether the identity stands for a located file.
    pub fn is_resolved(&self) -> (r: bool)
        ensures
            r == (self@ is Resolved),
    {
        match self {
            Identity::Resolved(_) => true,
            Identity::Unresolved(_) => false,
        }
    }

    /// The path or name that the identity carries.
    pub fn text(&self) -> (s: &str)
        ensures
            s@ == self@.text(),
    {
        match self {
            Identity::Resolved(path) => path.as_str(),
            Identity::Unresolved(name) => name.as_str(),
        }
    }

    /// Whether two identities are the same key.
    pub fn same(&self, other: &Identity) -> (r: bool)
        ensures
            r == (self@ == other@),
    {
        match (self, other) {
            (Identity::Resolved(a), Identity::Resolved(b)) => *a == *b,
            (Identity::Unresolved(a), Identity::Unresolved(b)) => *a == *b,
            _ => false,
        }
    }

    /// An independent copy of the identity.
    pub fn duplicate(&self) -> (id: Identity)
        ensures
            id@ == self@,
    {
        match self {
            Identity::Resolved(path) => Identity::Resolved(path.clone()),
            Identity::Unresolved(name) => Identity::Unresolved(name.clone()),
        }
    }
}

} // verus!
