//! The item capability: a polymorphic value record identified by a name and
//! a namespace. Concrete variants are exchangeable without the tree knowing
//! their shape; `SimpleItem` is the variant that carries nothing more.

use vstd::prelude::*;

verus! {

/// The capability a tree node requires of its payload: a name and a
/// namespace, each observable in specifications through a spec-level view.
pub trait Item: Sized {
    /// The item's name, as specifications see it.
    spec fn spec_name(&self) -> Seq<char>;

    /// The item's namespace, as specifications see it.
    spec fn spec_namespace(&self) -> Seq<char>;

    /// The item's name.
    fn name(&self) -> (r: String)
        ensures
            r@ == self.spec_name(),
    ;

    /// The item's namespace.
    fn namespace(&self) -> (r: String)
        ensures
            r@ == self.spec_namespace(),
    ;
}

/// An item that carries only the required capability fields.
pub struct SimpleItem {
    name: String,
    namespace: String,
}

impl SimpleItem {
    /// Builds an item from its two required fields.
    pub fn new(name: String, namespace: String) -> (r: SimpleItem)
        ensures
            r.spec_name() == name@,
            r.spec_namespace() == namespace@,
    {
        SimpleItem { name, namespace }
    }
}

impl Item for SimpleItem {
    closed spec fn spec_name(&self) -> Seq<char> {
        self.name@
    }

    closed spec fn spec_namespace(&self) -> Seq<char> {
        self.namespace@
    }

    fn name(&self) -> (r: String) {
        self.name.clone()
    }

    fn namespace(&self) -> (r: String) {
        self.namespace.clone()
    }
}

} // verus!
