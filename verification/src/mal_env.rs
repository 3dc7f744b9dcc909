use vstd::prelude::*;

use std::collections::HashMap;
use std::rc::Rc;

use crate::mal_types::MalType;

verus! {

/// One evaluation scope: its own bindings and the scope that encloses it,
/// if any. The evaluator that would consume it is an external collaborator;
/// the reader and printer never touch it.
pub struct EnvStruct {
    data: HashMap<String, MalType>,
    pub outer: Option<Env>,
}

/// A shared handle to a scope.
pub struct Env(pub Rc<EnvStruct>);

impl Env {
    /// The bindings of this scope alone, not of its enclosing scopes.
    pub closed spec fn bindings(&self) -> Map<String, MalType> {
        self.0.data@
    }

    /// The scope that encloses this one, if any.
    pub closed spec fn outer_scope(&self) -> Option<Env> {
        self.0.outer
    }

    /// A fresh scope with no bindings of its own, inside the given scope.
    pub fn new(outer: Option<Env>) -> (r: Env)
        ensures
            r.bindings() == Map::<String, MalType>::empty(),
            r.outer_scope() == outer,
    {
        Env(Rc::new(EnvStruct { data: HashMap::new(), outer }))
    }
}

} // verus!
