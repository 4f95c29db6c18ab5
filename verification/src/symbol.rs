use std::sync::Arc;
use vstd::prelude::*;

verus! {

/// A named variable of an expression.
#[derive(Debug)]
pub struct Symbol {
    name: String,
}

impl View for Symbol {
    type V = Seq<char>;

    closed spec fn view(&self) -> Seq<char> {
        self.name@
    }
}

impl Symbol {
    /// Creates the symbol called `name`.
    pub fn new(name: &str) -> (r: Symbol)
        ensures
            r@ == name@,
    {
        Symbol { name: name.to_owned() }
    }

    /// The symbol's name.
    pub fn name(&self) -> (r: &String)
        ensures
            r@ == self@,
    {
        &self.name
    }

    /// Whether two symbols have the same name.
    pub fn same(&self, other: &Symbol) -> (r: bool)
        ensures
            r == (self@ == other@),
    {
        self.name == other.name
    }
}

/// `Arc::clone`: a second handle to the same symbol.
#[verifier::external_body]
pub(crate) fn share(s: &Arc<Symbol>) -> (r: Arc<Symbol>)
    ensures
        r@ == s@,
{
    Arc::clone(s)
}

/// `Arc::new`, on a symbol called `name`.
pub fn new_shared(name: &str) -> (r: Arc<Symbol>)
    ensures
        r@ == name@,
{
    Arc::new(Symbol::new(name))
}

} // verus!
