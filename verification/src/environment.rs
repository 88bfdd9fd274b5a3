//! The variables of a session: a map from names to the expressions last
//! assigned to them.

use crate::parser::{Expr, ExprView};
use crate::table::{
    absent_from, lemma_pairs_absent, lemma_pairs_finite, lemma_pairs_found, lemma_pairs_push,
    lemma_pairs_update, pairs_map,
};
use vstd::prelude::*;

verus! {

struct Binding {
    name: String,
    value: Expr,
}

/// Named expressions. A name is bound to at most one expression; binding it
/// again replaces the expression.
pub struct Environment {
    bindings: Vec<Binding>,
}

impl View for Environment {
    type V = Map<Seq<char>, ExprView>;

    closed spec fn view(&self) -> Map<Seq<char>, ExprView> {
        pairs_map(self.pairs())
    }
}

impl Environment {
    closed spec fn pairs(&self) -> Seq<(Seq<char>, ExprView)> {
        self.bindings@.map_values(|b: Binding| (b.name@, b.value@))
    }

    /// Only finitely many names are bound.
    pub proof fn lemma_finite(&self)
        ensures
            self@.dom().finite(),
    {
        lemma_pairs_finite(self.pairs());
    }

    /// An environment that binds no name.
    pub fn new() -> (r: Environment)
        ensures
            r@ == Map::<Seq<char>, ExprView>::empty(),
    {
        let r = Environment { bindings: Vec::new() };
        r
    }

    /// Where the last binding of `name` stands, if there is one.
    fn position(&self, name: &String) -> (r: Option<usize>)
        ensures
            match r {
                Some(at) => at < self.bindings.len() && self.pairs()[at as int].0 == name@
                    && absent_from(self.pairs(), name@, at + 1),
                None => absent_from(self.pairs(), name@, 0),
            },
    {
        let mut i: usize = self.bindings.len();
        while i > 0
            invariant
                i <= self.bindings.len(),
                absent_from(self.pairs(), name@, i as int),
            decreases i,
        {
            i = i - 1;
            if self.bindings[i].name == *name {
                return Some(i);
            }
        }
        None
    }

    /// The expression bound to `name`, if there is one.
    pub fn get(&self, name: &String) -> (r: Option<&Expr>)
        ensures
            match r {
                Some(value) => self@.contains_key(name@) && value@ == self@[name@],
                None => !self@.contains_key(name@),
            },
    {
        match self.position(name) {
            Some(at) => {
                proof {
                    lemma_pairs_found(self.pairs(), at as int);
                }
                Some(&self.bindings[at].value)
            },
            None => {
                proof {
                    lemma_pairs_absent(self.pairs(), name@);
                }
                None
            },
        }
    }

    /// Binds `name` to `value`, in place of what it was bound to.
    pub fn insert(&mut self, name: String, value: Expr)
        ensures
            final(self)@ == old(self)@.insert(name@, value@),
    {
        let ghost before = self.pairs();
        match self.position(&name) {
            Some(at) => {
                proof {
                    lemma_pairs_update(before, at as int, value@);
                }
                self.bindings.set(at, Binding { name, value });
                assert(self.pairs() =~= before.update(at as int, (name@, value@)));
            },
            None => {
                proof {
                    lemma_pairs_push(before, name@, value@);
                }
                self.bindings.push(Binding { name, value });
                assert(self.pairs() =~= before.push((name@, value@)));
            },
        }
    }
}

} // verus!
