//! The derivation stack: a last-in, first-out sequence of symbols.

use vstd::prelude::*;

use crate::symbol::{Symbol, SymbolModel};

verus! {

#[derive(Debug, Default, Clone)]
pub struct Stack {
    items: Vec<Symbol>,
}

impl View for Stack {
    /// The symbols from the top of the stack down to its bottom.
    type V = Seq<Symbol>;

    closed spec fn view(&self) -> Seq<Symbol> {
        self.items@.reverse()
    }
}

/// The mathematical values of a sequence of symbols.
pub open spec fn symbols_model(v: Seq<Symbol>) -> Seq<SymbolModel> {
    Seq::new(v.len(), |i: int| v[i].deep_view())
}

impl DeepView for Stack {
    /// The symbols from the top of the stack down to its bottom, as values.
    type V = Seq<SymbolModel>;

    open spec fn deep_view(&self) -> Seq<SymbolModel> {
        symbols_model(self@)
    }
}

impl Stack {
    pub fn new() -> (s: Self)
        ensures
            s@ == Seq::<Symbol>::empty(),
    {
        Stack { items: Vec::new() }
    }

    pub fn is_empty(&self) -> (r: bool)
        ensures
            r == (self@.len() == 0),
    {
        self.items.len() == 0
    }

    /// Pushes `rhs` so that its leftmost symbol ends up on top of the stack.
    pub fn push_production(&mut self, rhs: &[Symbol])
        ensures
            final(self)@ == rhs@ + old(self)@,
    {
        let ghost old_items = self.items@;
        let mut i = rhs.len();
        while i > 0
            invariant
                i <= rhs@.len(),
                self.items@ == old_items + rhs@.subrange(i as int, rhs@.len() as int).reverse(),
            decreases i,
        {
            i = i - 1;
            let s = rhs[i].duplicate();
            self.items.push(s);
            assert(rhs@.subrange(i as int, rhs@.len() as int).reverse() =~= rhs@.subrange(
                (i + 1) as int,
                rhs@.len() as int,
            ).reverse().push(rhs@[i as int]));
        }
        assert(rhs@.subrange(0, rhs@.len() as int) =~= rhs@);
        assert((old_items + rhs@.reverse()).reverse() =~= rhs@ + old_items.reverse());
    }

    /// Removes and returns the symbol on top of the stack.
    pub fn pop(&mut self) -> (r: Option<Symbol>)
        ensures
            old(self)@.len() == 0 ==> r is None && final(self)@ == old(self)@,
            old(self)@.len() > 0 ==> r == Some(old(self)@[0]) && final(self)@ == old(
                self,
            )@.drop_first(),
    {
        let ghost old_items = self.items@;
        let r = self.items.pop();
        proof {
            if old_items.len() > 0 {
                assert(self.items@.reverse() =~= old_items.reverse().drop_first());
            }
        }
        r
    }

    /// The symbol on top of the stack, if any.
    pub fn peek(&self) -> (r: Option<&Symbol>)
        ensures
            self@.len() == 0 ==> r is None,
            self@.len() > 0 ==> r == Some(&self@[0]),
    {
        let n = self.items.len();
        if n == 0 {
            None
        } else {
            Some(&self.items[n - 1])
        }
    }

    /// The stack's contents, top first.
    pub fn snapshot_top_first(&self) -> (r: Vec<Symbol>)
        ensures
            r@ == self@,
    {
        let mut out: Vec<Symbol> = Vec::new();
        let n = self.items.len();
        let mut i = n;
        while i > 0
            invariant
                i <= n,
                n == self.items@.len(),
                out@ == self.items@.subrange(i as int, n as int).reverse(),
            decreases i,
        {
            i = i - 1;
            out.push(self.items[i].duplicate());
            assert(self.items@.subrange(i as int, n as int).reverse() =~= self.items@.subrange(
                (i + 1) as int,
                n as int,
            ).reverse().push(self.items@[i as int]));
        }
        assert(self.items@.subrange(0, n as int) =~= self.items@);
        out
    }
}

} // verus!
