use vstd::prelude::*;

verus! {

/// A ring of exclusive cells, numbered `0..len` in ring order. Each cell
/// records the diner that holds it, if any: a cell has one holder at most.
pub struct ResourceRing {
    holders: Vec<Option<usize>>,
}

impl View for ResourceRing {
    type V = Seq<Option<usize>>;

    closed spec fn view(&self) -> Seq<Option<usize>> {
        self.holders@
    }
}

impl ResourceRing {
    /// A ring of `n` cells, none of them held.
    pub fn new(n: usize) -> (r: ResourceRing)
        ensures
            r@ == Seq::new(n as nat, |c: int| None::<usize>),
    {
        let mut holders: Vec<Option<usize>> = Vec::new();
        let mut c: usize = 0;
        while c < n
            invariant
                c <= n,
                holders@ == Seq::new(c as nat, |i: int| None::<usize>),
            decreases n - c,
        {
            holders.push(None);
            c = c + 1;
            assert(holders@ =~= Seq::new(c as nat, |i: int| None::<usize>));
        }
        ResourceRing { holders }
    }

    pub fn len(&self) -> (r: usize)
        ensures
            r == self@.len(),
    {
        self.holders.len()
    }

    /// Who holds cell `c`.
    pub fn holder(&self, c: usize) -> (r: Option<usize>)
        requires
            c < self@.len(),
        ensures
            r == self@[c as int],
    {
        self.holders[c]
    }

    /// Diner `who` takes the free cell `c`.
    pub fn acquire(&mut self, c: usize, who: usize)
        requires
            c < old(self)@.len(),
            old(self)@[c as int] is None,
        ensures
            final(self)@ == old(self)@.update(c as int, Some(who)),
    {
        self.holders.set(c, Some(who));
    }

    /// Diner `who` lets go of cell `c`, which it holds.
    pub fn release(&mut self, c: usize, who: usize)
        requires
            c < old(self)@.len(),
            old(self)@[c as int] == Some(who),
        ensures
            final(self)@ == old(self)@.update(c as int, None),
    {
        self.holders.set(c, None);
    }
}

} // verus!
