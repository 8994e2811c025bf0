use vstd::prelude::*;
use vstd::string::StringExecFns;

verus! {

/// The order in which each diner of a roster takes its cells.
pub open spec fn roster_pairs(r: Seq<Philosopher>) -> Seq<(int, int)> {
    Seq::new(r.len(), |k: int| (r[k].left as int, r[k].right as int))
}

/// One diner: a name for narration and the two cells it takes, in the order
/// it takes them (`left` first, then `right`).
pub struct Philosopher {
    pub name: String,
    pub left: usize,
    pub right: usize,
}

impl Philosopher {
    pub fn new(name: &str, left: usize, right: usize) -> (p: Philosopher)
        ensures
            p.name@ == name@,
            p.left == left,
            p.right == right,
    {
        Philosopher { name: String::from_str(name), left: left, right: right }
    }

    /// The cell taken first.
    pub fn first(&self) -> (r: usize)
        ensures
            r == self.left,
    {
        self.left
    }

    /// The cell taken second, while the first is held.
    pub fn second(&self) -> (r: usize)
        ensures
            r == self.right,
    {
        self.right
    }

    /// The line spoken once both cells are held.
    pub fn eating_line(&self) -> (r: String)
        ensures
            r@ == self.name@ + " is eating."@,
    {
        let mut r = String::from_str(self.name.as_str());
        r.append(" is eating.");
        r
    }

    /// The line spoken just before both cells are let go.
    pub fn done_line(&self) -> (r: String)
        ensures
            r@ == self.name@ + " is done eating."@,
    {
        let mut r = String::from_str(self.name.as_str());
        r.append(" is done eating.");
        r
    }
}

} // verus!
