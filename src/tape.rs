//! A sequence of byte cells that grows by one cell at either end.

use vstd::prelude::*;

verus! {

/// A tape of byte cells.
///
/// The cells left of the origin are kept in `left`, nearest cell last, and the
/// cells from the origin rightwards in `right`, so that a cell is added at
/// either end in amortised constant time.
pub struct Tape {
    left: Vec<u8>,
    right: Vec<u8>,
}

impl View for Tape {
    type V = Seq<u8>;

    closed spec fn view(&self) -> Seq<u8> {
        let l = self.left@;
        let r = self.right@;
        Seq::new(
            (l.len() + r.len()) as nat,
            |i: int|
                if i < l.len() {
                    l[l.len() - 1 - i]
                } else {
                    r[i - l.len()]
                },
        )
    }
}

impl Tape {
    /// The tape may hold every cell index in a `usize`.
    pub closed spec fn wf(&self) -> bool {
        self.left@.len() + self.right@.len() <= usize::MAX
    }

    /// A tape of one zero cell.
    pub fn new() -> (t: Tape)
        ensures
            t.wf(),
            t@ == seq![0u8],
    {
        let t = Tape { left: Vec::new(), right: vec![0u8] };
        assert(t@ =~= seq![0u8]);
        t
    }

    /// The number of cells.
    pub fn len(&self) -> (n: usize)
        requires
            self.wf(),
        ensures
            n == self@.len(),
    {
        self.left.len() + self.right.len()
    }

    /// The cell at index `i`.
    pub fn get(&self, i: usize) -> (b: u8)
        requires
            self.wf(),
            i < self@.len(),
        ensures
            b == self@[i as int],
    {
        let nl = self.left.len();
        if i < nl {
            self.left[nl - 1 - i]
        } else {
            self.right[i - nl]
        }
    }

    /// Overwrites the cell at index `i` with `b`.
    pub fn set(&mut self, i: usize, b: u8)
        requires
            old(self).wf(),
            i < old(self)@.len(),
        ensures
            final(self).wf(),
            final(self)@ == old(self)@.update(i as int, b),
    {
        let nl = self.left.len();
        if i < nl {
            self.left.set(nl - 1 - i, b);
        } else {
            self.right.set(i - nl, b);
        }
        assert(self@ =~= old(self)@.update(i as int, b));
    }

    /// Adds a zero cell after the last one.
    pub fn push_back(&mut self)
        requires
            old(self).wf(),
            old(self)@.len() < usize::MAX,
        ensures
            final(self).wf(),
            final(self)@ == old(self)@.push(0u8),
    {
        self.right.push(0u8);
        assert(self@ =~= old(self)@.push(0u8));
    }

    /// Adds a zero cell before the first one.
    pub fn push_front(&mut self)
        requires
            old(self).wf(),
            old(self)@.len() < usize::MAX,
        ensures
            final(self).wf(),
            final(self)@ == seq![0u8] + old(self)@,
    {
        self.left.push(0u8);
        assert(self@ =~= seq![0u8] + old(self)@);
    }

    /// The cells in order, from the leftmost.
    pub fn to_vec(&self) -> (v: Vec<u8>)
        requires
            self.wf(),
        ensures
            v@ == self@,
    {
        let n = self.len();
        let mut v: Vec<u8> = Vec::with_capacity(n);
        let mut i: usize = 0;
        while i < n
            invariant
                self.wf(),
                n == self@.len(),
                i <= n,
                v@ == self@.take(i as int),
            decreases n - i,
        {
            v.push(self.get(i));
            i += 1;
            assert(v@ =~= self@.take(i as int));
        }
        assert(self@.take(n as int) =~= self@);
        v
    }
}

} // verus!
