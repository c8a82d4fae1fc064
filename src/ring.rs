use vstd::prelude::*;

verus! {

/// Number of registers in the ring.
pub const RING_LEN: usize = 256;

/// Every value the machine pushes is masked to its low 31 bits.
pub const MASK: i32 = 0x7FFF_FFFF;

/// A value the ring may hold: a masked, hence non-negative, 32-bit integer.
pub open spec fn is_masked(v: i32) -> bool {
    0 <= v
}

/// A ring of 256 registers, seen from front (oldest) to back (most recent).
///
/// The cells are a fixed array addressed from a moving `head`: logical
/// position `i` lives in cell `(head + i) % 256`, so pushing and rotating
/// move the head and never resize the storage.
pub struct Ring {
    cells: Vec<i32>,
    head: usize,
}

impl View for Ring {
    type V = Seq<i32>;

    closed spec fn view(&self) -> Seq<i32> {
        Seq::new(RING_LEN as nat, |i: int| self.cells@[(self.head + i) % (RING_LEN as int)])
    }
}

/// Pushing `v`: the front value falls out, `v` becomes the back.
pub open spec fn push_spec(s: Seq<i32>, v: i32) -> Seq<i32> {
    s.drop_first().push(v)
}

/// Rotating one step to the right: the back value wraps around to the front.
pub open spec fn rotate_right_spec(s: Seq<i32>) -> Seq<i32> {
    seq![s.last()] + s.drop_last()
}

impl Ring {
    /// The ring holds 256 cells, each a masked value.
    pub closed spec fn wf(&self) -> bool {
        &&& self.cells@.len() == RING_LEN
        &&& self.head < RING_LEN
        &&& forall|i: int| 0 <= i < RING_LEN ==> is_masked(#[trigger] self.cells@[i])
    }

    pub proof fn lemma_view(&self)
        requires
            self.wf(),
        ensures
            self@.len() == RING_LEN,
            forall|i: int| 0 <= i < RING_LEN ==> is_masked(#[trigger] self@[i]),
    {
        assert forall|i: int| 0 <= i < RING_LEN implies is_masked(#[trigger] self@[i]) by {
            let k = (self.head + i) % (RING_LEN as int);
            assert(0 <= k < RING_LEN);
        }
    }

    /// A ring of 256 zeros.
    pub fn new() -> (r: Ring)
        ensures
            r.wf(),
            r@ == Seq::new(RING_LEN as nat, |i: int| 0i32),
    {
        let mut cells: Vec<i32> = Vec::new();
        let mut n: usize = 0;
        while n < RING_LEN
            invariant
                n <= RING_LEN,
                cells@.len() == n,
                forall|i: int| 0 <= i < n ==> cells@[i] == 0,
            decreases RING_LEN - n,
        {
            cells.push(0);
            n = n + 1;
        }
        let r = Ring { cells, head: 0 };
        assert(r@ =~= Seq::new(RING_LEN as nat, |i: int| 0i32));
        r
    }

    /// Number of registers: always 256.
    pub fn len(&self) -> (n: usize)
        requires
            self.wf(),
        ensures
            n == self@.len(),
            n == RING_LEN,
    {
        RING_LEN
    }

    fn cell(&self, i: usize) -> (k: usize)
        requires
            self.wf(),
            i < RING_LEN,
        ensures
            k == (self.head + i) % (RING_LEN as int),
            k < RING_LEN,
    {
        (self.head + i) % RING_LEN
    }

    /// The value at logical position `i`, counted from the front.
    pub fn get(&self, i: usize) -> (v: i32)
        requires
            self.wf(),
            i < RING_LEN,
        ensures
            v == self@[i as int],
            is_masked(v),
    {
        let k = self.cell(i);
        self.cells[k]
    }

    /// The back value, the top of the simulated stack.
    pub fn back(&self) -> (v: i32)
        requires
            self.wf(),
        ensures
            v == self@.last(),
            is_masked(v),
    {
        self.get(RING_LEN - 1)
    }

    /// Writes `v` at logical position `i`.
    pub fn set(&mut self, i: usize, v: i32)
        requires
            old(self).wf(),
            i < RING_LEN,
            is_masked(v),
        ensures
            final(self).wf(),
            final(self)@ == old(self)@.update(i as int, v),
    {
        let k = self.cell(i);
        self.cells.set(k, v);
        assert(self@ =~= old(self)@.update(i as int, v));
    }

    /// Appends `v` at the back and drops the front value.
    pub fn push(&mut self, v: i32)
        requires
            old(self).wf(),
            is_masked(v),
        ensures
            final(self).wf(),
            final(self)@ == push_spec(old(self)@, v),
    {
        let h = self.head;
        self.cells.set(h, v);
        self.head = (h + 1) % RING_LEN;
        assert(self@ =~= push_spec(old(self)@, v));
    }

    /// Rotates one step to the right: the back value moves to the front.
    pub fn rotate_right(&mut self)
        requires
            old(self).wf(),
        ensures
            final(self).wf(),
            final(self)@ == rotate_right_spec(old(self)@),
    {
        self.head = (self.head + RING_LEN - 1) % RING_LEN;
        assert(self@ =~= rotate_right_spec(old(self)@));
    }
}

} // verus!
