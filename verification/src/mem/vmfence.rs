//! Batched virtual-memory fences (TLB invalidations).
use vstd::prelude::*;

verus! {

/// How many individual fences to perform before a big fence is considered better.
pub const BIG_FENCE_THRESHOLD: usize = 64;

/// Represents a collection of virtual-memory fences to perform all at once.
/// Automatically determines whether it is better to do individual fences or one big fence.
#[derive(Debug)]
pub struct VmFenceSet {
    fences: [usize; 64],
    len: usize,
}

impl VmFenceSet {
    #[verifier::type_invariant]
    spec fn inv(self) -> bool {
        self.len <= BIG_FENCE_THRESHOLD
    }

    /// Whether the set has been promoted to one fence of the whole address space.
    pub closed spec fn is_big(&self) -> bool {
        self.len >= BIG_FENCE_THRESHOLD
    }

    /// The addresses to fence individually, if the set is not big.
    pub closed spec fn addrs(&self) -> Seq<usize> {
        if self.len >= BIG_FENCE_THRESHOLD {
            Seq::empty()
        } else {
            self.fences@.subrange(0, self.len as int)
        }
    }

    /// A set that is not big holds fewer addresses than the threshold.
    pub proof fn lemma_addrs_below_threshold(&self)
        ensures
            !self.is_big() ==> self.addrs().len() < BIG_FENCE_THRESHOLD,
    {
    }

    /// A big set holds no address to fence individually: the whole address space is fenced.
    pub proof fn lemma_big_has_no_addrs(&self)
        ensures
            self.is_big() ==> self.addrs() == Seq::<usize>::empty(),
    {
    }

    /// An empty set of fences.
    pub fn new() -> (r: Self)
        ensures
            !r.is_big(),
            r.addrs() == Seq::<usize>::empty(),
    {
        let r = VmFenceSet { fences: [0usize; 64], len: 0 };
        assert(r.addrs() =~= Seq::<usize>::empty());
        r
    }

    /// The fences to perform: `None` fences the whole address space, `Some(vaddr)` one page.
    pub fn execute(&self) -> (r: Vec<Option<usize>>)
        ensures
            self.is_big() ==> r@ == seq![None::<usize>],
            !self.is_big() ==> r@ == self.addrs().map_values(|v: usize| Some(v)),
    {
        proof {
            use_type_invariant(self);
        }
        let mut r: Vec<Option<usize>> = Vec::new();
        if self.len == BIG_FENCE_THRESHOLD {
            r.push(None);
            assert(r@ =~= seq![None::<usize>]);
        } else {
            let mut i: usize = 0;
            while i < self.len
                invariant
                    self.len < BIG_FENCE_THRESHOLD,
                    i <= self.len,
                    r@ == self.fences@.subrange(0, i as int).map_values(|v: usize| Some(v)),
                decreases self.len - i,
            {
                r.push(Some(self.fences[i]));
                i = i + 1;
                assert(r@ =~= self.fences@.subrange(0, i as int).map_values(|v: usize| Some(v)));
            }
        }
        r
    }

    /// Add a single additional fence; `None` asks for a fence of the whole address space.
    pub fn add(&mut self, vaddr: Option<usize>, _asid: Option<usize>)
        ensures
            (old(self).is_big() || vaddr is None || old(self).addrs().len() == BIG_FENCE_THRESHOLD - 1)
                ==> final(self).is_big(),
            !(old(self).is_big() || vaddr is None || old(self).addrs().len() == BIG_FENCE_THRESHOLD - 1)
                ==> !final(self).is_big() && final(self).addrs() == old(self).addrs().push(vaddr->Some_0),
            final(self).is_big() ==> final(self).addrs() == Seq::<usize>::empty(),
    {
        proof {
            use_type_invariant(&*self);
        }
        match vaddr {
            Some(v) => {
                if self.len < BIG_FENCE_THRESHOLD - 1 {
                    let ghost before = self.fences@;
                    self.fences[self.len] = v;
                    self.len = self.len + 1;
                    assert(self.addrs() =~= old(self).addrs().push(v));
                } else {
                    self.len = BIG_FENCE_THRESHOLD;
                }
            },
            None => {
                self.len = BIG_FENCE_THRESHOLD;
            },
        }
    }

    /// Add the fences of another set.
    pub fn extend_from(&mut self, other: &Self)
        ensures
            (old(self).is_big() || other.is_big()
                || old(self).addrs().len() + other.addrs().len() >= BIG_FENCE_THRESHOLD) ==> final(self).is_big(),
            !(old(self).is_big() || other.is_big()
                || old(self).addrs().len() + other.addrs().len() >= BIG_FENCE_THRESHOLD)
                ==> !final(self).is_big() && final(self).addrs() == old(self).addrs() + other.addrs(),
            final(self).is_big() ==> final(self).addrs() == Seq::<usize>::empty(),
    {
        proof {
            use_type_invariant(&*self);
            use_type_invariant(other);
        }
        if self.len + other.len >= BIG_FENCE_THRESHOLD {
            self.len = BIG_FENCE_THRESHOLD;
        } else {
            let base = self.len;
            let mut i: usize = 0;
            while i < other.len
                invariant
                    base + other.len < BIG_FENCE_THRESHOLD,
                    self.len == base,
                    i <= other.len,
                    self.fences@.subrange(0, base as int) == old(self).fences@.subrange(0, base as int),
                    self.fences@.subrange(base as int, base + i) == other.fences@.subrange(0, i as int),
                    self.fences@.len() == 64,
                decreases other.len - i,
            {
                let ghost before = self.fences@;
                self.fences[base + i] = other.fences[i];
                assert(self.fences@.subrange(0, base as int) =~= before.subrange(0, base as int));
                assert(self.fences@.subrange(base as int, base + i + 1) =~= other.fences@.subrange(0, i + 1));
                i = i + 1;
            }
            self.len = base + other.len;
            assert(self.addrs() =~= old(self).addrs() + other.addrs()) by {
                assert(self.fences@.subrange(0, base as int) == old(self).fences@.subrange(0, base as int));
            }
        }
    }

    /// Clear this set.
    pub fn clear(&mut self)
        ensures
            !final(self).is_big(),
            final(self).addrs() == Seq::<usize>::empty(),
    {
        self.len = 0;
        assert(self.addrs() =~= Seq::<usize>::empty());
    }

    /// The addresses to fence individually; empty if the set is big.
    pub fn pending(&self) -> (r: Vec<usize>)
        ensures
            r@ == self.addrs(),
            self.is_big() ==> r@ == Seq::<usize>::empty(),
    {
        proof {
            use_type_invariant(self);
        }
        let len = if self.len == BIG_FENCE_THRESHOLD { 0 } else { self.len };
        let mut r: Vec<usize> = Vec::new();
        let mut i: usize = 0;
        while i < len
            invariant
                len <= self.len,
                len < BIG_FENCE_THRESHOLD || len == 0,
                self.len == BIG_FENCE_THRESHOLD ==> len == 0,
                self.len < BIG_FENCE_THRESHOLD ==> len == self.len,
                i <= len,
                r@ == self.fences@.subrange(0, i as int),
            decreases len - i,
        {
            r.push(self.fences[i]);
            i = i + 1;
            assert(r@ =~= self.fences@.subrange(0, i as int));
        }
        assert(r@ =~= self.addrs());
        r
    }
}

/// Shoot down TLBs by broadcasting a [`VmFenceSet`] to all online CPUs: the fences each CPU
/// performs (with one CPU online, the set is executed locally).
pub fn shootdown(set: &VmFenceSet) -> (r: Vec<Option<usize>>)
    ensures
        set.is_big() ==> r@ == seq![None::<usize>],
        !set.is_big() ==> r@ == set.addrs().map_values(|v: usize| Some(v)),
{
    set.execute()
}

} // verus!
