//! Fixed-capacity append log of announcement records.
//!
//! A class absorbs announcements into a single *active* buffer; once a buffer
//! is full it is locked (frozen) and no longer accepts writes. Frozen buffers
//! are immutable and may be handed out wholesale to the mining pipeline.

use vstd::prelude::*;

verus! {

/// A digest identifying an announcement or a proof structure's root.
/// The lifecycle logic only ever compares digests for equality, so the
/// digest is carried as a single machine word.
#[derive(Clone, Copy, PartialEq, Eq, Structural, Debug)]
pub struct Digest(pub u64);

/// One announcement record as the class stores and reports it: the
/// announcement's digest together with its index into the caller-owned
/// index list it arrived with.
#[derive(Clone, Copy, PartialEq, Eq, Structural, Debug)]
pub struct AnnData {
    pub hash: Digest,
    pub index: u32,
}

/// A capacity-bounded append log of announcement records.
///
/// Appends are accepted until the buffer holds `capacity` records or it is
/// locked, whichever comes first. A locked buffer never changes again.
pub struct AnnBuf {
    anns: Vec<AnnData>,
    capacity: usize,
    locked: bool,
}

impl AnnBuf {
    /// The records this buffer holds, oldest first.
    pub closed spec fn contents(self) -> Seq<AnnData> {
        self.anns@
    }

    /// The most records this buffer will ever hold.
    pub closed spec fn capacity_spec(self) -> nat {
        self.capacity as nat
    }

    /// Whether the buffer has been frozen against further writes.
    pub closed spec fn is_locked(self) -> bool {
        self.locked
    }

    /// How many records the buffer currently holds.
    pub open spec fn fill(self) -> nat {
        self.contents().len()
    }

    /// How many more records the buffer can accept.
    pub open spec fn free(self) -> nat {
        (self.capacity_spec() - self.fill()) as nat
    }

    pub open spec fn wf(self) -> bool {
        self.fill() <= self.capacity_spec()
    }

    /// A fresh, unlocked, empty buffer.
    pub fn new(capacity: usize) -> (r: Self)
        ensures
            r.wf(),
            r.contents() == Seq::<AnnData>::empty(),
            r.capacity_spec() == capacity,
            !r.is_locked(),
    {
        AnnBuf { anns: Vec::new(), capacity, locked: false }
    }

    /// Append records from `anns[start..]` until the batch is exhausted or
    /// the buffer is full; report how many were taken.
    pub fn push_anns(&mut self, anns: &Vec<AnnData>, start: usize) -> (consumed: usize)
        requires
            old(self).wf(),
            !old(self).is_locked(),
            start <= anns@.len(),
        ensures
            final(self).wf(),
            !final(self).is_locked(),
            final(self).capacity_spec() == old(self).capacity_spec(),
            consumed as int == (if anns@.len() - start <= old(self).free() {
                anns@.len() - start
            } else {
                old(self).free() as int
            }),
            final(self).contents() == old(self).contents() + anns@.subrange(
                start as int,
                start + consumed,
            ),
    {
        let mut i = start;
        while i < anns.len() && self.anns.len() < self.capacity
            invariant
                start <= i <= anns@.len(),
                self.capacity == old(self).capacity,
                self.locked == old(self).locked,
                self.anns@.len() <= self.capacity,
                i - start == self.anns@.len() - old(self).contents().len(),
                i < anns@.len() || i == anns@.len(),
                self.anns@ == old(self).contents() + anns@.subrange(start as int, i as int),
                i - start < anns@.len() - start || i == anns@.len(),
            decreases anns@.len() - i,
        {
            self.anns.push(anns[i]);
            proof {
                assert(self.anns@ == old(self).contents() + anns@.subrange(
                    start as int,
                    i + 1,
                )) by {
                    assert(anns@.subrange(start as int, i + 1) == anns@.subrange(
                        start as int,
                        i as int,
                    ).push(anns@[i as int]));
                }
            }
            i = i + 1;
        }
        i - start
    }

    /// Freeze the buffer: its contents are fixed from now on.
    pub fn lock(&mut self)
        requires
            old(self).wf(),
        ensures
            final(self).wf(),
            final(self).is_locked(),
            final(self).contents() == old(self).contents(),
            final(self).capacity_spec() == old(self).capacity_spec(),
    {
        self.locked = true;
    }

    /// The number of records the buffer holds.
    pub fn next_ann_index(&self) -> (r: usize)
        ensures
            r == self.fill(),
    {
        self.anns.len()
    }

    /// Copy out every record the buffer holds, oldest first.
    pub fn read_ready_anns(&self) -> (r: Vec<AnnData>)
        ensures
            r@ == self.contents(),
    {
        let mut out: Vec<AnnData> = Vec::new();
        let mut i: usize = 0;
        while i < self.anns.len()
            invariant
                i <= self.anns@.len(),
                out@ == self.anns@.subrange(0, i as int),
            decreases self.anns@.len() - i,
        {
            out.push(self.anns[i]);
            proof {
                assert(self.anns@.subrange(0, i + 1) == self.anns@.subrange(0, i as int).push(
                    self.anns@[i as int],
                ));
            }
            i = i + 1;
        }
        proof {
            assert(self.anns@.subrange(0, self.anns@.len() as int) == self.anns@);
        }
        out
    }
}

/// The records a sequence of buffers holds, buffer by buffer, oldest
/// buffer first.
pub open spec fn contents_of(bufs: Seq<AnnBuf>) -> Seq<AnnData>
    decreases bufs.len(),
{
    if bufs.len() == 0 {
        Seq::<AnnData>::empty()
    } else {
        contents_of(bufs.drop_last()) + bufs.last().contents()
    }
}

/// The sum of the fill counts of a sequence of buffers.
pub open spec fn fill_sum(bufs: Seq<AnnBuf>) -> nat
    decreases bufs.len(),
{
    if bufs.len() == 0 {
        0
    } else {
        fill_sum(bufs.drop_last()) + bufs.last().fill()
    }
}

/// Summing the buffers' fill counts counts each held record exactly once.
pub proof fn lemma_fill_sum_is_contents_len(bufs: Seq<AnnBuf>)
    ensures
        fill_sum(bufs) == contents_of(bufs).len(),
    decreases bufs.len(),
{
    if bufs.len() > 0 {
        lemma_fill_sum_is_contents_len(bufs.drop_last());
    }
}

/// Extending a prefix of a buffer sequence by one buffer appends exactly
/// that buffer's records.
pub proof fn lemma_contents_take_step(bufs: Seq<AnnBuf>, i: int)
    requires
        0 <= i < bufs.len(),
    ensures
        contents_of(bufs.take(i + 1)) == contents_of(bufs.take(i)) + bufs[i].contents(),
{
    assert(bufs.take(i + 1).drop_last() =~= bufs.take(i));
    assert(bufs.take(i + 1).last() == bufs[i]);
}

/// A prefix of a buffer sequence holds no more records than the whole.
pub proof fn lemma_contents_take_le(bufs: Seq<AnnBuf>, i: int)
    requires
        0 <= i <= bufs.len(),
    ensures
        contents_of(bufs.take(i)).len() <= contents_of(bufs).len(),
    decreases bufs.len() - i,
{
    if i == bufs.len() {
        assert(bufs.take(i) =~= bufs);
    } else {
        lemma_contents_take_step(bufs, i);
        lemma_contents_take_le(bufs, i + 1);
    }
}

} // verus!
