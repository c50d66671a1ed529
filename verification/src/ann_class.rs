//! A class of announcements sharing a block height and a minimum-work
//! bucket, and the lifecycle of the buffers it owns: ingestion into the
//! active buffer, rotation and freezing of full buffers, hand-off of frozen
//! buffers to the miner, and invalidation of dependent proof structures.

use crate::ann_buf::contents_of;
use crate::ann_buf::fill_sum;
use crate::ann_buf::lemma_contents_take_le;
use crate::ann_buf::lemma_contents_take_step;
use crate::ann_buf::lemma_fill_sum_is_contents_len;
use crate::ann_buf::AnnBuf;
use crate::ann_buf::AnnData;
use crate::ann_buf::Digest;
use crate::prooftree::ProofTree;
use rayon::iter::IntoParallelRefIterator;
use rayon::iter::ParallelIterator;
use vstd::prelude::*;

verus! {

/// What the announcement-target degradation arithmetic yields for ages
/// inside the three-block wait window — the only ages the effective-work
/// policy ever degrades. An announcement younger than the wait period
/// counts as worthless (the maximal compact target); one exactly at the
/// wait period counts at its base work, undegraded.
pub open spec fn degrade(base_work: u32, age: u32) -> u32
    recommends
        age <= 3,
{
    if age < 3 {
        0xffffffffu32
    } else {
        base_work
    }
}

/// The degradation arithmetic on the ages the policy admits.
fn degrade_work(base_work: u32, age: u32) -> (r: u32)
    requires
        age <= 3,
    ensures
        r == degrade(base_work, age),
{
    if age < 3 {
        0xffffffffu32
    } else {
        base_work
    }
}

/// Relies on rayon's `par_iter().map(..).collect()`: the closure is applied
/// to every buffer, and an indexed parallel iterator collects the results
/// in the buffers' order. Each buffer's records are copied out by the
/// verified `AnnBuf::read_ready_anns`, concurrently across buffers.
#[verifier::external_body]
fn par_copy_out(bufs: &Vec<AnnBuf>) -> (r: Vec<Vec<AnnData>>)
    ensures
        r@.len() == bufs@.len(),
        forall|i: int| 0 <= i < bufs@.len() ==> r@[i]@ == bufs@[i].contents(),
{
    bufs.par_iter().map(|b| b.read_ready_anns()).collect()
}

/// The classification parameters of a class: the block height its
/// announcements were minted against and the work bucket they fall in.
#[derive(Clone, Copy, PartialEq, Eq, Structural, Debug)]
pub struct HeightWork {
    pub block_height: u32,
    pub work: u32,
}

/// The error a steal returns while a mining hand-off is already in flight
/// for the class: the caller must try another class, not retry this one.
#[derive(Clone, Copy, PartialEq, Eq, Structural, Debug)]
pub struct AlreadyMining;

/// A link from a class to an externally shared proof structure, recording
/// the structure's root digest as it stood when the link was made. The
/// structure itself lives in a caller-owned registry; `origin` is its
/// position there.
#[derive(Clone, Copy, Debug)]
pub struct HashTree {
    pub origin: usize,
    pub root_hash: Option<Digest>,
}

/// One link's invalidation: if the link captured a root and the structure
/// still carries exactly that root, the structure is reset; a link with no
/// captured root, or one whose captured root the structure has already
/// moved past, changes nothing.
pub open spec fn invalidate_one(link: HashTree, trees: Seq<ProofTree>) -> Seq<ProofTree> {
    if link.root_hash is Some && link.origin < trees.len() && trees[link.origin as int].root_hash
        == link.root_hash {
        trees.update(link.origin as int, ProofTree { root_hash: None })
    } else {
        trees
    }
}

/// The registry after every link has been invalidated, first link first.
pub open spec fn invalidate_seq(links: Seq<HashTree>, trees: Seq<ProofTree>) -> Seq<ProofTree>
    decreases links.len(),
{
    if links.len() == 0 {
        trees
    } else {
        invalidate_one(links.last(), invalidate_seq(links.drop_last(), trees))
    }
}

/// Invalidation never changes how many structures the registry holds.
pub proof fn lemma_invalidate_seq_len(links: Seq<HashTree>, trees: Seq<ProofTree>)
    ensures
        invalidate_seq(links, trees).len() == trees.len(),
    decreases links.len(),
{
    if links.len() > 0 {
        lemma_invalidate_seq_len(links.drop_last(), trees);
    }
}

/// Invalidating one run of links and then another is invalidating their
/// concatenation.
pub proof fn lemma_invalidate_seq_app(a: Seq<HashTree>, b: Seq<HashTree>, trees: Seq<ProofTree>)
    ensures
        invalidate_seq(a + b, trees) == invalidate_seq(b, invalidate_seq(a, trees)),
    decreases b.len(),
{
    if b.len() == 0 {
        assert(a + b =~= a);
    } else {
        assert((a + b).drop_last() =~= a + b.drop_last());
        assert((a + b).last() == b.last());
        lemma_invalidate_seq_app(a, b.drop_last(), trees);
    }
}

/// A structure that is already reset stays reset, whatever links are
/// invalidated after it: invalidation only ever resets, never rebuilds.
pub proof fn lemma_reset_sticks(links: Seq<HashTree>, trees: Seq<ProofTree>, j: int)
    requires
        0 <= j < trees.len(),
        trees[j].root_hash is None,
    ensures
        invalidate_seq(links, trees)[j].root_hash is None,
    decreases links.len(),
{
    if links.len() > 0 {
        lemma_reset_sticks(links.drop_last(), trees, j);
        lemma_invalidate_seq_len(links.drop_last(), trees);
    }
}

/// Every link whose captured root still matched its structure's root at
/// the moment it was invalidated leaves that structure reset once the
/// whole link set has been invalidated.
pub proof fn lemma_matching_link_resets(links: Seq<HashTree>, trees: Seq<ProofTree>, i: int)
    requires
        0 <= i < links.len(),
        links[i].origin < trees.len(),
        links[i].root_hash is Some,
        invalidate_seq(links.take(i), trees)[links[i].origin as int].root_hash == links[i].root_hash,
    ensures
        invalidate_seq(links, trees)[links[i].origin as int].root_hash is None,
{
    let j = links[i].origin as int;
    let mid = invalidate_seq(links.take(i), trees);
    lemma_invalidate_seq_len(links.take(i), trees);
    assert(links =~= links.take(i + 1) + links.skip(i + 1));
    lemma_invalidate_seq_app(links.take(i + 1), links.skip(i + 1), trees);
    assert(links.take(i + 1).drop_last() =~= links.take(i));
    assert(links.take(i + 1).last() == links[i]);
    assert(invalidate_seq(links.take(i + 1), trees) == invalidate_one(links[i], mid));
    assert(invalidate_one(links[i], mid)[j].root_hash is None);
    lemma_invalidate_seq_len(links.take(i + 1), trees);
    lemma_reset_sticks(links.skip(i + 1), invalidate_one(links[i], mid), j);
}

/// A link whose captured root no longer matches leaves its structure
/// untouched when it is invalidated.
pub proof fn lemma_stale_link_no_op(link: HashTree, trees: Seq<ProofTree>)
    requires
        link.origin < trees.len(),
        trees[link.origin as int].root_hash != link.root_hash,
    ensures
        invalidate_one(link, trees) == trees,
{
}

/// A link that never captured a root, or whose captured root was already
/// cleared by an earlier invalidation, is inert: invalidating it again
/// changes nothing.
pub proof fn lemma_inert_link_no_op(link: HashTree, trees: Seq<ProofTree>)
    requires
        link.root_hash is None,
    ensures
        invalidate_one(link, trees) == trees,
{
}

/// Absorbing one batch and then another loses and duplicates nothing: the
/// class ends up holding exactly what it held at the start, followed by the
/// two absorbed prefixes, in arrival order. With `push_anns`'s contract
/// this extends to any chain of pushes: whenever the supplied capacity
/// covers the combined batches, every record is absorbed exactly once.
pub proof fn lemma_push_absorbs_in_order(
    pre: AnnClass,
    mid: AnnClass,
    post: AnnClass,
    b1: Seq<AnnData>,
    b2: Seq<AnnData>,
)
    requires
        mid.all_contents() == pre.all_contents() + b1,
        post.all_contents() == mid.all_contents() + b2,
    ensures
        post.all_contents() == pre.all_contents() + (b1 + b2),
{
    assert(pre.all_contents() + (b1 + b2) =~= (pre.all_contents() + b1) + b2);
}

/// Well-formedness follows the buffers alone: a class holding the same
/// frozen set and the same active buffer as a well-formed one is itself
/// well-formed.
proof fn lemma_wf_same_bufs(a: AnnClass, b: AnnClass)
    requires
        b.wf(),
        a.frozen() == b.frozen(),
        a.top() == b.top(),
    ensures
        a.wf(),
{
    assert forall|i: int|
        0 <= i < a.frozen().len() implies (#[trigger] a.frozen()[i]).wf()
        && a.frozen()[i].is_locked() by {
        assert(a.frozen()[i] == b.frozen()[i]);
    }
}

impl HashTree {
    /// Invalidate this link against the registry holding its structure:
    /// reset the structure if it still carries the captured root, and clear
    /// the captured root so a second invalidation is a no-op.
    pub fn invalidate(&mut self, trees: &mut Vec<ProofTree>)
        requires
            old(self).origin < old(trees)@.len(),
        ensures
            final(trees)@ == invalidate_one(*old(self), old(trees)@),
            final(trees)@.len() == old(trees)@.len(),
            final(self).root_hash is None,
            final(self).origin == old(self).origin,
    {
        match self.root_hash {
            None => {
                // never captured a root: already inert
            },
            Some(captured) => {
                let cur = trees[self.origin].root_hash;
                let same = match cur {
                    Some(c) => c == captured,
                    None => false,
                };
                if same {
                    let pf = &mut trees[self.origin];
                    pf.reset();
                }
            },
        }
        self.root_hash = None;
    }
}

/// The single unit of mutual exclusion of a class: the frozen buffers (in
/// the order they were frozen), the one active buffer (absent once the
/// class is drained), the links to dependent proof structures, and the
/// mining-in-progress latch.
struct AnnClassMut {
    bufs: Vec<AnnBuf>,
    topbuf: Option<AnnBuf>,
    dependent_trees: Vec<HashTree>,
    mining: bool,
}

/// A classification of announcements sharing the same work done and the
/// same block height, together with the buffers currently holding them.
pub struct AnnClass {
    m: AnnClassMut,
    /// The digest of the block this class is associated with.
    block_hash: Digest,
    block_height: u32,
    min_ann_work: u32,
    pub id: usize,
}

impl AnnClass {
    /// The frozen buffers, oldest first; a steal removes the newest.
    pub closed spec fn frozen(self) -> Seq<AnnBuf> {
        self.m.bufs@
    }

    /// The active buffer, or `None` once the class is drained.
    pub closed spec fn top(self) -> Option<AnnBuf> {
        self.m.topbuf
    }

    /// The links to the proof structures built over this class's records.
    pub closed spec fn links(self) -> Seq<HashTree> {
        self.m.dependent_trees@
    }

    /// Whether a mining hand-off is in flight for this class.
    pub closed spec fn is_mining(self) -> bool {
        self.m.mining
    }

    /// The block height this class's announcements were minted against.
    pub closed spec fn height(self) -> u32 {
        self.block_height
    }

    /// The class's base work threshold (compact target form).
    pub closed spec fn base_work(self) -> u32 {
        self.min_ann_work
    }

    /// The class's stable identity.
    pub closed spec fn id_spec(self) -> usize {
        self.id
    }

    /// The records held by the frozen buffers, oldest buffer first.
    pub open spec fn frozen_contents(self) -> Seq<AnnData> {
        contents_of(self.frozen())
    }

    /// The records held by the active buffer.
    pub open spec fn top_contents(self) -> Seq<AnnData> {
        match self.top() {
            Some(b) => b.contents(),
            None => Seq::<AnnData>::empty(),
        }
    }

    /// Every record the class currently holds: the frozen buffers'
    /// records followed by the active buffer's.
    pub open spec fn all_contents(self) -> Seq<AnnData> {
        self.frozen_contents() + self.top_contents()
    }

    /// How many more records the active buffer can absorb without a
    /// rotation.
    pub open spec fn top_free(self) -> nat {
        match self.top() {
            Some(b) => b.free(),
            None => 0,
        }
    }

    /// Every frozen buffer is locked, the active buffer is not, and every
    /// buffer respects its capacity.
    pub open spec fn wf(self) -> bool {
        &&& forall|i: int|
            0 <= i < self.frozen().len() ==> (#[trigger] self.frozen()[i]).wf()
                && self.frozen()[i].is_locked()
        &&& match self.top() {
            Some(b) => b.wf() && !b.is_locked(),
            None => true,
        }
    }

    /// The immutable identity of the class is shared by `a` and `b`.
    pub open spec fn same_identity(a: AnnClass, b: AnnClass) -> bool {
        &&& a.height() == b.height()
        &&& a.base_work() == b.base_work()
        &&& a.id_spec() == b.id_spec()
    }

    /// Build a class over an initial buffer set: `bufs` are already frozen,
    /// `topbuf` (if any) is the buffer that will absorb new announcements.
    pub fn new(topbuf: Option<AnnBuf>, bufs: Vec<AnnBuf>, hw: &HeightWork, id: usize) -> (r: Self)
        requires
            forall|i: int|
                0 <= i < bufs@.len() ==> (#[trigger] bufs@[i]).wf() && bufs@[i].is_locked(),
            topbuf is Some ==> topbuf->0.wf() && !topbuf->0.is_locked(),
        ensures
            r.wf(),
            r.frozen() == bufs@,
            r.top() == topbuf,
            r.links().len() == 0,
            !r.is_mining(),
            r.height() == hw.block_height,
            r.base_work() == hw.work,
            r.id_spec() == id,
    {
        AnnClass {
            m: AnnClassMut { bufs, topbuf, dependent_trees: Vec::new(), mining: false },
            block_hash: Digest(0),
            block_height: hw.block_height,
            min_ann_work: hw.work,
            id,
        }
    }

    /// Build a class from a non-empty buffer set: the last buffer becomes
    /// the active one (it will be the last to be stolen), the rest are the
    /// already frozen buffers.
    pub fn with_bufs(bufs: Vec<AnnBuf>, hw: &HeightWork, id: usize) -> (r: Self)
        requires
            bufs@.len() > 0,
            forall|i: int|
                0 <= i < bufs@.len() - 1 ==> (#[trigger] bufs@[i]).wf() && bufs@[i].is_locked(),
            bufs@.last().wf(),
            !bufs@.last().is_locked(),
        ensures
            r.wf(),
            r.frozen() == bufs@.drop_last(),
            r.top() == Some(bufs@.last()),
            r.links().len() == 0,
            !r.is_mining(),
            r.height() == hw.block_height,
            r.base_work() == hw.work,
            r.id_spec() == id,
    {
        let mut bufs = bufs;
        let topbuf = bufs.pop().unwrap();
        Self::new(Some(topbuf), bufs, hw, id)
    }

    /// The class holds nothing at all: no frozen buffer and no active
    /// buffer. Its owner may destroy it.
    pub fn is_dead(&self) -> (r: bool)
        ensures
            r == (self.frozen().len() == 0 && self.top() is None),
    {
        self.m.bufs.len() == 0 && self.m.topbuf.is_none()
    }

    /// Set or clear the mining latch. The steal protocol refuses to remove
    /// any buffer while the latch is set; holding it around the actual
    /// mining work is the caller's responsibility.
    pub fn set_mining(&mut self, mining: bool)
        ensures
            final(self).is_mining() == mining,
            final(self).frozen() == old(self).frozen(),
            final(self).top() == old(self).top(),
            final(self).links() == old(self).links(),
            Self::same_identity(*final(self), *old(self)),
            old(self).wf() ==> final(self).wf(),
    {
        self.m.mining = mining;
        proof {
            if old(self).wf() {
                lemma_wf_same_bufs(*self, *old(self));
            }
        }
    }

    /// Absorb a batch of records. The active buffer takes what fits; if the
    /// batch outgrows it, the active buffer is frozen, appended to the
    /// frozen set, and the caller's spare buffer rotates in to absorb the
    /// rest. Returns how many records were absorbed, and the spare buffer
    /// back if no rotation consumed it. A partial count is not a failure:
    /// the caller retries the remainder with a fresh spare.
    pub fn push_anns(&mut self, anns: &Vec<AnnData>, buf: AnnBuf) -> (r: (usize, Option<AnnBuf>))
        requires
            old(self).wf(),
            buf.wf(),
            !buf.is_locked(),
            buf.fill() == 0,
        ensures
            final(self).wf(),
            Self::same_identity(*final(self), *old(self)),
            final(self).links() == old(self).links(),
            final(self).is_mining() == old(self).is_mining(),
            // every absorbed record is kept, exactly once, in order:
            final(self).all_contents() == old(self).all_contents() + anns@.take(r.0 as int),
            // what is absorbed is the batch, cut to the available room:
            r.0 as int == (if anns@.len() <= old(self).top_free() + buf.capacity_spec() {
                anns@.len() as int
            } else {
                old(self).top_free() + buf.capacity_spec() as int
            }),
            // the spare comes back exactly when no rotation was needed:
            (r.1 is Some) == (old(self).top() is Some && anns@.len() <= old(self).top_free()),
            r.1 is Some ==> r.1->0 == buf,
            r.1 is Some ==> final(self).frozen() == old(self).frozen(),
            final(self).top() is Some,
            // where the absorbed records land:
            final(self).top_contents() == (if old(self).top() is Some && anns@.len() <= old(
                self,
            ).top_free() {
                old(self).top_contents() + anns@.take(r.0 as int)
            } else if old(self).top() is Some {
                anns@.subrange(old(self).top_free() as int, r.0 as int)
            } else {
                anns@.take(r.0 as int)
            }),
            final(self).frozen().len() == old(self).frozen().len() + (if old(self).top() is Some
                && anns@.len() > old(self).top_free() {
                1int
            } else {
                0int
            }),
    {
        let mut total: usize = 0;
        let mut fits = false;
        // fast path: the active buffer takes the whole batch
        match &mut self.m.topbuf {
            Some(tb) => {
                total = tb.push_anns(anns, 0);
                fits = total == anns.len();
            },
            None => {},
        }
        if fits {
            proof {
                assert(anns@.subrange(0, total as int) == anns@.take(total as int));
                assert(self.all_contents() =~= old(self).all_contents() + anns@.take(
                    total as int,
                ));
                assert forall|i: int|
                    0 <= i < self.frozen().len() implies (#[trigger] self.frozen()[i]).wf()
                    && self.frozen()[i].is_locked() by {
                    assert(self.frozen()[i] == old(self).frozen()[i]);
                }
            }
            return (total, Some(buf));
        }
        // rotation: freeze and shelve the displaced active buffer, then let
        // the caller's spare absorb the rest as the new active buffer
        let oldtop = self.m.topbuf.take();
        if let Some(mut ot) = oldtop {
            ot.lock();
            self.m.bufs.push(ot);
        }
        let mut newtop = buf;
        let consumed2 = newtop.push_anns(anns, total);
        let total2 = total + consumed2;
        self.m.topbuf = Some(newtop);
        proof {
            let pre = *old(self);
            let fro = self.frozen();
            if pre.top() is Some {
                assert(fro.drop_last() =~= pre.frozen());
                assert(fro.last().contents() == pre.top_contents() + anns@.take(total as int)) by {
                    assert(anns@.subrange(0, total as int) == anns@.take(total as int));
                }
            } else {
                assert(fro == pre.frozen());
                assert(total == 0);
            }
            assert(contents_of(fro) =~= pre.frozen_contents() + pre.top_contents() + anns@.take(
                total as int,
            ));
            assert(self.top_contents() == anns@.subrange(total as int, total2 as int));
            assert(anns@.take(total as int) + anns@.subrange(total as int, total2 as int)
                =~= anns@.take(total2 as int));
            assert(self.all_contents() =~= old(self).all_contents() + anns@.take(total2 as int));
            assert forall|i: int|
                0 <= i < self.frozen().len() implies (#[trigger] self.frozen()[i]).wf()
                && self.frozen()[i].is_locked() by {
                if i < pre.frozen().len() {
                    assert(self.frozen()[i] == pre.frozen()[i]);
                }
            }
        }
        (total2, None)
    }

    /// Hand one buffer to the mining consumer. Refused outright while a
    /// mining hand-off is already in flight. With no frozen buffer, the
    /// active buffer (possibly part-filled) is taken, leaving the class
    /// dead. Otherwise every dependent proof structure is invalidated —
    /// removing a buffer changes the announcement set they were built
    /// over — the link set is cleared, and the newest frozen buffer is
    /// removed and returned. `trees` is the caller-owned registry that the
    /// class's links point into.
    pub fn steal_buf(&mut self, trees: &mut Vec<ProofTree>) -> (r: Result<
        Option<AnnBuf>,
        AlreadyMining,
    >)
        requires
            old(self).wf(),
            forall|i: int|
                0 <= i < old(self).links().len() ==> (#[trigger] old(self).links()[i]).origin < old(
                    trees,
                )@.len(),
        ensures
            final(self).wf(),
            Self::same_identity(*final(self), *old(self)),
            final(self).is_mining() == old(self).is_mining(),
            final(trees)@.len() == old(trees)@.len(),
            r is Err <==> old(self).is_mining(),
            // refused: nothing moves while the latch is held
            old(self).is_mining() ==> *final(self) == *old(self) && final(trees)@ == old(trees)@,
            // no frozen buffer: the active buffer is taken, trees are kept
            !old(self).is_mining() && old(self).frozen().len() == 0 ==> r->Ok_0 == old(self).top()
                && final(self).top() is None && final(self).frozen() == old(self).frozen()
                && final(self).links() == old(self).links() && final(trees)@ == old(trees)@,
            // frozen buffers: the newest is taken, after every dependent
            // proof structure is invalidated and the links are dropped
            !old(self).is_mining() && old(self).frozen().len() > 0 ==> r->Ok_0 == Some(
                old(self).frozen().last(),
            ) && final(self).frozen() == old(self).frozen().drop_last() && final(self).top() == old(
                self,
            ).top() && final(self).links().len() == 0 && final(trees)@ == invalidate_seq(
                old(self).links(),
                old(trees)@,
            ),
    {
        if self.m.mining {
            return Err(AlreadyMining);
        }
        if self.m.bufs.len() == 0 {
            return Ok(self.m.topbuf.take());
        }
        // a frozen buffer is about to leave: every cached proof structure
        // assumed the current buffer set, so invalidate them all first
        let ghost links0 = self.m.dependent_trees@;
        let ghost trees0 = trees@;
        let n = self.m.dependent_trees.len();
        let mut i: usize = 0;
        proof {
            assert(links0.take(0) =~= Seq::<HashTree>::empty());
            assert forall|k: int|
                0 <= k < links0.len() implies (#[trigger] links0[k]).origin < trees0.len() by {
                assert(links0[k] == old(self).links()[k]);
            }
        }
        while i < n
            invariant
                i <= n,
                n == links0.len(),
                *self == *old(self),
                self.m.dependent_trees@ == links0,
                forall|k: int|
                    0 <= k < links0.len() ==> (#[trigger] links0[k]).origin < trees0.len(),
                trees@.len() == trees0.len(),
                trees@ == invalidate_seq(links0.take(i as int), trees0),
            decreases n - i,
        {
            let mut link = self.m.dependent_trees[i];
            proof {
                lemma_invalidate_seq_len(links0.take(i as int), trees0);
            }
            link.invalidate(trees);
            proof {
                assert(links0.take(i + 1).drop_last() =~= links0.take(i as int));
                assert(links0.take(i + 1).last() == links0[i as int]);
            }
            i = i + 1;
        }
        proof {
            assert(links0.take(n as int) =~= links0);
        }
        self.m.dependent_trees.clear();
        let b = self.m.bufs.pop();
        proof {
            assert forall|k: int|
                0 <= k < self.frozen().len() implies (#[trigger] self.frozen()[k]).wf()
                && self.frozen()[k].is_locked() by {
                assert(self.frozen()[k] == old(self).frozen()[k]);
            }
        }
        Ok(b)
    }

    /// How many announcements are ready for mining: the records held by
    /// the frozen buffers. The active buffer is never counted — it may
    /// still be absorbing.
    pub fn ready_anns(&self) -> (r: usize)
        requires
            self.wf(),
            fill_sum(self.frozen()) <= usize::MAX,
        ensures
            r == fill_sum(self.frozen()),
            r == self.frozen_contents().len(),
    {
        proof {
            lemma_fill_sum_is_contents_len(self.frozen());
        }
        let mut sum: usize = 0;
        let mut i: usize = 0;
        while i < self.m.bufs.len()
            invariant
                i <= self.frozen().len(),
                sum == contents_of(self.frozen().take(i as int)).len(),
                self.frozen_contents().len() <= usize::MAX,
            decreases self.frozen().len() - i,
        {
            let f = self.m.bufs[i].next_ann_index();
            proof {
                lemma_contents_take_step(self.frozen(), i as int);
                lemma_contents_take_le(self.frozen(), i + 1);
            }
            sum = sum + f;
            i = i + 1;
        }
        proof {
            assert(self.frozen().take(self.frozen().len() as int) =~= self.frozen());
        }
        sum
    }

    /// `ready_anns` together with how many frozen buffers hold them.
    pub fn ready_anns_bufs(&self) -> (r: (usize, usize))
        requires
            self.wf(),
            fill_sum(self.frozen()) <= usize::MAX,
        ensures
            r.0 == fill_sum(self.frozen()),
            r.0 == self.frozen_contents().len(),
            r.1 == self.frozen().len(),
    {
        let anns = self.ready_anns();
        (anns, self.m.bufs.len())
    }

    /// Copy every frozen buffer's records into the front of `out`, buffer
    /// by buffer, oldest buffer first; the rest of `out` is untouched. The
    /// caller must supply room for at least `ready_anns()` records. The
    /// per-buffer copies run concurrently: each one fills its own disjoint
    /// stretch of the output, and frozen buffers no longer change.
    pub fn read_ready_anns(&self, out: &mut Vec<AnnData>)
        requires
            self.wf(),
            self.frozen_contents().len() <= old(out)@.len(),
        ensures
            final(out)@.len() == old(out)@.len(),
            final(out)@.take(self.frozen_contents().len() as int) == self.frozen_contents(),
            final(out)@.skip(self.frozen_contents().len() as int) == old(out)@.skip(
                self.frozen_contents().len() as int,
            ),
    {
        let parts = par_copy_out(&self.m.bufs);
        let out_len: usize = out.len();
        let mut pos: usize = 0;
        let mut i: usize = 0;
        proof {
            assert(self.frozen().take(0) =~= Seq::<AnnBuf>::empty());
        }
        while i < parts.len()
            invariant
                parts@.len() == self.frozen().len(),
                forall|k: int| 0 <= k < parts@.len() ==> (#[trigger] parts@[k])@ == self.frozen()[k].contents(),
                i <= parts@.len(),
                pos == contents_of(self.frozen().take(i as int)).len(),
                self.frozen_contents().len() <= out@.len(),
                out@.len() == old(out)@.len(),
                out@.len() == out_len,
                out@.take(pos as int) == contents_of(self.frozen().take(i as int)),
                out@.skip(pos as int) == old(out)@.skip(pos as int),
            decreases parts@.len() - i,
        {
            proof {
                lemma_contents_take_step(self.frozen(), i as int);
                lemma_contents_take_le(self.frozen(), i + 1);
            }
            let part = &parts[i];
            let mut j: usize = 0;
            while j < part.len()
                invariant
                    parts@.len() == self.frozen().len(),
                    i < parts@.len(),
                    part@ == parts@[i as int]@,
                    part@ == self.frozen()[i as int].contents(),
                    j <= part@.len(),
                    pos == contents_of(self.frozen().take(i as int)).len() + j,
                    contents_of(self.frozen().take(i + 1)).len() == contents_of(
                        self.frozen().take(i as int),
                    ).len() + part@.len(),
                    contents_of(self.frozen().take(i + 1)).len()
                        <= self.frozen_contents().len(),
                    self.frozen_contents().len() <= out@.len(),
                    out@.len() == old(out)@.len(),
                    out@.len() == out_len,
                    out@.take(pos as int) == contents_of(self.frozen().take(i as int))
                        + part@.take(j as int),
                    out@.skip(pos as int) == old(out)@.skip(pos as int),
                decreases part@.len() - j,
            {
                let ghost out_before = out@;
                let v = part[j];
                let slot = &mut out[pos];
                *slot = v;
                proof {
                    assert(out@ =~= out_before.update(pos as int, v));
                    assert(out@.take(pos + 1) =~= out_before.take(pos as int).push(v));
                    assert(contents_of(self.frozen().take(i as int)) + part@.take(j + 1)
                        =~= (contents_of(self.frozen().take(i as int)) + part@.take(
                        j as int,
                    )).push(part@[j as int]));
                    assert(out@.skip(pos + 1) =~= old(out)@.skip(pos + 1)) by {
                        assert forall|k: int|
                            pos + 1 <= k < out@.len() implies out@[k] == old(out)@[k] by {
                            assert(out_before.skip(pos as int)[k - pos] == old(out)@.skip(
                                pos as int,
                            )[k - pos]);
                        }
                    }
                }
                pos = pos + 1;
                j = j + 1;
            }
            proof {
                assert(out@.take(pos as int) =~= contents_of(self.frozen().take(i + 1))) by {
                    assert(part@.take(part@.len() as int) =~= part@);
                }
            }
            i = i + 1;
        }
        proof {
            assert(self.frozen().take(self.frozen().len() as int) =~= self.frozen());
        }
    }

    /// The effective value of this class's announcements when mining the
    /// block at `next_block_height`, as a compact target: lower numbers
    /// are more valuable. Within three blocks of the class's height the
    /// base work is degraded by the announcements' age; past that window
    /// the base work is reported unchanged.
    pub fn ann_effective_work(&self, next_block_height: u32) -> (r: u32)
        requires
            self.height() <= next_block_height,
        ensures
            self.height() + 3 < next_block_height ==> r == self.base_work(),
            next_block_height <= self.height() + 3 ==> r == degrade(
                self.base_work(),
                (next_block_height - self.height()) as u32,
            ),
    {
        if (self.block_height as u64) + 3 < next_block_height as u64 {
            return self.min_ann_work;
        }
        degrade_work(self.min_ann_work, next_block_height - self.block_height)
    }

    /// Record a link from this class to an externally shared proof
    /// structure; the link carries the structure's root digest as captured
    /// by the proof builder.
    pub fn add_dependent_tree(&mut self, link: HashTree)
        ensures
            final(self).links() == old(self).links().push(link),
            final(self).frozen() == old(self).frozen(),
            final(self).top() == old(self).top(),
            final(self).is_mining() == old(self).is_mining(),
            Self::same_identity(*final(self), *old(self)),
            old(self).wf() ==> final(self).wf(),
    {
        self.m.dependent_trees.push(link);
        proof {
            if old(self).wf() {
                lemma_wf_same_bufs(*self, *old(self));
            }
        }
    }
}

} // verus!
