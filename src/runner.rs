use vstd::prelude::*;

use crate::attribute::{attr_views, AttrView, PayloadAttributeImpl};
use crate::block::{convert_deposits, Batch, ConversionError, L1BlockInfoImpl};
use crate::da::{
    after_ready, collect_spec, epochs_in, epochs_of, frame_views, invalidate_spec, lemma_after_ready_from,
    lemma_apply_frames_from, lemma_epochs_in_trans, lemma_invalidate, lemma_prune_from, lemma_ready_attrs_from,
    commit_spec, ready_attrs, DaDeriver, Frame, PendingView,
};
use crate::engine::{Engine, EngineError};
use crate::epoch::{hash_eq, EpochInfo, L1HeadImpl};

verus! {

broadcast use EpochInfo::lemma_of_head;

/// Derives the payload attribute of a block's deposits, with no outside reads.
pub struct InstantDeriver {}

impl InstantDeriver {
    pub fn new() -> (r: InstantDeriver) {
        InstantDeriver {}
    }

    pub fn derive(&self, block: &L1BlockInfoImpl) -> (r: Result<PayloadAttributeImpl, ConversionError>)
        ensures
            match (r, block.spec_attribute()) {
                (Ok(a), Ok(v)) => a@ == v,
                (Err(e), Err(f)) => e == f,
                _ => false,
            },
    {
        let txs = match convert_deposits(block.deposit_transactions()) {
            Ok(v) => v,
            Err(e) => {
                return Err(e);
            },
        };
        let epoch = match EpochInfo::try_from(*block.l1_head()) {
            Ok(e) => e,
            Err(e) => {
                return Err(e);
            },
        };
        Ok(PayloadAttributeImpl::new(txs, epoch))
    }
}

/// What a successful `advance` did.
#[derive(Clone, Copy, PartialEq, Eq, Structural, Debug)]
pub enum Progress {
    /// No new L1 block was available.
    CaughtUp,
    /// The given blocks were all derived and accepted, after going back to
    /// the block they branch from when the base chain had reorganised.
    Advanced,
}

/// Why `advance` failed; the runner's derivation state has not changed.
#[derive(Clone, Copy, PartialEq, Eq, Structural, Debug)]
pub enum RunnerError {
    /// A derivation strategy has not been registered.
    NotRegistered,
    /// The first block is above the block after the cursor.
    UnexpectedHeight { found: u64 },
    /// The first block branches off at or below the anchor. The anchor is
    /// final: the runner never goes back past the block it started from.
    ReorgPastAnchor,
    /// The first block's parent is not the derived block at its height, or
    /// the first block is itself already derived: the blocks do not start
    /// where the canonical chain leaves the derived one.
    Unlinked { found: u64 },
    /// A block of the list is not the child of the one before it.
    BrokenChain,
    /// A deposit of a block could not be converted.
    Conversion(ConversionError),
    /// The engine refused an attribute.
    Engine(EngineError),
}

/// Whether some entry of the log belongs to epoch `e`.
pub open spec fn logged(log: Seq<AttrView>, e: EpochInfo) -> bool {
    exists|j: int| 0 <= j < log.len() && #[trigger] log[j].1 == e
}

/// The attributes one step submits: the block's instant attribute first, then
/// the DA attributes that became ready, in commit order.
pub open spec fn planned(
    block: L1BlockInfoImpl,
    pending: Seq<PendingView>,
    horizon: u64,
    frames: Seq<crate::da::FrameView>,
) -> Seq<AttrView> {
    match block.spec_attribute() {
        Ok(a) => seq![a] + ready_attrs(
            collect_spec(pending, block.spec_batch(), EpochInfo::of_head(block.spec_head()), frames, horizon),
        ),
        Err(_) => Seq::empty(),
    }
}

/// The batch state after one block's step.
pub open spec fn step_pending(
    block: L1BlockInfoImpl,
    pending: Seq<PendingView>,
    horizon: u64,
    frames: Seq<crate::da::FrameView>,
) -> Seq<PendingView> {
    after_ready(collect_spec(pending, block.spec_batch(), EpochInfo::of_head(block.spec_head()), frames, horizon))
}

/// The attributes that deriving `chain` in order submits, and the batch state
/// after it; the frames arrive with the last block.
pub open spec fn derive_chain(
    pending: Seq<PendingView>,
    horizon: u64,
    chain: Seq<L1BlockInfoImpl>,
    frames: Seq<crate::da::FrameView>,
) -> (Seq<AttrView>, Seq<PendingView>)
    decreases chain.len(),
{
    if chain.len() == 0 {
        (Seq::empty(), pending)
    } else {
        let prev = derive_chain(pending, horizon, chain.drop_last(), Seq::empty());
        (
            prev.0 + planned(chain.last(), prev.1, horizon, frames),
            step_pending(chain.last(), prev.1, horizon, frames),
        )
    }
}

/// The frames a prefix of `i` of `n` blocks sees: all of them at the last block only.
pub open spec fn frames_at(i: int, n: int, frames: Seq<crate::da::FrameView>) -> Seq<crate::da::FrameView> {
    if i == n {
        frames
    } else {
        Seq::empty()
    }
}

/// Instant attributes of all blocks in order, or the first conversion error.
pub open spec fn chain_convert(chain: Seq<L1BlockInfoImpl>) -> Result<Seq<AttrView>, ConversionError>
    decreases chain.len(),
{
    if chain.len() == 0 {
        Ok(Seq::empty())
    } else {
        match chain_convert(chain.drop_last()) {
            Err(e) => Err(e),
            Ok(p) => match chain.last().spec_attribute() {
                Err(e) => Err(e),
                Ok(a) => Ok(p.push(a)),
            },
        }
    }
}

/// Each block is the child of the one before it.
pub open spec fn chain_linked(chain: Seq<L1BlockInfoImpl>) -> bool {
    forall|i: int|
        1 <= i < chain.len() ==> {
            &&& (#[trigger] chain[i].spec_head()).parent_hash@ == chain[i - 1].spec_head().hash@
            &&& chain[i].spec_head().height == chain[i - 1].spec_head().height + 1
        }
}

pub open spec fn chain_epochs(chain: Seq<L1BlockInfoImpl>) -> Seq<EpochInfo> {
    chain.map_values(|b: L1BlockInfoImpl| EpochInfo::of_head(b.spec_head()))
}

/// Index in the history of the block that a block at `height` would follow.
pub open spec fn attach_index(h: Seq<EpochInfo>, height: u64) -> int {
    height - 1 - h[0].spec_height()
}

/// The state machine that feeds derived attributes to the engine, one L1 block at a time.
pub struct Runner<E: Engine> {
    engine: E,
    instant: Option<InstantDeriver>,
    da: Option<DaDeriver>,
    history: Vec<EpochInfo>,
}

impl<E: Engine> Runner<E> {
    /// The chain of blocks derived so far, starting with the anchor; its last
    /// entry is the cursor.
    pub closed spec fn spec_history(&self) -> Seq<EpochInfo> {
        self.history@
    }

    pub open spec fn spec_cursor(&self) -> EpochInfo {
        self.spec_history().last()
    }

    pub closed spec fn spec_engine(&self) -> E {
        self.engine
    }

    pub open spec fn applied(&self) -> Seq<AttrView> {
        self.spec_engine().applied()
    }

    pub closed spec fn has_instant(&self) -> bool {
        self.instant is Some
    }

    pub closed spec fn has_da(&self) -> bool {
        self.da is Some
    }

    pub open spec fn registered(&self) -> bool {
        self.has_instant() && self.has_da()
    }

    pub closed spec fn spec_pending(&self) -> Seq<PendingView> {
        match self.da {
            Some(d) => d.pending_view(),
            None => Seq::empty(),
        }
    }

    pub closed spec fn spec_horizon(&self) -> u64 {
        match self.da {
            Some(d) => d.spec_horizon(),
            None => 0,
        }
    }

    /// The history is a run of consecutive heights; every pending batch was
    /// committed by a derived block; each derived block has an entry in the
    /// engine's log.
    pub open spec fn wf(&self) -> bool {
        let h = self.spec_history();
        &&& h.len() >= 1
        &&& consecutive(h)
        &&& epochs_in(self.spec_pending(), h.skip(1))
        &&& all_logged(h, self.applied())
    }

    pub open spec fn same_setup(&self, other: Self) -> bool {
        &&& self.registered() == other.registered()
        &&& self.spec_horizon() == other.spec_horizon()
    }

    pub open spec fn unchanged(&self, other: Self) -> bool {
        &&& self.same_setup(other)
        &&& self.spec_history() == other.spec_history()
        &&& self.spec_pending() == other.spec_pending()
        &&& self.applied() == other.applied()
    }

    /// How `advance` on `chain` ends when it ends before anything is
    /// submitted; `None` when the blocks' attributes go to the engine.
    pub open spec fn decide(&self, chain: Seq<L1BlockInfoImpl>) -> Option<Result<Progress, RunnerError>> {
        let h = self.spec_history();
        if chain.len() == 0 {
            Some(Ok(Progress::CaughtUp))
        } else if !self.registered() {
            Some(Err(RunnerError::NotRegistered))
        } else {
            let first = chain[0].spec_head();
            let a = attach_index(h, first.height);
            if a < 0 {
                Some(Err(RunnerError::ReorgPastAnchor))
            } else if a >= h.len() {
                Some(Err(RunnerError::UnexpectedHeight { found: first.height }))
            } else if h[a].spec_hash() != first.parent_hash@ || (a + 1 < h.len() && h[a + 1].spec_hash() == first.hash@) {
                Some(Err(RunnerError::Unlinked { found: first.height }))
            } else if !chain_linked(chain) {
                Some(Err(RunnerError::BrokenChain))
            } else {
                match chain_convert(chain) {
                    Err(e) => Some(Err(RunnerError::Conversion(e))),
                    Ok(_) => None,
                }
            }
        }
    }

    /// A runner whose cursor is `anchor`, with no strategy registered.
    pub fn new(engine: E, anchor: EpochInfo) -> (r: Runner<E>)
        ensures
            r.wf(),
            r.spec_history() == seq![anchor],
            r.spec_engine() == engine,
            !r.registered(),
    {
        let mut history: Vec<EpochInfo> = Vec::new();
        history.push(anchor);
        let r = Runner { engine, instant: None, da: None, history };
        assert(r.spec_history() =~= seq![anchor]);
        assert(r.spec_pending() =~= Seq::<PendingView>::empty());
        r
    }

    pub fn register_instant(&mut self, derive: InstantDeriver)
        ensures
            final(self).spec_history() == old(self).spec_history(),
            final(self).spec_pending() == old(self).spec_pending(),
            final(self).spec_horizon() == old(self).spec_horizon(),
            final(self).spec_engine() == old(self).spec_engine(),
            final(self).has_instant(),
            old(self).wf() ==> final(self).wf(),
            final(self).has_da() == old(self).has_da(),
    {
        self.instant = Some(derive);
    }

    pub fn register_da(&mut self, derive: DaDeriver)
        requires
            old(self).wf(),
            derive.pending_view().len() == 0,
        ensures
            final(self).wf(),
            final(self).spec_history() == old(self).spec_history(),
            final(self).spec_pending() == derive.pending_view(),
            final(self).spec_horizon() == derive.spec_horizon(),
            final(self).spec_engine() == old(self).spec_engine(),
            final(self).has_da(),
            final(self).has_instant() == old(self).has_instant(),
    {
        self.da = Some(derive);
    }

    pub fn get_engine(&self) -> (r: &E)
        ensures
            *r == self.spec_engine(),
    {
        &self.engine
    }

    pub fn cursor(&self) -> (r: EpochInfo)
        requires
            self.wf(),
        ensures
            r == self.spec_cursor(),
    {
        self.history[self.history.len() - 1]
    }

    fn linked(chain: &Vec<L1BlockInfoImpl>) -> (r: bool)
        ensures
            r == chain_linked(chain@),
    {
        let n = chain.len();
        let mut j: usize = 1;
        while j < n
            invariant
                1 <= j,
                n == chain@.len(),
                forall|k: int| 1 <= k < j && k < n ==> {
                    &&& (#[trigger] chain@[k].spec_head()).parent_hash@ == chain@[k - 1].spec_head().hash@
                    &&& chain@[k].spec_head().height == chain@[k - 1].spec_head().height + 1
                },
            decreases n - j,
        {
            let prev = *chain[j - 1].l1_head();
            let cur = *chain[j].l1_head();
            if !hash_eq(&cur.parent_hash, &prev.hash) || prev.height == u64::MAX || cur.height != prev.height + 1 {
                return false;
            }
            j = j + 1;
        }
        true
    }

    /// The instant attributes of all blocks, or the first conversion error.
    fn convert_chain(instant: &InstantDeriver, chain: &Vec<L1BlockInfoImpl>) -> (r: Result<Vec<PayloadAttributeImpl>, ConversionError>)
        ensures
            match (r, chain_convert(chain@)) {
                (Ok(v), Ok(w)) => attr_views(v@) == w,
                (Err(e), Err(f)) => e == f,
                _ => false,
            },
            r is Ok ==> r->Ok_0@.len() == chain@.len(),
            r is Ok ==> forall|k: int| 0 <= k < chain@.len() ==> (#[trigger] chain@[k]).spec_attribute()
                == Ok::<AttrView, ConversionError>(attr_views(r->Ok_0@)[k]),
    {
        let n = chain.len();
        let mut insts: Vec<PayloadAttributeImpl> = Vec::new();
        let mut i: usize = 0;
        assert(chain@.take(0) =~= Seq::<L1BlockInfoImpl>::empty());
        assert(attr_views(insts@) =~= Seq::<AttrView>::empty());
        while i < n
            invariant
                i <= n,
                n == chain@.len(),
                chain_convert(chain@.take(i as int)) == Ok::<Seq<AttrView>, ConversionError>(attr_views(insts@)),
                attr_views(insts@).len() == i,
                forall|k: int| 0 <= k < i ==> (#[trigger] chain@[k]).spec_attribute() == Ok::<AttrView, ConversionError>(
                    attr_views(insts@)[k],
                ),
            decreases n - i,
        {
            assert(chain@.take(i as int + 1).drop_last() =~= chain@.take(i as int));
            let ghost before = insts@;
            match instant.derive(&chain[i]) {
                Err(e) => {
                    proof {
                        lemma_chain_convert_err_extends(chain@, i as int + 1);
                    }
                    return Err(e);
                },
                Ok(x) => {
                    insts.push(x);
                    assert(attr_views(insts@) =~= attr_views(before).push(x@));
                    assert(attr_views(insts@)[i as int] == x@);
                    assert forall|k: int| 0 <= k < i implies attr_views(insts@)[k] == attr_views(before)[k] by {}
                },
            }
            i = i + 1;
        }
        assert(chain@.take(n as int) =~= chain@);
        Ok(insts)
    }

    #[verifier::loop_isolation(false)]
    /// Submits `first`, then `rest` in order, stopping at the first refusal,
    /// which comes with the number of attributes accepted before it.
    fn submit_all(engine: &mut E, first: PayloadAttributeImpl, rest: Vec<PayloadAttributeImpl>) -> (r: Result<(), (EngineError, usize)>)
        ensures
            r is Ok ==> final(engine).applied() == old(engine).applied() + (seq![first@] + attr_views(rest@)),
            r is Err ==> {
                &&& r->Err_0.1 < 1 + rest@.len()
                &&& final(engine).applied() == old(engine).applied() + (seq![first@] + attr_views(rest@)).take(r->Err_0.1 as int)
            },
    {
        let ghost all = seq![first@] + attr_views(rest@);
        let ghost a0 = engine.applied();
        match engine.submit(first) {
            Err(e) => {
                assert(a0 + all.take(0) =~= a0);
                return Err((e, 0));
            },
            Ok(_) => {},
        }
        let ghost das_all = attr_views(rest@);
        let mut rest = rest;
        let m = rest.len();
        let mut q: usize = 0;
        assert(all.take(1) =~= seq![first@]);
        assert(das_all.skip(0) =~= das_all);
        while q < m
            invariant
                m == das_all.len(),
                q <= m,
                attr_views(rest@) == das_all.skip(q as int),
                engine.applied() == a0 + all.take(1 + q),
                all == seq![first@] + das_all,
            decreases m - q,
        {
            let ghost rv = rest@;
            assert(attr_views(rv).len() == rv.len());
            assert(attr_views(rv)[0] == rv[0]@);
            let x = rest.remove(0);
            proof {
                assert(x@ == das_all[q as int]);
                assert(attr_views(rest@) =~= attr_views(rv).skip(1));
                assert(attr_views(rest@) =~= das_all.skip(q as int + 1));
            }
            match engine.submit(x) {
                Err(e) => {
                    return Err((e, 1 + q));
                },
                Ok(_) => {},
            }
            q = q + 1;
            assert(all[q as int] == das_all[q - 1]);
            assert(a0 + all.take(1 + q) =~= (a0 + all.take(q as int)).push(x@));
        }
        assert(all.take(1 + m) =~= all);
        Ok(())
    }

    /// The index of the derived block that a block with head `first` follows.
    fn attach(&self, first: &L1HeadImpl) -> (r: Result<usize, RunnerError>)
        requires
            self.wf(),
        ensures
            ({
                let h = self.spec_history();
                let a = attach_index(h, first.height);
                if a < 0 {
                    r == Err::<usize, RunnerError>(RunnerError::ReorgPastAnchor)
                } else if a >= h.len() {
                    r == Err::<usize, RunnerError>(RunnerError::UnexpectedHeight { found: first.height })
                } else if h[a].spec_hash() != first.parent_hash@ || (a + 1 < h.len() && h[a + 1].spec_hash()
                    == first.hash@) {
                    r == Err::<usize, RunnerError>(RunnerError::Unlinked { found: first.height })
                } else {
                    r is Ok && r->Ok_0 as int == a
                }
            }),
    {
        let base = self.history[0].block_height();
        if first.height <= base {
            return Err(RunnerError::ReorgPastAnchor);
        }
        if first.height - 1 - base >= self.history.len() as u64 {
            return Err(RunnerError::UnexpectedHeight { found: first.height });
        }
        let a = (first.height - 1 - base) as usize;
        if !hash_eq(&self.history[a].block_hash(), &first.parent_hash) {
            return Err(RunnerError::Unlinked { found: first.height });
        }
        if a + 1 < self.history.len() && hash_eq(&self.history[a + 1].block_hash(), &first.hash) {
            return Err(RunnerError::Unlinked { found: first.height });
        }
        Ok(a)
    }

    /// The derived history up to and including index `a`.
    fn history_prefix(&self, a: usize) -> (r: Vec<EpochInfo>)
        requires
            a < self.spec_history().len(),
        ensures
            r@ == self.spec_history().take(a + 1),
    {
        let mut hist: Vec<EpochInfo> = Vec::new();
        let mut k: usize = 0;
        while k < self.history.len() && k <= a
            invariant
                k <= a + 1,
                a < self.history@.len(),
                hist@ == self.history@.take(k as int),
            decreases a + 1 - k,
        {
            hist.push(self.history[k]);
            k = k + 1;
            assert(hist@ =~= self.history@.take(k as int));
        }
        hist
    }

    /// The checks `advance` makes before submitting anything: on success,
    /// the index of the block the chain follows and the blocks' instant attributes.
    fn prepare(&self, chain: &Vec<L1BlockInfoImpl>) -> (r: Result<(usize, Vec<PayloadAttributeImpl>), RunnerError>)
        requires
            self.wf(),
            chain@.len() > 0,
        ensures
            r is Err ==> self.decide(chain@) == Some(Err::<Progress, RunnerError>(r->Err_0)),
            r is Ok ==> {
                &&& self.decide(chain@) is None
                &&& r->Ok_0.0 as int == attach_index(self.spec_history(), chain@[0].spec_head().height)
                &&& chain_linked(chain@)
                &&& r->Ok_0.1@.len() == chain@.len()
                &&& chain_convert(chain@) == Ok::<Seq<AttrView>, ConversionError>(attr_views(r->Ok_0.1@))
                &&& forall|k: int| 0 <= k < chain@.len() ==> (#[trigger] chain@[k]).spec_attribute()
                    == Ok::<AttrView, ConversionError>(attr_views(r->Ok_0.1@)[k])
            },
    {
        let instant = match &self.instant {
            None => {
                return Err(RunnerError::NotRegistered);
            },
            Some(d) => d,
        };
        if self.da.is_none() {
            return Err(RunnerError::NotRegistered);
        }
        let first = *chain[0].l1_head();
        let a = match self.attach(&first) {
            Err(e) => {
                return Err(e);
            },
            Ok(a) => a,
        };
        if !Self::linked(chain) {
            return Err(RunnerError::BrokenChain);
        }
        match Self::convert_chain(instant, chain) {
            Err(e) => Err(RunnerError::Conversion(e)),
            Ok(v) => Ok((a, v)),
        }
    }

    /// Derives the blocks of `chain` in order from `hist` and `cur`, submitting
    /// their attributes; on success, the history and batch state after them.
    #[verifier::loop_isolation(false)]
    #[verifier::rlimit(100)]
    #[verifier::spinoff_prover]
    fn derive_all(
        &mut self,
        chain: &Vec<L1BlockInfoImpl>,
        frames: &Vec<Frame>,
        insts: Vec<PayloadAttributeImpl>,
        hist: Vec<EpochInfo>,
        cur: DaDeriver,
        Ghost(inst_all): Ghost<Seq<AttrView>>,
    ) -> (r: Result<(Vec<EpochInfo>, DaDeriver), EngineError>)
        requires
            old(self).wf(),
            chain@.len() > 0,
            attr_views(insts@) == inst_all,
            inst_all.len() == chain@.len(),
            forall|k: int| 0 <= k < chain@.len() ==> (#[trigger] chain@[k]).spec_attribute() == Ok::<AttrView, ConversionError>(inst_all[k]),
            chain_linked(chain@),
            hist@.len() >= 1,
            consecutive(hist@),
            epochs_in(cur.pending_view(), hist@.skip(1)),
            all_logged(hist@, old(self).applied()),
            chain@[0].spec_head().height == hist@.last().spec_height() + 1,
            cur.spec_horizon() == old(self).spec_horizon(),
        ensures
            final(self).spec_history() == old(self).spec_history(),
            final(self).spec_pending() == old(self).spec_pending(),
            final(self).same_setup(*old(self)),
            ({
                let d = derive_chain(cur.pending_view(), cur.spec_horizon(), chain@, frame_views(frames@));
                let a0 = old(self).applied();
                match r {
                    Err(_) => {
                        &&& final(self).wf()
                        &&& exists|k: int| 0 <= k < d.0.len() && final(self).applied() == a0 + d.0.take(k)
                    },
                    Ok((h2, d2)) => {
                        let a2 = final(self).applied();
                        &&& h2@ == hist@ + chain_epochs(chain@)
                        &&& d2.pending_view() == d.1
                        &&& d2.spec_horizon() == cur.spec_horizon()
                        &&& a2 == a0 + d.0
                        &&& h2@.len() >= 1
                        &&& consecutive(h2@)
                        &&& epochs_in(d2.pending_view(), h2@.skip(1))
                        &&& all_logged(h2@, a2)
                        &&& forall|m: int| a0.len() <= m < a2.len() ==> h2@.contains((#[trigger] a2[m]).1)
                        &&& forall|m: int| a0.len() <= m < a2.len()
                            ==> inst_all.contains(#[trigger] a2[m]) || logged(a2.take(m), a2[m].1)
                    },
                }
            }),
    {
        let n = chain.len();
        let mut insts = insts;
        let mut hist = hist;
        let mut cur = cur;
        let ghost s0 = *self;
        let ghost h0 = hist@;
        let ghost hz = cur.spec_horizon();
        let ghost sv = cur.pending_view();
        let ghost fsv = frame_views(frames@);
        let ghost a0 = s0.applied();
        let empty: Vec<Frame> = Vec::new();
        proof {
            assert(frame_views(empty@) =~= Seq::<crate::da::FrameView>::empty());
            assert(chain@.take(0) =~= Seq::<L1BlockInfoImpl>::empty());
            assert(chain_epochs(chain@.take(0)) =~= Seq::<EpochInfo>::empty());
            assert(hist@ =~= h0 + chain_epochs(chain@.take(0)));
            assert(s0.applied().subrange(a0.len() as int, a0.len() as int) =~= Seq::<AttrView>::empty());
            assert(s0.applied().take(a0.len() as int) =~= a0);
            assert(inst_all.skip(0) =~= inst_all);
        }
        let mut i: usize = 0;
        while i < n
            invariant
                i <= n,
                n == chain@.len(),
                s0 == *old(self),
                self.history@ == s0.history@,
                self.da == s0.da,
                self.instant == s0.instant,
                cur.spec_horizon() == hz,
                attr_views(insts@) == inst_all.skip(i as int),
                inst_all.len() == n,
                hist@ == h0 + chain_epochs(chain@.take(i as int)),
                hist@.len() >= 1,
                consecutive(hist@),
                epochs_in(cur.pending_view(), hist@.skip(1)),
                all_logged(hist@, self.applied()),
                i < n ==> chain@[i as int].spec_head().height == hist@.last().spec_height() + 1,
                derive_chain(sv, hz, chain@.take(i as int), frames_at(i as int, n as int, fsv))
                    == (self.applied().subrange(a0.len() as int, self.applied().len() as int), cur.pending_view()),
                self.applied().take(a0.len() as int) == a0,
                a0.len() <= self.applied().len(),
                forall|m: int| a0.len() <= m < self.applied().len()
                    ==> hist@.contains((#[trigger] self.applied()[m]).1),
                forall|m: int| a0.len() <= m < self.applied().len()
                    ==> inst_all.contains(#[trigger] self.applied()[m])
                        || logged(self.applied().take(m), self.applied()[m].1),
            decreases n - i,
        {
            let ghost base_log = self.applied();
            let ghost pl = base_log.subrange(a0.len() as int, base_log.len() as int);
            let ghost hv = hist@;
            let ghost cv = cur.pending_view();
            let head = *chain[i].l1_head();
            let batch = *chain[i].batch_info();
            let epoch = EpochInfo::new(head.hash, head.height, head.timestamp);
            let fr: &Vec<Frame> = if i + 1 == n {
                frames
            } else {
                &empty
            };
            let ghost frv = frame_views(fr@);
            assert(frv == frames_at(i as int + 1, n as int, fsv));
            let ghost bv = chain@[i as int];
            let ghost step = planned(bv, cv, hz, frv);
            proof {
                assert(chain@.take(i as int + 1).drop_last() =~= chain@.take(i as int));
                assert(chain@.take(i as int + 1).last() == bv);
                assert(frames_at(i as int, n as int, fsv) == Seq::<crate::da::FrameView>::empty());
                lemma_chain_prefix(sv, hz, chain@, fsv, i as int + 1);
                assert(attr_views(insts@).len() == insts@.len());
                assert(attr_views(insts@)[0] == insts@[0]@);
                assert(inst_all[i as int] == insts@[0]@);
            }
            let ghost iv = insts@;
            let inst = insts.remove(0);
            proof {
                assert(attr_views(insts@) =~= attr_views(iv).skip(1));
                assert(attr_views(insts@) =~= inst_all.skip(i as int + 1));
            }
            let (das, next) = cur.derive(batch, epoch, fr);
            let ghost das_all = attr_views(das@);
            assert(step =~= seq![inst@] + das_all);
            match Self::submit_all(&mut self.engine, inst, das) {
                Err((e, q)) => {
                    proof {
                        lemma_fail_prefix(derive_chain(sv, hz, chain@, fsv).0, pl, step, q as int);
                        assert(base_log =~= a0 + pl);
                        lemma_all_logged_grow(s0.history@, a0, pl + step.take(q as int));
                        assert(self.applied() == a0 + (pl + step.take(q as int)));
                    }
                    return Err(e);
                },
                Ok(_) => {},
            }
            proof {
                assert(step[0] == inst_all[i as int]);
                assert(base_log =~= a0 + pl);
                lemma_block_done(hv, cv, chain@, i as int, frv, hz, a0, pl, step, inst_all);
                if i + 1 < n {
                    assert(chain@[i + 1].spec_head().height == bv.spec_head().height + 1);
                }
            }
            hist.push(epoch);
            cur = next;
            i = i + 1;
            proof {
                assert(hist@ =~= h0 + chain_epochs(chain@.take(i as int)));
            }
        }
        proof {
            assert(chain@.take(n as int) =~= chain@);
            assert(self.applied().subrange(a0.len() as int, self.applied().len() as int) + Seq::<AttrView>::empty()
                =~= self.applied().subrange(a0.len() as int, self.applied().len() as int));
            assert(self.applied() =~= a0 + self.applied().subrange(a0.len() as int, self.applied().len() as int));
        }
        Ok((hist, cur))
    }

    /// Derives and applies the blocks of `chain`, the canonical L1 blocks
    /// that follow the last block it shares with the derived history (empty
    /// when the L1 source has nothing new). Normally that block is the cursor
    /// and `chain` holds the next block; after a reorganisation of the base
    /// chain it is their last common ancestor, and `chain` is the new branch.
    /// The runner goes back to that ancestor, drops the batches committed by
    /// the abandoned blocks, and derives the new ones in order. `frames` are
    /// the data-availability frames that arrived since the last call, in
    /// arrival order; they are applied at the last block. If the engine
    /// refuses an attribute, the runner's state stays as it was, so that the
    /// next call derives the same blocks again.
    #[verifier::loop_isolation(false)]
    #[verifier::rlimit(100)]
    #[verifier::spinoff_prover]
    pub fn advance(&mut self, chain: Vec<L1BlockInfoImpl>, frames: &Vec<Frame>) -> (r: Result<Progress, RunnerError>)
        requires
            old(self).wf(),
        ensures
            final(self).wf(),
            final(self).same_setup(*old(self)),
            match old(self).decide(chain@) {
                Some(x) => r == x && final(self).unchanged(*old(self)),
                None => {
                    let h = old(self).spec_history();
                    let first = chain@[0].spec_head();
                    let a = attach_index(h, first.height);
                    let d = derive_chain(
                        invalidate_spec(old(self).spec_pending(), first.height),
                        old(self).spec_horizon(),
                        chain@,
                        frame_views(frames@),
                    );
                    let plan = d.0;
                    ||| {
                        &&& r == Ok::<Progress, RunnerError>(Progress::Advanced)
                        &&& final(self).spec_history() == h.take(a + 1) + chain_epochs(chain@)
                        &&& final(self).spec_pending() == d.1
                        &&& final(self).applied() == old(self).applied() + plan
                        &&& forall|n: int| old(self).applied().len() <= n < final(self).applied().len()
                            ==> final(self).spec_history().contains((#[trigger] final(self).applied()[n]).1)
                        &&& forall|n: int| old(self).applied().len() <= n < final(self).applied().len()
                            ==> chain_convert(chain@)->Ok_0.contains(#[trigger] final(self).applied()[n])
                                || logged(final(self).applied().take(n), final(self).applied()[n].1)
                    }
                    ||| {
                        &&& r matches Err(RunnerError::Engine(_))
                        &&& final(self).spec_history() == h
                        &&& final(self).spec_pending() == old(self).spec_pending()
                        &&& exists|k: int| 0 <= k < plan.len() && final(self).applied() == old(self).applied() + plan.take(k)
                    }
                },
            },
    {
        let n = chain.len();
        if n == 0 {
            return Ok(Progress::CaughtUp);
        }
        let (a, mut insts) = match self.prepare(&chain) {
            Err(e) => {
                return Err(e);
            },
            Ok(x) => x,
        };
        let da = match &self.da {
            Some(d) => d,
            None => {
                return Err(RunnerError::NotRegistered);
            },
        };
        let ghost s0 = *self;
        let ghost h = self.history@;
        let first = *chain[0].l1_head();
        let ghost inst_all = attr_views(insts@);
        assert(forall|k: int| 0 <= k < n ==> (#[trigger] chain@[k]).spec_attribute() == Ok::<AttrView, ConversionError>(inst_all[k]));
        assert(chain_linked(chain@));
        // go back to the block the chain branches from
        let mut hist = self.history_prefix(a);
        let mut cur = da.invalidated(first.height);
        let ghost hz = s0.spec_horizon();
        let ghost sv = cur.pending_view();
        let ghost fsv = frame_views(frames@);
        let ghost a0 = s0.applied();
        proof {
            assert(h[a as int].spec_height() == h[0].spec_height() + a);
            lemma_rewind_to(h, a as int, s0.spec_pending(), a0, first.height);
            assert(h[a as int].spec_height() + 1 == first.height);
        }
        proof {
            assert(hist@ == h.take(a + 1));
        }
        match self.derive_all(&chain, frames, insts, hist, cur, Ghost(inst_all)) {
            Err(e) => {
                return Err(RunnerError::Engine(e));
            },
            Ok((h2, d2)) => {
                self.history = h2;
                self.da = Some(d2);
            },
        }
        Ok(Progress::Advanced)
    }
}

/// What `advance` does depends on the runner's derivation state and on the
/// blocks and frames it is given, nothing else: two runners in the same
/// state (for instance one runner before and after a call that the engine
/// refused) given the same blocks and frames end the same way before the
/// engine is reached, plan the same attributes in the same order, and reach
/// the same batch state.
pub proof fn lemma_same_state_same_step<E: Engine, F: Engine>(
    a: Runner<E>,
    b: Runner<F>,
    chain: Seq<L1BlockInfoImpl>,
    frames: Seq<crate::da::FrameView>,
)
    requires
        a.spec_history() == b.spec_history(),
        a.spec_pending() == b.spec_pending(),
        a.spec_horizon() == b.spec_horizon(),
        a.registered() == b.registered(),
    ensures
        a.decide(chain) == b.decide(chain),
        chain.len() > 0 ==> derive_chain(invalidate_spec(a.spec_pending(), chain[0].spec_head().height), a.spec_horizon(), chain, frames)
            == derive_chain(invalidate_spec(b.spec_pending(), chain[0].spec_head().height), b.spec_horizon(), chain, frames),
{
}

pub open spec fn consecutive(h: Seq<EpochInfo>) -> bool {
    forall|i: int| 0 <= i < h.len() ==> #[trigger] h[i].spec_height() == h[0].spec_height() + i
}

pub open spec fn all_logged(h: Seq<EpochInfo>, log: Seq<AttrView>) -> bool {
    forall|i: int| 1 <= i < h.len() ==> logged(log, #[trigger] h[i])
}

proof fn lemma_logged_grow(log: Seq<AttrView>, ext: Seq<AttrView>, e: EpochInfo)
    requires
        logged(log, e),
    ensures
        logged(log + ext, e),
{
    let j = choose|j: int| 0 <= j < log.len() && #[trigger] log[j].1 == e;
    assert((log + ext)[j] == log[j]);
}

proof fn lemma_all_logged_grow(h: Seq<EpochInfo>, log: Seq<AttrView>, ext: Seq<AttrView>)
    requires
        all_logged(h, log),
    ensures
        all_logged(h, log + ext),
{
    assert forall|i: int| 1 <= i < h.len() implies logged(log + ext, #[trigger] h[i]) by {
        lemma_logged_grow(log, ext, h[i]);
    }
}

proof fn lemma_epochs_in_push(s: Seq<PendingView>, h: Seq<EpochInfo>, e: EpochInfo)
    requires
        epochs_in(s, h),
    ensures
        epochs_in(s, h.push(e)),
{
    assert forall|k: int| 0 <= k < s.len() implies #[trigger] h.push(e).contains(s[k].epoch) by {
        assert(h.contains(s[k].epoch));
        let j = choose|j: int| 0 <= j < h.len() && h[j] == s[k].epoch;
        assert(h.push(e)[j] == h[j]);
    }
}

proof fn lemma_commit_in(s: Seq<PendingView>, batch: Batch, e: EpochInfo, h: Seq<EpochInfo>)
    requires
        epochs_in(s, h),
        h.contains(e),
    ensures
        epochs_in(commit_spec(s, batch, e), h),
{
    let c = commit_spec(s, batch, e);
    assert forall|k: int| 0 <= k < c.len() implies #[trigger] h.contains(c[k].epoch) by {
        if k < s.len() {
            assert(c[k] == s[k]);
        }
    }
}

/// The runner's loop facts carry over one more block.
proof fn lemma_block_done(
    hv: Seq<EpochInfo>,
    cv: Seq<PendingView>,
    chain: Seq<L1BlockInfoImpl>,
    i: int,
    frv: Seq<crate::da::FrameView>,
    hz: u64,
    a0: Seq<AttrView>,
    pl: Seq<AttrView>,
    step: Seq<AttrView>,
    inst_all: Seq<AttrView>,
)
    requires
        0 <= i < chain.len(),
        hv.len() >= 1,
        consecutive(hv),
        epochs_in(cv, hv.skip(1)),
        all_logged(hv, a0 + pl),
        chain[i].spec_head().height == hv.last().spec_height() + 1,
        chain[i].spec_attribute() is Ok,
        step == planned(chain[i], cv, hz, frv),
        inst_all.contains(step[0]),
        forall|m: int| a0.len() <= m < (a0 + pl).len() ==> hv.contains((#[trigger] (a0 + pl)[m]).1),
        forall|m: int| a0.len() <= m < (a0 + pl).len()
            ==> inst_all.contains(#[trigger] (a0 + pl)[m]) || logged((a0 + pl).take(m), (a0 + pl)[m].1),
    ensures
        ({
            let e = EpochInfo::of_head(chain[i].spec_head());
            let h2 = hv.push(e);
            let a2 = (a0 + pl) + step;
            &&& consecutive(h2)
            &&& epochs_in(step_pending(chain[i], cv, hz, frv), h2.skip(1))
            &&& all_logged(h2, a2)
            &&& forall|m: int| a0.len() <= m < a2.len() ==> h2.contains((#[trigger] a2[m]).1)
            &&& forall|m: int| a0.len() <= m < a2.len()
                ==> inst_all.contains(#[trigger] a2[m]) || logged(a2.take(m), a2[m].1)
            &&& a2.subrange(a0.len() as int, a2.len() as int) == pl + step
            &&& a2.take(a0.len() as int) == a0
            &&& chain_epochs(chain.take(i + 1)) == chain_epochs(chain.take(i)).push(e)
        }),
{
    let e = EpochInfo::of_head(chain[i].spec_head());
    let base = a0 + pl;
    lemma_advance_keeps_wf(hv, cv, chain[i], frv, hz, base, step);
    lemma_extend_forms(a0.len() as int, base, step, hv, e, inst_all);
    assert(chain_epochs(chain.take(i + 1)) =~= chain_epochs(chain.take(i)).push(e));
    assert((base + step).subrange(a0.len() as int, (base + step).len() as int) =~= pl + step);
    assert((base + step).take(a0.len() as int) =~= a0);
}

proof fn lemma_rewind_to(h: Seq<EpochInfo>, a: int, s: Seq<PendingView>, log: Seq<AttrView>, height: u64)
    requires
        0 <= a < h.len(),
        consecutive(h),
        epochs_in(s, h.skip(1)),
        all_logged(h, log),
        height == h[a].spec_height() + 1,
    ensures
        h.take(a + 1).len() >= 1,
        h.take(a + 1).last() == h[a],
        consecutive(h.take(a + 1)),
        epochs_in(invalidate_spec(s, height), h.take(a + 1).skip(1)),
        all_logged(h.take(a + 1), log),
{
    let t = h.take(a + 1);
    let s2 = invalidate_spec(s, height);
    lemma_invalidate(s, height);
    let d = t.skip(1);
    assert forall|k: int| 0 <= k < s2.len() implies #[trigger] d.contains(s2[k].epoch) by {
        let e = s2[k].epoch;
        assert(s2[k] == invalidate_spec(s, height)[k]);
        assert(epochs_of(s).contains(e));
        let j = choose|j: int| 0 <= j < epochs_of(s).len() && epochs_of(s)[j] == e;
        assert(s[j].epoch == e);
        assert(h.skip(1).contains(s[j].epoch));
        let m = choose|m: int| 0 <= m < h.skip(1).len() && h.skip(1)[m] == e;
        assert(h[m + 1] == e);
        assert(h[a].spec_height() == h[0].spec_height() + a);
        assert(h[m + 1].spec_height() == h[0].spec_height() + m + 1);
        assert(d[m] == h[m + 1]);
    }
    assert forall|i: int| 0 <= i < t.len() implies #[trigger] t[i].spec_height() == t[0].spec_height() + i by {
        assert(t[i] == h[i]);
        assert(h[i].spec_height() == h[0].spec_height() + i);
    }
    assert forall|i: int| 1 <= i < t.len() implies logged(log, #[trigger] t[i]) by {
        assert(t[i] == h[i]);
    }
}

proof fn lemma_chain_convert_err_extends(chain: Seq<L1BlockInfoImpl>, i: int)
    requires
        0 <= i <= chain.len(),
        chain_convert(chain.take(i)) is Err,
    ensures
        chain_convert(chain) == chain_convert(chain.take(i)),
    decreases chain.len() - i,
{
    if i < chain.len() {
        assert(chain.take(i + 1).drop_last() =~= chain.take(i));
        lemma_chain_convert_err_extends(chain, i + 1);
    } else {
        assert(chain.take(i) =~= chain);
    }
}

/// What deriving the first `j` blocks submits is a prefix of what deriving all of them submits.
proof fn lemma_chain_prefix(
    s: Seq<PendingView>,
    horizon: u64,
    chain: Seq<L1BlockInfoImpl>,
    fs: Seq<crate::da::FrameView>,
    j: int,
)
    requires
        0 <= j <= chain.len(),
    ensures
        ({
            let p = derive_chain(s, horizon, chain.take(j), frames_at(j, chain.len() as int, fs)).0;
            let f = derive_chain(s, horizon, chain, fs).0;
            p.len() <= f.len() && f.take(p.len() as int) == p
        }),
    decreases chain.len(),
{
    let f = derive_chain(s, horizon, chain, fs).0;
    if j == chain.len() {
        assert(chain.take(j) =~= chain);
        assert(f.take(f.len() as int) =~= f);
    } else {
        let c2 = chain.drop_last();
        lemma_chain_prefix(s, horizon, c2, Seq::empty(), j);
        assert(c2.take(j) =~= chain.take(j));
        let p = derive_chain(s, horizon, chain.take(j), frames_at(j, chain.len() as int, fs)).0;
        let f2 = derive_chain(s, horizon, c2, Seq::empty()).0;
        assert(p == derive_chain(s, horizon, c2.take(j), frames_at(j, c2.len() as int, Seq::empty())).0);
        assert(f.take(p.len() as int) =~= f2.take(p.len() as int));
    }
}

proof fn lemma_fail_prefix(full: Seq<AttrView>, pl: Seq<AttrView>, step: Seq<AttrView>, m: int)
    requires
        (pl + step).len() <= full.len(),
        full.take((pl + step).len() as int) == pl + step,
        0 <= m < step.len(),
    ensures
        pl + step.take(m) == full.take(pl.len() + m),
        pl.len() + m < full.len(),
{
    assert(full.take(pl.len() + m) =~= (pl + step).take(pl.len() + m));
    assert(pl + step.take(m) =~= (pl + step).take(pl.len() + m));
}

/// After one more block, every new log entry still belongs to the derived
/// history, and is an instant attribute or follows an entry of its epoch.
proof fn lemma_extend_forms(
    a0len: int,
    base: Seq<AttrView>,
    step: Seq<AttrView>,
    hv: Seq<EpochInfo>,
    e: EpochInfo,
    insts: Seq<AttrView>,
)
    requires
        0 <= a0len <= base.len(),
        step.len() >= 1,
        insts.contains(step[0]),
        forall|m: int| a0len <= m < base.len() ==> hv.contains((#[trigger] base[m]).1),
        forall|m: int| a0len <= m < base.len()
            ==> insts.contains(#[trigger] base[m]) || logged(base.take(m), base[m].1),
        forall|n: int| base.len() < n < (base + step).len()
            ==> logged((base + step).take(n), (#[trigger] (base + step)[n]).1),
        forall|n: int| base.len() <= n < (base + step).len()
            ==> hv.push(e).contains((#[trigger] (base + step)[n]).1),
    ensures
        forall|m: int| a0len <= m < (base + step).len() ==> hv.push(e).contains((#[trigger] (base + step)[m]).1),
        forall|m: int| a0len <= m < (base + step).len()
            ==> insts.contains(#[trigger] (base + step)[m]) || logged((base + step).take(m), (base + step)[m].1),
{
    let a2 = base + step;
    assert forall|m: int| a0len <= m < a2.len() implies hv.push(e).contains((#[trigger] a2[m]).1) by {
        if m < base.len() {
            assert(a2[m] == base[m]);
            let w = choose|w: int| 0 <= w < hv.len() && hv[w] == base[m].1;
            assert(hv.push(e)[w] == hv[w]);
        }
    }
    assert forall|m: int| a0len <= m < a2.len() implies insts.contains(#[trigger] a2[m]) || logged(a2.take(m), a2[m].1) by {
        if m < base.len() {
            assert(a2[m] == base[m]);
            assert(a2.take(m) =~= base.take(m));
        } else if m == base.len() {
            assert(a2[m] == step[0]);
        }
    }
}

proof fn lemma_advance_keeps_wf(
    h: Seq<EpochInfo>,
    s: Seq<PendingView>,
    b: L1BlockInfoImpl,
    fs: Seq<crate::da::FrameView>,
    horizon: u64,
    a0: Seq<AttrView>,
    plan: Seq<AttrView>,
)
    requires
        h.len() >= 1,
        consecutive(h),
        epochs_in(s, h.skip(1)),
        all_logged(h, a0),
        b.spec_head().height == h.last().spec_height() + 1,
        b.spec_attribute() is Ok,
        plan == planned(b, s, horizon, fs),
    ensures
        ({
            let e = EpochInfo::of_head(b.spec_head());
            let h2 = h.push(e);
            let s2 = after_ready(collect_spec(s, b.spec_batch(), e, fs, horizon));
            let a2 = a0 + plan;
            &&& consecutive(h2)
            &&& epochs_in(s2, h2.skip(1))
            &&& all_logged(h2, a2)
            &&& forall|n: int| a0.len() < n < a2.len() ==> logged(a2.take(n), (#[trigger] a2[n]).1)
            &&& forall|n: int| a0.len() <= n < a2.len() ==> h2.contains((#[trigger] a2[n]).1)
        }),
{
    let e = EpochInfo::of_head(b.spec_head());
    let h2 = h.push(e);
    let a2 = a0 + plan;
    let batch = b.spec_batch();
    let c0 = commit_spec(s, batch, e);
    let c1 = crate::da::prune_spec(c0, e.spec_height(), horizon);
    let c2 = crate::da::apply_frames_spec(c1, fs);
    let s2 = after_ready(c2);
    let hs = h2.skip(1);
    // heights
    assert(h[h.len() - 1].spec_height() == h[0].spec_height() + h.len() - 1);
    assert(h2[0] == h[0]);
    assert forall|i: int| 0 <= i < h2.len() implies #[trigger] h2[i].spec_height() == h2[0].spec_height() + i by {
        if i < h.len() {
            assert(h2[i] == h[i]);
        } else {
            assert(h2[i] == e);
        }
    }
    // pending batches stay within the derived blocks
    assert(h.skip(1).push(e) =~= hs);
    lemma_epochs_in_push(s, h.skip(1), e);
    assert(hs[hs.len() - 1] == e);
    lemma_commit_in(s, batch, e, hs);
    lemma_prune_from(c0, e.spec_height(), horizon);
    lemma_epochs_in_trans(c1, c0, hs);
    lemma_apply_frames_from(c1, fs);
    lemma_epochs_in_trans(c2, c1, hs);
    lemma_after_ready_from(c2);
    lemma_epochs_in_trans(s2, c2, hs);
    // every derived block has an entry in the log
    let inst = b.spec_attribute()->Ok_0;
    assert(inst.1 == e);
    assert(a2[a0.len() as int] == inst);
    lemma_all_logged_grow(h, a0, plan);
    assert forall|i: int| 1 <= i < h2.len() implies logged(a2, #[trigger] h2[i]) by {
        if i < h.len() {
            assert(h2[i] == h[i]);
        } else {
            assert(a2[a0.len() as int].1 == h2[i]);
        }
    }
    // DA attributes come after the entry of their epoch
    lemma_ready_attrs_from(c2);
    let ready = ready_attrs(c2);
    assert forall|n: int| a0.len() < n < a2.len() implies logged(a2.take(n), (#[trigger] a2[n]).1) by {
        let k = n - a0.len() - 1;
        assert(a2[n] == ready[k]);
        let ep = ready[k].1;
        assert(epochs_of(c2).contains(ep));
        let j = choose|j: int| 0 <= j < epochs_of(c2).len() && epochs_of(c2)[j] == ep;
        assert(c2[j].epoch == ep);
        assert(hs.contains(c2[j].epoch));
        let m = choose|m: int| 0 <= m < hs.len() && hs[m] == ep;
        assert(h2[m + 1] == ep);
        if m + 1 == h.len() {
            assert(a2.take(n)[a0.len() as int] == inst);
        } else {
            assert(h2[m + 1] == h[m + 1]);
            assert(logged(a0, h[m + 1]));
            let w = choose|w: int| 0 <= w < a0.len() && #[trigger] a0[w].1 == h[m + 1];
            assert(a2.take(n)[w] == a0[w]);
        }
    }
    assert forall|n: int| a0.len() <= n < a2.len() implies h2.contains((#[trigger] a2[n]).1) by {
        if n == a0.len() {
            assert(h2[h.len() as int] == e);
        } else {
            let k = n - a0.len() - 1;
            assert(a2[n] == ready[k]);
            let ep = ready[k].1;
            assert(epochs_of(c2).contains(ep));
            let j = choose|j: int| 0 <= j < epochs_of(c2).len() && epochs_of(c2)[j] == ep;
            assert(c2[j].epoch == ep);
            assert(hs.contains(c2[j].epoch));
            let m = choose|m: int| 0 <= m < hs.len() && hs[m] == ep;
            assert(h2[m + 1] == ep);
        }
    }
}

} // verus!
