use vstd::prelude::*;

use crate::attribute::{attr_views, AttrView, PayloadAttributeImpl};
use crate::block::{Batch, L2Transaction};
use crate::epoch::EpochInfo;

verus! {

/// One piece of a batch, as the data-availability layer serves it.
pub struct Frame {
    pub batch_id: u64,
    pub index: u64,
    pub is_last: bool,
    pub txs: Vec<L2Transaction>,
}

pub struct FrameView {
    pub batch_id: u64,
    pub index: u64,
    pub is_last: bool,
    pub txs: Seq<L2Transaction>,
}

impl View for Frame {
    type V = FrameView;

    open spec fn view(&self) -> FrameView {
        FrameView { batch_id: self.batch_id, index: self.index, is_last: self.is_last, txs: self.txs@ }
    }
}

/// A batch committed on L1 whose frames are being collected.
pub struct PendingBatch {
    pub id: u64,
    pub epoch: EpochInfo,
    pub next_index: u64,
    pub txs: Vec<L2Transaction>,
    pub complete: bool,
}

pub struct PendingView {
    pub id: u64,
    pub epoch: EpochInfo,
    pub next_index: u64,
    pub txs: Seq<L2Transaction>,
    pub complete: bool,
}

impl View for PendingBatch {
    type V = PendingView;

    open spec fn view(&self) -> PendingView {
        PendingView {
            id: self.id,
            epoch: self.epoch,
            next_index: self.next_index,
            txs: self.txs@,
            complete: self.complete,
        }
    }
}

pub open spec fn views(s: Seq<PendingBatch>) -> Seq<PendingView> {
    s.map_values(|p: PendingBatch| p@)
}

pub open spec fn frame_views(s: Seq<Frame>) -> Seq<FrameView> {
    s.map_values(|f: Frame| f@)
}

pub open spec fn has_batch(s: Seq<PendingView>, id: u64) -> bool {
    exists|i: int| 0 <= i < s.len() && s[i].id == id
}

/// Records the batch that a block commits to, unless it is absent or already known.
pub open spec fn commit_spec(s: Seq<PendingView>, batch: Batch, epoch: EpochInfo) -> Seq<PendingView> {
    match batch {
        Batch::Absent => s,
        Batch::Commit { id } => if has_batch(s, id) {
            s
        } else {
            s.push(PendingView { id, epoch, next_index: 0, txs: Seq::empty(), complete: false })
        },
    }
}

/// What a frame does to one pending batch: it extends the batch when it is
/// the next expected frame of that batch; a frame that is out of order, or
/// arrives after the last one, drops the batch (`None`).
pub open spec fn frame_on(p: PendingView, f: FrameView) -> Option<PendingView> {
    if p.id != f.batch_id {
        Some(p)
    } else if p.complete || f.index != p.next_index || p.next_index == u64::MAX {
        None
    } else {
        Some(PendingView { next_index: (p.next_index + 1) as u64, txs: p.txs + f.txs, complete: f.is_last, ..p })
    }
}

pub open spec fn apply_frame_spec(s: Seq<PendingView>, f: FrameView) -> Seq<PendingView>
    decreases s.len(),
{
    if s.len() == 0 {
        s
    } else {
        let prev = apply_frame_spec(s.drop_last(), f);
        match frame_on(s.last(), f) {
            Some(p) => prev.push(p),
            None => prev,
        }
    }
}

pub open spec fn apply_frames_spec(s: Seq<PendingView>, fs: Seq<FrameView>) -> Seq<PendingView>
    decreases fs.len(),
{
    if fs.len() == 0 {
        s
    } else {
        apply_frame_spec(apply_frames_spec(s, fs.drop_last()), fs.last())
    }
}

/// A batch is stale when it is still incomplete more than `horizon` blocks
/// after the block that committed it.
pub open spec fn is_stale(p: PendingView, height: u64, horizon: u64) -> bool {
    !p.complete && height > p.epoch.spec_height() + horizon
}

pub open spec fn prune_spec(s: Seq<PendingView>, height: u64, horizon: u64) -> Seq<PendingView>
    decreases s.len(),
{
    if s.len() == 0 {
        s
    } else {
        let prev = prune_spec(s.drop_last(), height, horizon);
        if is_stale(s.last(), height, horizon) {
            prev
        } else {
            prev.push(s.last())
        }
    }
}

/// Drops every batch committed at `height` or above.
pub open spec fn invalidate_spec(s: Seq<PendingView>, height: u64) -> Seq<PendingView>
    decreases s.len(),
{
    if s.len() == 0 {
        s
    } else {
        let prev = invalidate_spec(s.drop_last(), height);
        if s.last().epoch.spec_height() >= height {
            prev
        } else {
            prev.push(s.last())
        }
    }
}

/// Number of complete batches at the front, in commit order.
pub open spec fn ready_len(s: Seq<PendingView>) -> nat
    decreases s.len(),
{
    if s.len() == 0 || !s[0].complete {
        0
    } else {
        1 + ready_len(s.skip(1))
    }
}

pub open spec fn attr_of(p: PendingView) -> AttrView {
    (p.txs, p.epoch)
}

/// The attributes of the complete batches at the front, in commit order.
pub open spec fn ready_attrs(s: Seq<PendingView>) -> Seq<AttrView> {
    attrs_of(s.take(ready_len(s) as int))
}

pub open spec fn attrs_of(s: Seq<PendingView>) -> Seq<AttrView> {
    s.map_values(|p: PendingView| attr_of(p))
}

pub open spec fn after_ready(s: Seq<PendingView>) -> Seq<PendingView> {
    s.skip(ready_len(s) as int)
}

/// Batch state after collecting what one block brings, before ready batches
/// are taken: the block's commitment is recorded, batches past their horizon
/// are dropped, then the frames are applied in arrival order.
pub open spec fn collect_spec(
    s: Seq<PendingView>,
    batch: Batch,
    epoch: EpochInfo,
    fs: Seq<FrameView>,
    horizon: u64,
) -> Seq<PendingView> {
    apply_frames_spec(prune_spec(commit_spec(s, batch, epoch), epoch.spec_height(), horizon), fs)
}

proof fn lemma_ready_len(s: Seq<PendingView>, k: int)
    requires
        0 <= k <= s.len(),
        forall|j: int| 0 <= j < k ==> s[j].complete,
        k == s.len() || !s[k].complete,
    ensures
        ready_len(s) == k,
    decreases s.len(),
{
    if s.len() > 0 && s[0].complete {
        let t = s.skip(1);
        assert forall|j: int| 0 <= j < k - 1 implies t[j].complete by {
            assert(t[j] == s[j + 1]);
        }
        if k < s.len() {
            assert(t[k - 1] == s[k]);
        }
        lemma_ready_len(t, k - 1);
    }
}

pub fn copy_txs(v: &Vec<L2Transaction>) -> (r: Vec<L2Transaction>)
    ensures
        r@ == v@,
{
    let mut out: Vec<L2Transaction> = Vec::new();
    let mut i: usize = 0;
    while i < v.len()
        invariant
            i <= v@.len(),
            out@ == v@.take(i as int),
        decreases v@.len() - i,
    {
        out.push(v[i]);
        i = i + 1;
        assert(out@ =~= v@.take(i as int));
    }
    assert(v@.take(i as int) =~= v@);
    out
}

fn append_txs(v: &mut Vec<L2Transaction>, extra: &Vec<L2Transaction>)
    ensures
        final(v)@ == old(v)@ + extra@,
{
    let mut i: usize = 0;
    while i < extra.len()
        invariant
            i <= extra@.len(),
            v@ == old(v)@ + extra@.take(i as int),
        decreases extra@.len() - i,
    {
        v.push(extra[i]);
        i = i + 1;
        assert(v@ =~= old(v)@ + extra@.take(i as int));
    }
    assert(extra@.take(i as int) =~= extra@);
}

impl PendingBatch {
    pub fn duplicate(&self) -> (r: PendingBatch)
        ensures
            r@ == self@,
    {
        PendingBatch {
            id: self.id,
            epoch: self.epoch,
            next_index: self.next_index,
            txs: copy_txs(&self.txs),
            complete: self.complete,
        }
    }

    fn with_frame(&self, f: &Frame) -> (r: Option<PendingBatch>)
        ensures
            match (r, frame_on(self@, f@)) {
                (Some(a), Some(b)) => a@ == b,
                (None, None) => true,
                _ => false,
            },
    {
        if self.id != f.batch_id {
            Some(self.duplicate())
        } else if self.complete || f.index != self.next_index || self.next_index == u64::MAX {
            None
        } else {
            let mut txs = copy_txs(&self.txs);
            append_txs(&mut txs, &f.txs);
            Some(PendingBatch {
                id: self.id,
                epoch: self.epoch,
                next_index: self.next_index + 1,
                txs,
                complete: f.is_last,
            })
        }
    }
}

proof fn lemma_views_push(s: Seq<PendingBatch>, p: PendingBatch)
    ensures
        views(s.push(p)) == views(s).push(p@),
{
    assert(views(s.push(p)) =~= views(s).push(p@));
}

proof fn lemma_views_take(s: Seq<PendingBatch>, i: int)
    requires
        0 <= i < s.len(),
    ensures
        views(s).take(i + 1).drop_last() == views(s).take(i),
        views(s).take(i + 1).last() == s[i]@,
{
    assert(views(s).take(i + 1).drop_last() =~= views(s).take(i));
}

/// Frame accumulation for data-availability batches.
pub struct DaDeriver {
    pending: Vec<PendingBatch>,
    horizon: u64,
}

impl DaDeriver {
    pub closed spec fn pending_view(&self) -> Seq<PendingView> {
        views(self.pending@)
    }

    pub closed spec fn spec_horizon(&self) -> u64 {
        self.horizon
    }

    /// A deriver with nothing pending, that gives up on an incomplete batch
    /// `horizon` blocks after its commit.
    pub fn new(horizon: u64) -> (r: DaDeriver)
        ensures
            r.pending_view() == Seq::<PendingView>::empty(),
            r.spec_horizon() == horizon,
    {
        let r = DaDeriver { pending: Vec::new(), horizon };
        assert(r.pending_view() =~= Seq::<PendingView>::empty());
        r
    }

    pub fn horizon(&self) -> (r: u64)
        ensures
            r == self.spec_horizon(),
    {
        self.horizon
    }

    /// Identifiers of the batches still waiting for frames, in commit order.
    pub fn pending_ids(&self) -> (r: Vec<u64>)
        ensures
            r@.len() == self.pending_view().len(),
            forall|i: int| 0 <= i < r@.len() ==> r@[i] == self.pending_view()[i].id,
    {
        let mut out: Vec<u64> = Vec::new();
        let mut i: usize = 0;
        while i < self.pending.len()
            invariant
                i <= self.pending@.len(),
                out@.len() == i,
                forall|j: int| 0 <= j < i ==> out@[j] == self.pending@[j].id,
            decreases self.pending@.len() - i,
        {
            out.push(self.pending[i].id);
            i = i + 1;
        }
        out
    }

    fn contains_batch(pending: &Vec<PendingBatch>, id: u64) -> (r: bool)
        ensures
            r == has_batch(views(pending@), id),
    {
        let mut i: usize = 0;
        while i < pending.len()
            invariant
                i <= pending@.len(),
                forall|j: int| 0 <= j < i ==> pending@[j].id != id,
            decreases pending@.len() - i,
        {
            if pending[i].id == id {
                assert(views(pending@)[i as int].id == id);
                return true;
            }
            i = i + 1;
        }
        assert forall|j: int| 0 <= j < views(pending@).len() implies views(pending@)[j].id != id by {
            assert(views(pending@)[j] == pending@[j]@);
        }
        false
    }

    fn copy_all(pending: &Vec<PendingBatch>) -> (r: Vec<PendingBatch>)
        ensures
            views(r@) == views(pending@),
    {
        let mut out: Vec<PendingBatch> = Vec::new();
        let mut i: usize = 0;
        while i < pending.len()
            invariant
                i <= pending@.len(),
                views(out@) == views(pending@).take(i as int),
            decreases pending@.len() - i,
        {
            proof {
                lemma_views_take(pending@, i as int);
            }
            let p = pending[i].duplicate();
            proof {
                lemma_views_push(out@, p);
            }
            out.push(p);
            i = i + 1;
            assert(views(out@) =~= views(pending@).take(i as int));
        }
        assert(views(pending@).take(i as int) =~= views(pending@));
        out
    }

    fn commit(pending: &Vec<PendingBatch>, batch: Batch, epoch: EpochInfo) -> (r: Vec<PendingBatch>)
        ensures
            views(r@) == commit_spec(views(pending@), batch, epoch),
    {
        let mut out = Self::copy_all(pending);
        match batch {
            Batch::Absent => {},
            Batch::Commit { id } => {
                if !Self::contains_batch(pending, id) {
                    let p = PendingBatch { id, epoch, next_index: 0, txs: Vec::new(), complete: false };
                    proof {
                        lemma_views_push(out@, p);
                    }
                    out.push(p);
                    assert(p@.txs =~= Seq::<L2Transaction>::empty());
                }
            },
        }
        out
    }

    fn apply_frame(pending: &Vec<PendingBatch>, f: &Frame) -> (r: Vec<PendingBatch>)
        ensures
            views(r@) == apply_frame_spec(views(pending@), f@),
    {
        let mut out: Vec<PendingBatch> = Vec::new();
        let mut i: usize = 0;
        while i < pending.len()
            invariant
                i <= pending@.len(),
                views(out@) == apply_frame_spec(views(pending@).take(i as int), f@),
            decreases pending@.len() - i,
        {
            proof {
                lemma_views_take(pending@, i as int);
            }
            match pending[i].with_frame(f) {
                Some(p) => {
                    proof {
                        lemma_views_push(out@, p);
                    }
                    out.push(p);
                },
                None => {},
            }
            i = i + 1;
        }
        assert(views(pending@).take(i as int) =~= views(pending@));
        out
    }

    fn apply_frames(pending: Vec<PendingBatch>, fs: &Vec<Frame>) -> (r: Vec<PendingBatch>)
        ensures
            views(r@) == apply_frames_spec(views(pending@), frame_views(fs@)),
    {
        let mut cur = pending;
        let mut i: usize = 0;
        while i < fs.len()
            invariant
                i <= fs@.len(),
                views(cur@) == apply_frames_spec(views(pending@), frame_views(fs@).take(i as int)),
            decreases fs@.len() - i,
        {
            assert(frame_views(fs@).take(i as int + 1).drop_last() =~= frame_views(fs@).take(i as int));
            cur = Self::apply_frame(&cur, &fs[i]);
            i = i + 1;
        }
        assert(frame_views(fs@).take(i as int) =~= frame_views(fs@));
        cur
    }

    fn prune(pending: &Vec<PendingBatch>, height: u64, horizon: u64) -> (r: Vec<PendingBatch>)
        ensures
            views(r@) == prune_spec(views(pending@), height, horizon),
    {
        let mut out: Vec<PendingBatch> = Vec::new();
        let mut i: usize = 0;
        while i < pending.len()
            invariant
                i <= pending@.len(),
                views(out@) == prune_spec(views(pending@).take(i as int), height, horizon),
            decreases pending@.len() - i,
        {
            proof {
                lemma_views_take(pending@, i as int);
            }
            let p = &pending[i];
            let stale = !p.complete && height as u128 > p.epoch.block_height() as u128 + horizon as u128;
            if !stale {
                let q = p.duplicate();
                proof {
                    lemma_views_push(out@, q);
                }
                out.push(q);
            }
            i = i + 1;
        }
        assert(views(pending@).take(i as int) =~= views(pending@));
        out
    }

    fn invalidate(pending: &Vec<PendingBatch>, height: u64) -> (r: Vec<PendingBatch>)
        ensures
            views(r@) == invalidate_spec(views(pending@), height),
    {
        let mut out: Vec<PendingBatch> = Vec::new();
        let mut i: usize = 0;
        while i < pending.len()
            invariant
                i <= pending@.len(),
                views(out@) == invalidate_spec(views(pending@).take(i as int), height),
            decreases pending@.len() - i,
        {
            proof {
                lemma_views_take(pending@, i as int);
            }
            let p = &pending[i];
            if p.epoch.block_height() < height {
                let q = p.duplicate();
                proof {
                    lemma_views_push(out@, q);
                }
                out.push(q);
            }
            i = i + 1;
        }
        assert(views(pending@).take(i as int) =~= views(pending@));
        out
    }

    fn take_ready(pending: &Vec<PendingBatch>) -> (r: (Vec<PayloadAttributeImpl>, Vec<PendingBatch>))
        ensures
            attr_views(r.0@) == ready_attrs(views(pending@)),
            views(r.1@) == after_ready(views(pending@)),
    {
        let mut k: usize = 0;
        while k < pending.len() && pending[k].complete
            invariant
                k <= pending@.len(),
                forall|j: int| 0 <= j < k ==> pending@[j].complete,
            decreases pending@.len() - k,
        {
            k = k + 1;
        }
        proof {
            let s = views(pending@);
            assert forall|j: int| 0 <= j < k implies s[j].complete by {
                assert(s[j] == pending@[j]@);
            }
            if k < s.len() {
                assert(s[k as int] == pending@[k as int]@);
            }
            lemma_ready_len(s, k as int);
        }
        let mut attrs: Vec<PayloadAttributeImpl> = Vec::new();
        let mut i: usize = 0;
        while i < k
            invariant
                i <= k <= pending@.len(),
                k == ready_len(views(pending@)),
                attr_views(attrs@) == attrs_of(views(pending@).take(i as int)),
            decreases k - i,
        {
            let a = PayloadAttributeImpl::new(copy_txs(&pending[i].txs), pending[i].epoch);
            let ghost old_attrs = attrs@;
            attrs.push(a);
            proof {
                assert(views(pending@)[i as int] == pending@[i as int]@);
                assert(attrs@ == old_attrs.push(a));
                assert(attr_views(attrs@) =~= attr_views(old_attrs).push(a@));
                assert(attrs_of(views(pending@).take(i as int + 1)) =~= attrs_of(
                    views(pending@).take(i as int),
                ).push(attr_of(views(pending@)[i as int])));
            }
            i = i + 1;
        }
        let mut rest: Vec<PendingBatch> = Vec::new();
        let mut j: usize = k;
        while j < pending.len()
            invariant
                k <= j <= pending@.len(),
                k == ready_len(views(pending@)),
                views(rest@) =~= views(pending@).subrange(k as int, j as int),
            decreases pending@.len() - j,
        {
            let q = pending[j].duplicate();
            proof {
                lemma_views_push(rest@, q);
            }
            rest.push(q);
            j = j + 1;
            assert(views(rest@) =~= views(pending@).subrange(k as int, j as int));
        }
        (attrs, rest)
    }

    /// One derivation step for the block with epoch `epoch`: records its batch
    /// commitment, drops stale batches, applies the frames that arrived, and
    /// hands out the complete batches at the front in commit order.
    /// `self` is left as it is; the state after the step is returned.
    pub fn derive(&self, batch: Batch, epoch: EpochInfo, frames: &Vec<Frame>) -> (r: (Vec<PayloadAttributeImpl>, DaDeriver))
        ensures
            attr_views(r.0@) == ready_attrs(collect_spec(self.pending_view(), batch, epoch, frame_views(frames@), self.spec_horizon())),
            r.1.pending_view() == after_ready(collect_spec(self.pending_view(), batch, epoch, frame_views(frames@), self.spec_horizon())),
            r.1.spec_horizon() == self.spec_horizon(),
    {
        let committed = Self::commit(&self.pending, batch, epoch);
        let pruned = Self::prune(&committed, epoch.block_height(), self.horizon);
        let framed = Self::apply_frames(pruned, frames);
        let (attrs, rest) = Self::take_ready(&framed);
        (attrs, DaDeriver { pending: rest, horizon: self.horizon })
    }

    /// The state after a reorg that abandons every block at `height` and above.
    pub fn invalidated(&self, height: u64) -> (r: DaDeriver)
        ensures
            r.pending_view() == invalidate_spec(self.pending_view(), height),
            r.spec_horizon() == self.spec_horizon(),
    {
        DaDeriver { pending: Self::invalidate(&self.pending, height), horizon: self.horizon }
    }
}

/// The epochs of the batches, in order.
pub open spec fn epochs_of(s: Seq<PendingView>) -> Seq<EpochInfo> {
    s.map_values(|p: PendingView| p.epoch)
}

/// Every entry of `s` was committed by a block of `h`.
pub open spec fn epochs_in(s: Seq<PendingView>, h: Seq<EpochInfo>) -> bool {
    forall|k: int| 0 <= k < s.len() ==> #[trigger] h.contains(s[k].epoch)
}

pub proof fn lemma_epochs_in_trans(a: Seq<PendingView>, b: Seq<PendingView>, h: Seq<EpochInfo>)
    requires
        epochs_in(a, epochs_of(b)),
        epochs_in(b, h),
    ensures
        epochs_in(a, h),
{
    assert forall|k: int| 0 <= k < a.len() implies #[trigger] h.contains(a[k].epoch) by {
        assert(epochs_of(b).contains(a[k].epoch));
        let j = choose|j: int| 0 <= j < epochs_of(b).len() && epochs_of(b)[j] == a[k].epoch;
        assert(h.contains(b[j].epoch));
    }
}

proof fn lemma_epochs_in_self(s: Seq<PendingView>)
    ensures
        epochs_in(s, epochs_of(s)),
{
    assert forall|k: int| 0 <= k < s.len() implies #[trigger] epochs_of(s).contains(s[k].epoch) by {
        assert(epochs_of(s)[k] == s[k].epoch);
    }
}

proof fn lemma_push_from(prev: Seq<PendingView>, s: Seq<PendingView>, q: PendingView)
    requires
        s.len() > 0,
        epochs_in(prev, epochs_of(s.drop_last())),
        q.epoch == s.last().epoch,
    ensures
        epochs_in(prev.push(q), epochs_of(s)),
        epochs_in(prev, epochs_of(s)),
{
    let d = s.drop_last();
    assert forall|k: int| 0 <= k < prev.len() implies #[trigger] epochs_of(s).contains(prev[k].epoch) by {
        assert(epochs_of(d).contains(prev[k].epoch));
        let j = choose|j: int| 0 <= j < epochs_of(d).len() && epochs_of(d)[j] == prev[k].epoch;
        assert(epochs_of(s)[j] == d[j].epoch);
    }
    assert forall|k: int| 0 <= k < prev.push(q).len() implies #[trigger] epochs_of(s).contains(prev.push(q)[k].epoch) by {
        if k < prev.len() {
            assert(prev.push(q)[k] == prev[k]);
            assert(epochs_of(s).contains(prev[k].epoch));
        } else {
            assert(epochs_of(s)[s.len() - 1] == q.epoch);
        }
    }
}

pub proof fn lemma_apply_frame_from(s: Seq<PendingView>, f: FrameView)
    ensures
        epochs_in(apply_frame_spec(s, f), epochs_of(s)),
    decreases s.len(),
{
    if s.len() > 0 {
        lemma_apply_frame_from(s.drop_last(), f);
        let prev = apply_frame_spec(s.drop_last(), f);
        match frame_on(s.last(), f) {
            Some(p) => lemma_push_from(prev, s, p),
            None => lemma_push_from(prev, s, s.last()),
        }
    }
}

pub proof fn lemma_apply_frames_from(s: Seq<PendingView>, fs: Seq<FrameView>)
    ensures
        epochs_in(apply_frames_spec(s, fs), epochs_of(s)),
    decreases fs.len(),
{
    if fs.len() == 0 {
        lemma_epochs_in_self(s);
    } else {
        lemma_apply_frames_from(s, fs.drop_last());
        lemma_apply_frame_from(apply_frames_spec(s, fs.drop_last()), fs.last());
        lemma_epochs_in_trans(apply_frames_spec(s, fs), apply_frames_spec(s, fs.drop_last()), epochs_of(s));
    }
}

pub proof fn lemma_prune_from(s: Seq<PendingView>, height: u64, horizon: u64)
    ensures
        epochs_in(prune_spec(s, height, horizon), epochs_of(s)),
    decreases s.len(),
{
    if s.len() > 0 {
        lemma_prune_from(s.drop_last(), height, horizon);
        lemma_push_from(prune_spec(s.drop_last(), height, horizon), s, s.last());
    }
}

/// After invalidation at `height`, every batch left was committed below it,
/// and came from the batches before.
pub proof fn lemma_invalidate(s: Seq<PendingView>, height: u64)
    ensures
        epochs_in(invalidate_spec(s, height), epochs_of(s)),
        forall|k: int| 0 <= k < invalidate_spec(s, height).len()
            ==> (#[trigger] invalidate_spec(s, height)[k]).epoch.spec_height() < height,
    decreases s.len(),
{
    if s.len() > 0 {
        lemma_invalidate(s.drop_last(), height);
        lemma_push_from(invalidate_spec(s.drop_last(), height), s, s.last());
        let prev = invalidate_spec(s.drop_last(), height);
        assert forall|k: int| 0 <= k < invalidate_spec(s, height).len()
            implies (#[trigger] invalidate_spec(s, height)[k]).epoch.spec_height() < height by {
            if k < prev.len() {
                assert(invalidate_spec(s, height)[k] == prev[k]);
            }
        }
    }
}

proof fn lemma_ready_len_bound(s: Seq<PendingView>)
    ensures
        ready_len(s) <= s.len(),
    decreases s.len(),
{
    if s.len() > 0 && s[0].complete {
        lemma_ready_len_bound(s.skip(1));
    }
}

pub proof fn lemma_after_ready_from(s: Seq<PendingView>)
    ensures
        epochs_in(after_ready(s), epochs_of(s)),
{
    let r = after_ready(s);
    let n = ready_len(s) as int;
    lemma_ready_len_bound(s);
    assert forall|k: int| 0 <= k < r.len() implies #[trigger] epochs_of(s).contains(r[k].epoch) by {
        assert(epochs_of(s)[k + n] == r[k].epoch);
    }
}

/// Every attribute that a step hands out from `s` carries the epoch of a batch of `s`.
pub proof fn lemma_ready_attrs_from(s: Seq<PendingView>)
    ensures
        forall|k: int| 0 <= k < ready_attrs(s).len() ==> #[trigger] epochs_of(s).contains(ready_attrs(s)[k].1),
{
    lemma_ready_len_bound(s);
    assert forall|k: int| 0 <= k < ready_attrs(s).len() implies #[trigger] epochs_of(s).contains(ready_attrs(s)[k].1) by {
        assert(epochs_of(s)[k] == ready_attrs(s)[k].1);
    }
}

} // verus!
