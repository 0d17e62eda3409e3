use vstd::prelude::*;

use crate::attribute::{attr_views, AttrView, PayloadAttributeImpl};
use crate::epoch::EpochInfo;

verus! {

/// Why the execution engine did not accept a payload attribute.
#[derive(Clone, Copy, PartialEq, Eq, Structural, Debug)]
pub enum EngineError {
    /// The attribute does not extend the engine's chain.
    InvalidTransition,
    /// The engine could not take the attribute now.
    Unavailable,
}

/// The L2 execution engine, which builds blocks from payload attributes.
/// A submission that fails must leave the engine as it was.
pub trait Engine {
    /// Every attribute accepted so far, in order.
    spec fn applied(&self) -> Seq<AttrView>;

    fn submit(&mut self, attr: PayloadAttributeImpl) -> (r: Result<(), EngineError>)
        ensures
            r is Ok ==> final(self).applied() == old(self).applied().push(attr@),
            r is Err ==> final(self).applied() == old(self).applied(),
    ;

    fn last_applied_epoch(&self) -> (r: Option<EpochInfo>)
        ensures
            self.applied().len() == 0 ==> r is None,
            self.applied().len() > 0 ==> r == Some(self.applied().last().1),
    ;
}

/// An engine that keeps accepted attributes in memory. It can be told to
/// refuse a number of submissions, as an engine that is briefly unavailable.
pub struct MemoryEngine {
    log: Vec<PayloadAttributeImpl>,
    refusals: u64,
}

impl MemoryEngine {
    /// How many of the next submissions will be refused.
    pub closed spec fn spec_refusals(&self) -> u64 {
        self.refusals
    }

    pub fn new() -> (r: MemoryEngine)
        ensures
            r.applied() == Seq::<AttrView>::empty(),
            r.spec_refusals() == 0,
    {
        MemoryEngine::refusing(0)
    }

    /// An empty engine that refuses its next `refusals` submissions.
    pub fn refusing(refusals: u64) -> (r: MemoryEngine)
        ensures
            r.applied() == Seq::<AttrView>::empty(),
            r.spec_refusals() == refusals,
    {
        let r = MemoryEngine { log: Vec::new(), refusals };
        assert(r.applied() =~= Seq::<AttrView>::empty());
        r
    }

    pub fn len(&self) -> (r: usize)
        ensures
            r == self.applied().len(),
    {
        self.log.len()
    }

    pub fn get(&self, i: usize) -> (r: &PayloadAttributeImpl)
        requires
            i < self.applied().len(),
        ensures
            r@ == self.applied()[i as int],
    {
        &self.log[i]
    }
}

impl Engine for MemoryEngine {
    closed spec fn applied(&self) -> Seq<AttrView> {
        attr_views(self.log@)
    }

    fn submit(&mut self, attr: PayloadAttributeImpl) -> (r: Result<(), EngineError>)
    {
        if self.refusals > 0 {
            self.refusals = self.refusals - 1;
            return Err(EngineError::Unavailable);
        }
        let ghost before = self.log@;
        self.log.push(attr);
        assert(attr_views(self.log@) =~= attr_views(before).push(attr@));
        Ok(())
    }

    fn last_applied_epoch(&self) -> (r: Option<EpochInfo>)
    {
        if self.log.len() == 0 {
            None
        } else {
            Some(self.log[self.log.len() - 1].epoch)
        }
    }
}

} // verus!
