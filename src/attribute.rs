use std::sync::Arc;

use vstd::prelude::*;

use crate::block::L2Transaction;
use crate::epoch::EpochInfo;

verus! {

/// Abstract value of a payload attribute: its ordered transactions and its epoch.
pub type AttrView = (Seq<L2Transaction>, EpochInfo);

/// An engine-ready unit: an immutable, shared, ordered list of L2 transactions
/// together with the epoch they were derived from.
pub struct PayloadAttributeImpl {
    pub transactions: Arc<Vec<L2Transaction>>,
    pub epoch: EpochInfo,
}

impl View for PayloadAttributeImpl {
    type V = AttrView;

    open spec fn view(&self) -> AttrView {
        (self.transactions@, self.epoch)
    }
}

pub open spec fn attr_views(s: Seq<PayloadAttributeImpl>) -> Seq<AttrView> {
    s.map_values(|a: PayloadAttributeImpl| a@)
}

impl PayloadAttributeImpl {
    pub fn new(transactions: Vec<L2Transaction>, epoch: EpochInfo) -> (r: PayloadAttributeImpl)
        ensures
            r@ == (transactions@, epoch),
    {
        PayloadAttributeImpl { transactions: Arc::new(transactions), epoch }
    }

    pub fn transactions(&self) -> (r: Arc<Vec<L2Transaction>>)
        ensures
            r@ == self.transactions@,
    {
        self.transactions.clone()
    }

    pub fn epoch_info(&self) -> (r: &EpochInfo)
        ensures
            *r == self.epoch,
    {
        &self.epoch
    }
}

} // verus!
