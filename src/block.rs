use vstd::prelude::*;

use crate::attribute::PayloadAttributeImpl;
use crate::epoch::{EpochInfo, L1HeadImpl};

verus! {

/// The only deposit encoding version this node understands.
pub const DEPOSIT_VERSION: u8 = 1;

/// A transaction emitted by an L1 event, to be replayed on L2.
#[derive(Clone, Copy, PartialEq, Eq, Structural, Debug)]
pub struct DepositTx {
    pub version: u8,
    pub from: u64,
    pub to: u64,
    pub value: u64,
    pub gas_limit: u64,
}

/// A transaction as the L2 engine executes it.
#[derive(Clone, Copy, PartialEq, Eq, Structural, Debug)]
pub struct L2Transaction {
    pub from: u64,
    pub to: u64,
    pub value: u64,
    pub gas_limit: u64,
    pub is_deposit: bool,
}

/// Why a deposit could not be turned into an L2 transaction.
#[derive(Clone, Copy, PartialEq, Eq, Structural, Debug)]
pub enum ConversionError {
    /// The deposit was encoded with a version other than `DEPOSIT_VERSION`.
    UnsupportedVersion { version: u8 },
    /// The deposit carries no gas to execute with.
    Malformed,
}

/// Reference to batch data that an L1 block committed to the data-availability layer.
#[derive(Clone, Copy, PartialEq, Eq, Structural, Debug)]
pub enum Batch {
    Absent,
    Commit { id: u64 },
}

pub open spec fn deposit_to_l2(d: DepositTx) -> Result<L2Transaction, ConversionError> {
    if d.version != DEPOSIT_VERSION {
        Err(ConversionError::UnsupportedVersion { version: d.version })
    } else if d.gas_limit == 0 {
        Err(ConversionError::Malformed)
    } else {
        Ok(L2Transaction { from: d.from, to: d.to, value: d.value, gas_limit: d.gas_limit, is_deposit: true })
    }
}

/// All deposits converted in order, or the error of the first one that fails.
pub open spec fn convert_all(ds: Seq<DepositTx>) -> Result<Seq<L2Transaction>, ConversionError>
    decreases ds.len(),
{
    if ds.len() == 0 {
        Ok(Seq::empty())
    } else {
        match convert_all(ds.drop_last()) {
            Err(e) => Err(e),
            Ok(prev) => match deposit_to_l2(ds.last()) {
                Err(e) => Err(e),
                Ok(t) => Ok(prev.push(t)),
            },
        }
    }
}

proof fn lemma_convert_err_extends(ds: Seq<DepositTx>, i: int)
    requires
        0 <= i <= ds.len(),
        convert_all(ds.take(i)) is Err,
    ensures
        convert_all(ds) == convert_all(ds.take(i)),
    decreases ds.len() - i,
{
    if i < ds.len() {
        assert(ds.take(i + 1).drop_last() =~= ds.take(i));
        lemma_convert_err_extends(ds, i + 1);
    } else {
        assert(ds.take(i) =~= ds);
    }
}

impl DepositTx {
    pub fn try_into(self) -> (r: Result<L2Transaction, ConversionError>)
        ensures
            r == deposit_to_l2(self),
    {
        if self.version != DEPOSIT_VERSION {
            Err(ConversionError::UnsupportedVersion { version: self.version })
        } else if self.gas_limit == 0 {
            Err(ConversionError::Malformed)
        } else {
            Ok(L2Transaction {
                from: self.from,
                to: self.to,
                value: self.value,
                gas_limit: self.gas_limit,
                is_deposit: true,
            })
        }
    }
}

/// Converts deposits in order, stopping at the first that fails.
pub fn convert_deposits(ds: &[DepositTx]) -> (r: Result<Vec<L2Transaction>, ConversionError>)
    ensures
        match (r, convert_all(ds@)) {
            (Ok(v), Ok(s)) => v@ == s,
            (Err(e), Err(f)) => e == f,
            _ => false,
        },
{
    let mut out: Vec<L2Transaction> = Vec::new();
    let mut i: usize = 0;
    while i < ds.len()
        invariant
            i <= ds@.len(),
            convert_all(ds@.take(i as int)) == Ok::<Seq<L2Transaction>, ConversionError>(out@),
        decreases ds@.len() - i,
    {
        assert(ds@.take(i as int + 1).drop_last() =~= ds@.take(i as int));
        match ds[i].try_into() {
            Err(e) => {
                proof {
                    lemma_convert_err_extends(ds@, i as int + 1);
                }
                return Err(e);
            },
            Ok(t) => {
                out.push(t);
            },
        }
        i = i + 1;
    }
    assert(ds@.take(i as int) =~= ds@);
    Ok(out)
}

/// What one observed L1 block carries for derivation.
pub struct L1BlockInfoImpl {
    deposit_txs: Vec<DepositTx>,
    batch: Batch,
    l1_head: L1HeadImpl,
}

impl L1BlockInfoImpl {
    pub closed spec fn spec_deposits(&self) -> Seq<DepositTx> {
        self.deposit_txs@
    }

    pub closed spec fn spec_batch(&self) -> Batch {
        self.batch
    }

    pub closed spec fn spec_head(&self) -> L1HeadImpl {
        self.l1_head
    }

    /// The payload attribute that instant derivation makes of this block.
    pub open spec fn spec_attribute(&self) -> Result<(Seq<L2Transaction>, EpochInfo), ConversionError> {
        match convert_all(self.spec_deposits()) {
            Err(e) => Err(e),
            Ok(txs) => Ok((txs, EpochInfo::of_head(self.spec_head()))),
        }
    }

    pub fn new(deposit_txs: Vec<DepositTx>, batch: Batch, l1_head: L1HeadImpl) -> (r: L1BlockInfoImpl)
        ensures
            r.spec_deposits() == deposit_txs@,
            r.spec_batch() == batch,
            r.spec_head() == l1_head,
    {
        L1BlockInfoImpl { deposit_txs, batch, l1_head }
    }

    pub fn deposit_transactions(&self) -> (r: &[DepositTx])
        ensures
            r@ == self.spec_deposits(),
    {
        self.deposit_txs.as_slice()
    }

    pub fn batch_info(&self) -> (r: &Batch)
        ensures
            *r == self.spec_batch(),
    {
        &self.batch
    }

    pub fn l1_head(&self) -> (r: &L1HeadImpl)
        ensures
            *r == self.spec_head(),
    {
        &self.l1_head
    }

    /// Instant derivation of this block: all deposits in block order, tagged
    /// with the block's epoch. Batch data is left to DA derivation.
    pub fn try_into(self) -> (r: Result<PayloadAttributeImpl, ConversionError>)
        ensures
            match (r, self.spec_attribute()) {
                (Ok(a), Ok(v)) => a@ == v,
                (Err(e), Err(f)) => e == f,
                _ => false,
            },
    {
        let deposit_tx = match convert_deposits(self.deposit_txs.as_slice()) {
            Ok(v) => v,
            Err(e) => {
                return Err(e);
            },
        };
        let epoch = match EpochInfo::try_from(self.l1_head) {
            Ok(e) => e,
            Err(e) => {
                return Err(e);
            },
        };
        Ok(PayloadAttributeImpl::new(deposit_tx, epoch))
    }
}

} // verus!
