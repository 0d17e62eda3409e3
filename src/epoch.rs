use vstd::prelude::*;

verus! {

/// Hash of an L1 block.
pub type L1Hash = [u8; 32];

/// Height (block number) of an L1 block.
pub type L1Height = u64;

/// Timestamp of an L1 block, in seconds.
pub type L1Timestamp = u64;

/// Byte-wise comparison of two block hashes.
pub fn hash_eq(a: &L1Hash, b: &L1Hash) -> (r: bool)
    ensures
        r == (a@ == b@),
{
    let mut i: usize = 0;
    while i < 32
        invariant
            0 <= i <= 32,
            a@.len() == 32,
            b@.len() == 32,
            forall|j: int| 0 <= j < i ==> a@[j] == b@[j],
        decreases 32 - i,
    {
        if a[i] != b[i] {
            return false;
        }
        i = i + 1;
    }
    assert(a@ =~= b@);
    true
}

/// The head of an observed L1 block, as the L1 observation layer reports it.
#[derive(Clone, Copy, Debug)]
pub struct L1HeadImpl {
    pub hash: L1Hash,
    pub parent_hash: L1Hash,
    pub height: L1Height,
    pub timestamp: L1Timestamp,
}

/// The L1 block that a derived payload belongs to.
#[derive(Clone, Copy, Debug)]
pub struct EpochInfo {
    hash: L1Hash,
    height: L1Height,
    timestamp: L1Timestamp,
}

impl EpochInfo {
    pub closed spec fn spec_hash(&self) -> Seq<u8> {
        self.hash@
    }

    pub closed spec fn spec_height(&self) -> L1Height {
        self.height
    }

    pub closed spec fn spec_timestamp(&self) -> L1Timestamp {
        self.timestamp
    }

    /// The epoch that an L1 head stands for.
    pub open spec fn of_head(head: L1HeadImpl) -> EpochInfo {
        EpochInfo::new_spec(head.hash, head.height, head.timestamp)
    }

    pub closed spec fn new_spec(hash: L1Hash, height: L1Height, timestamp: L1Timestamp) -> EpochInfo {
        EpochInfo { hash, height, timestamp }
    }

    pub broadcast proof fn lemma_of_head(head: L1HeadImpl)
        ensures
            (#[trigger] EpochInfo::of_head(head)).spec_hash() == head.hash@,
            EpochInfo::of_head(head).spec_height() == head.height,
            EpochInfo::of_head(head).spec_timestamp() == head.timestamp,
    {
    }

    pub fn new(hash: L1Hash, height: L1Height, timestamp: L1Timestamp) -> (r: EpochInfo)
        ensures
            r == EpochInfo::new_spec(hash, height, timestamp),
            r.spec_hash() == hash@,
            r.spec_height() == height,
            r.spec_timestamp() == timestamp,
    {
        EpochInfo { hash, height, timestamp }
    }

    /// Converts an L1 head into its epoch; this never fails.
    pub fn try_from(value: L1HeadImpl) -> (r: Result<EpochInfo, crate::block::ConversionError>)
        ensures
            r == Ok::<EpochInfo, crate::block::ConversionError>(EpochInfo::of_head(value)),
    {
        Ok(EpochInfo { hash: value.hash, height: value.height, timestamp: value.timestamp })
    }

    pub fn block_hash(&self) -> (r: L1Hash)
        ensures
            r@ == self.spec_hash(),
    {
        self.hash
    }

    pub fn block_height(&self) -> (r: L1Height)
        ensures
            r == self.spec_height(),
    {
        self.height
    }

    pub fn timestamp(&self) -> (r: L1Timestamp)
        ensures
            r == self.spec_timestamp(),
    {
        self.timestamp
    }

    /// Two epochs name the same L1 block when hash and height agree.
    pub open spec fn same_block(&self, other: EpochInfo) -> bool {
        self.spec_hash() == other.spec_hash() && self.spec_height() == other.spec_height()
    }

    pub fn same_block_as(&self, other: &EpochInfo) -> (r: bool)
        ensures
            r == self.same_block(*other),
    {
        self.height == other.height && hash_eq(&self.hash, &other.hash)
    }
}

impl PartialEq for EpochInfo {
    fn eq(&self, other: &EpochInfo) -> (r: bool) {
        self.same_block_as(other)
    }
}

impl vstd::std_specs::cmp::PartialEqSpecImpl for EpochInfo {
    open spec fn obeys_eq_spec() -> bool {
        true
    }

    open spec fn eq_spec(&self, other: &EpochInfo) -> bool {
        self.same_block(*other)
    }
}

} // verus!
