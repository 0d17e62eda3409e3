use rollup_derivation::attribute::PayloadAttributeImpl;
use rollup_derivation::block::{convert_deposits, Batch, ConversionError, DepositTx, L1BlockInfoImpl, L2Transaction};
use rollup_derivation::epoch::{hash_eq, EpochInfo, L1HeadImpl};
use rollup_derivation::executor::{select_program, BuilderError, ProgramSource, Settings};
use rollup_derivation::pool::{BatchSettings, FifoPool, PoolSettings, PriorityPool, TransactionPool};

fn tx(n: u64) -> L2Transaction {
    L2Transaction { from: n, to: n + 1, value: n, gas_limit: 1, is_deposit: false }
}

#[test]
fn epochs_equal_on_hash_and_height() {
    let a = EpochInfo::new([1; 32], 5, 100);
    let b = EpochInfo::new([1; 32], 5, 999);
    let c = EpochInfo::new([2; 32], 5, 100);
    let d = EpochInfo::new([1; 32], 6, 100);
    assert!(a == b);
    assert!(a != c);
    assert!(a != d);
    assert_eq!(a.timestamp(), 100);
}

#[test]
fn hash_comparison_is_bytewise() {
    let mut h = [3u8; 32];
    assert!(hash_eq(&h, &[3u8; 32]));
    h[31] = 4;
    assert!(!hash_eq(&h, &[3u8; 32]));
}

#[test]
fn epoch_from_head_copies_fields() {
    let head = L1HeadImpl { hash: [7; 32], parent_hash: [6; 32], height: 42, timestamp: 77 };
    let e = EpochInfo::try_from(head).unwrap();
    assert_eq!(e.block_hash(), [7; 32]);
    assert_eq!(e.block_height(), 42);
    assert_eq!(e.timestamp(), 77);
}

#[test]
fn deposit_conversion() {
    let d = DepositTx { version: 1, from: 1, to: 2, value: 3, gas_limit: 4 };
    assert_eq!(d.try_into(), Ok(L2Transaction { from: 1, to: 2, value: 3, gas_limit: 4, is_deposit: true }));
    assert_eq!(DepositTx { version: 0, ..d }.try_into(), Err(ConversionError::UnsupportedVersion { version: 0 }));
    assert_eq!(DepositTx { gas_limit: 0, ..d }.try_into(), Err(ConversionError::Malformed));
}

#[test]
fn first_bad_deposit_decides_the_error() {
    let good = DepositTx { version: 1, from: 1, to: 2, value: 3, gas_limit: 4 };
    let ds = vec![good, DepositTx { gas_limit: 0, ..good }, DepositTx { version: 9, ..good }];
    assert_eq!(convert_deposits(&ds), Err(ConversionError::Malformed));
    assert_eq!(convert_deposits(&[]), Ok(vec![]));
}

#[test]
fn block_without_deposits_gives_empty_attribute() {
    let head = L1HeadImpl { hash: [7; 32], parent_hash: [6; 32], height: 42, timestamp: 77 };
    let b = L1BlockInfoImpl::new(vec![], Batch::Commit { id: 3 }, head);
    assert_eq!(*b.batch_info(), Batch::Commit { id: 3 });
    assert_eq!(b.l1_head().height, 42);
    assert!(b.deposit_transactions().is_empty());
    let a = b.try_into().unwrap();
    assert!(a.transactions().is_empty());
    assert_eq!(a.epoch_info().block_height(), 42);
}

#[test]
fn attribute_shares_its_transactions() {
    let a = PayloadAttributeImpl::new(vec![tx(1), tx(2)], EpochInfo::new([0; 32], 1, 1));
    let t1 = a.transactions();
    let t2 = a.transactions();
    assert!(std::sync::Arc::ptr_eq(&t1, &t2));
    assert_eq!(*t1, vec![tx(1), tx(2)]);
}

#[test]
fn pool_hands_out_in_insertion_order_up_to_the_bound() {
    let mut p = FifoPool::new();
    for n in 0..5 {
        p.insert(tx(n));
    }
    let s = PoolSettings { max_size: 2 };
    assert_eq!(s.max_size(), 2);
    assert_eq!(p.next_batch(s), vec![tx(0), tx(1)]);
    assert_eq!(p.next_batch(s), vec![tx(2), tx(3)]);
    assert_eq!(p.next_batch(s), vec![tx(4)]);
    assert_eq!(p.next_batch(s), vec![]);
    assert_eq!(p.len(), 0);
}

#[test]
fn pool_never_returns_a_transaction_twice() {
    let mut p = FifoPool::new();
    for n in 0..4 {
        p.insert(tx(n));
    }
    let first = p.next_batch(PoolSettings { max_size: 3 });
    let second = p.next_batch(PoolSettings { max_size: 3 });
    assert_eq!(first.len(), 3);
    assert_eq!(second, vec![tx(3)]);
    assert!(second.iter().all(|t| !first.contains(t)));
}

#[test]
fn empty_pool_and_zero_bound_give_empty_batches() {
    let mut p = FifoPool::new();
    assert_eq!(p.next_batch(PoolSettings { max_size: 10 }), vec![]);
    p.insert(tx(1));
    p.insert(tx(1));
    assert_eq!(p.next_batch(PoolSettings { max_size: 0 }), vec![]);
    assert_eq!(p.len(), 2);
    assert_eq!(p.next_batch(PoolSettings { max_size: usize::MAX }), vec![tx(1), tx(1)]);
}

#[test]
fn settings_default_balance() {
    assert_eq!(Settings::default().fee_payer_balance, 80000);
}

#[test]
fn program_source_selection() {
    assert_eq!(select_program(Some(vec![1, 2]), None), Ok(ProgramSource::Buffer(vec![1, 2])));
    assert_eq!(select_program(None, Some("p.so".to_string())), Ok(ProgramSource::Path("p.so".to_string())));
    assert_eq!(select_program(Some(vec![1]), Some("p.so".to_string())), Err(BuilderError::BothSourcesSet));
    assert_eq!(select_program(None, None), Err(BuilderError::ProgramNotFound));
}

fn valued(from: u64, value: u64) -> L2Transaction {
    L2Transaction { from, to: 0, value, gas_limit: 1, is_deposit: false }
}

#[test]
fn priority_pool_hands_out_highest_value_first() {
    let mut p = PriorityPool::new();
    p.insert(valued(1, 5));
    p.insert(valued(2, 9));
    p.insert(valued(3, 5));
    p.insert(valued(4, 1));
    p.insert(valued(5, 9));
    let s = PoolSettings { max_size: 3 };
    let first: Vec<u64> = p.next_batch(s).iter().map(|t| t.from).collect();
    assert_eq!(first, vec![2, 5, 1]);
    let second: Vec<u64> = p.next_batch(s).iter().map(|t| t.from).collect();
    assert_eq!(second, vec![3, 4]);
    assert_eq!(p.next_batch(s), vec![]);
    assert_eq!(p.len(), 0);
}

#[test]
fn priority_pool_respects_the_bound() {
    let mut p = PriorityPool::new();
    for n in 0..10 {
        p.insert(valued(n, n % 3));
    }
    let batch = p.next_batch(PoolSettings { max_size: 4 });
    let froms: Vec<u64> = batch.iter().map(|t| t.from).collect();
    assert_eq!(froms, vec![2, 5, 8, 1]);
    assert_eq!(p.len(), 6);
}
