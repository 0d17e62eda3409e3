use rollup_derivation::block::{Batch, ConversionError, DepositTx, L1BlockInfoImpl, L2Transaction};
use rollup_derivation::da::{DaDeriver, Frame};
use rollup_derivation::engine::{Engine, EngineError, MemoryEngine};
use rollup_derivation::epoch::{EpochInfo, L1HeadImpl};
use rollup_derivation::runner::{InstantDeriver, Progress, Runner, RunnerError};

fn head(hash: u8, parent: u8, height: u64) -> L1HeadImpl {
    L1HeadImpl { hash: [hash; 32], parent_hash: [parent; 32], height, timestamp: 1000 + height * 12 }
}

fn deposit(n: u64) -> DepositTx {
    DepositTx { version: 1, from: n, to: 100 + n, value: 10 * n, gas_limit: 21000 }
}

fn batched(n: u64) -> L2Transaction {
    L2Transaction { from: n, to: 200 + n, value: n, gas_limit: 50000, is_deposit: false }
}

fn block(hash: u8, parent: u8, height: u64, deposits: Vec<DepositTx>, batch: Batch) -> L1BlockInfoImpl {
    L1BlockInfoImpl::new(deposits, batch, head(hash, parent, height))
}

fn frame(batch_id: u64, index: u64, is_last: bool, txs: Vec<L2Transaction>) -> Frame {
    Frame { batch_id, index, is_last, txs }
}

fn runner(anchor_hash: u8, anchor_height: u64, horizon: u64) -> Runner<MemoryEngine> {
    let anchor = EpochInfo::new([anchor_hash; 32], anchor_height, 0);
    let mut r = Runner::new(MemoryEngine::new(), anchor);
    r.register_instant(InstantDeriver::new());
    r.register_da(DaDeriver::new(horizon));
    r
}

fn log(r: &Runner<MemoryEngine>) -> Vec<(usize, u64, [u8; 32])> {
    let e = r.get_engine();
    (0..e.len())
        .map(|i| {
            let a = e.get(i);
            (a.transactions().len(), a.epoch_info().block_height(), a.epoch_info().block_hash())
        })
        .collect()
}

#[test]
fn deposits_then_batch_in_later_block() {
    let mut r = runner(9, 9, 8);
    let b10 = block(10, 9, 10, vec![deposit(1), deposit(2)], Batch::Commit { id: 1 });
    assert_eq!(r.advance(vec![b10], &vec![]), Ok(Progress::Advanced));
    assert_eq!(log(&r), vec![(2, 10, [10; 32])]);
    assert_eq!(r.cursor().block_height(), 10);

    let b11 = block(11, 10, 11, vec![], Batch::Absent);
    let frames = vec![frame(1, 0, true, vec![batched(1), batched(2), batched(3)])];
    assert_eq!(r.advance(vec![b11], &frames), Ok(Progress::Advanced));
    // the empty instant attribute of block 11, then the batch under its commit epoch 10
    assert_eq!(log(&r), vec![(2, 10, [10; 32]), (0, 11, [11; 32]), (3, 10, [10; 32])]);
    assert_eq!(r.cursor().block_height(), 11);
    let da = r.get_engine().get(2);
    assert_eq!(*da.transactions(), vec![batched(1), batched(2), batched(3)]);
}

#[test]
fn instant_attribute_keeps_deposit_order() {
    let mut r = runner(1, 1, 8);
    let b = block(2, 1, 2, vec![deposit(3), deposit(1), deposit(2)], Batch::Absent);
    assert_eq!(r.advance(vec![b], &vec![]), Ok(Progress::Advanced));
    let a = r.get_engine().get(0);
    let froms: Vec<u64> = a.transactions().iter().map(|t| t.from).collect();
    assert_eq!(froms, vec![3, 1, 2]);
    assert!(a.transactions().iter().all(|t| t.is_deposit));
}

#[test]
fn instant_comes_before_batch_of_same_epoch() {
    let mut r = runner(1, 1, 8);
    let b = block(2, 1, 2, vec![deposit(1)], Batch::Commit { id: 5 });
    let frames = vec![frame(5, 0, true, vec![batched(7)])];
    assert_eq!(r.advance(vec![b], &frames), Ok(Progress::Advanced));
    assert_eq!(log(&r), vec![(1, 2, [2; 32]), (1, 2, [2; 32])]);
    assert!(r.get_engine().get(0).transactions()[0].is_deposit);
    assert!(!r.get_engine().get(1).transactions()[0].is_deposit);
}

#[test]
fn same_inputs_give_same_attributes() {
    let run = || {
        let mut r = runner(1, 1, 8);
        let b2 = block(2, 1, 2, vec![deposit(1), deposit(2)], Batch::Commit { id: 3 });
        r.advance(vec![b2], &vec![frame(3, 0, false, vec![batched(1)])]).unwrap();
        let b3 = block(3, 2, 3, vec![deposit(3)], Batch::Commit { id: 4 });
        r.advance(vec![b3], &vec![frame(4, 0, true, vec![batched(9)]), frame(3, 1, true, vec![batched(2)])])
            .unwrap();
        let e = r.get_engine();
        (0..e.len()).map(|i| ((*e.get(i).transactions()).clone(), e.get(i).epoch_info().block_height())).collect::<Vec<_>>()
    };
    let first = run();
    assert_eq!(first, run());
    assert_eq!(first.len(), 4);
    // batches come out in commit order: 3 (epoch 2) before 4 (epoch 3)
    assert_eq!(first[2], (vec![batched(1), batched(2)], 2));
    assert_eq!(first[3], (vec![batched(9)], 3));
}

#[test]
fn cursor_moves_one_block_per_advance() {
    let mut r = runner(1, 1, 8);
    let mut heights = vec![r.cursor().block_height()];
    for h in 2..6u64 {
        let b = block(h as u8, (h - 1) as u8, h, vec![deposit(h)], Batch::Absent);
        assert_eq!(r.advance(vec![b], &vec![]), Ok(Progress::Advanced));
        heights.push(r.cursor().block_height());
        assert_eq!(r.get_engine().last_applied_epoch().unwrap().block_height(), h);
    }
    assert_eq!(heights, vec![1, 2, 3, 4, 5]);
    assert_eq!(r.advance(vec![], &vec![]), Ok(Progress::CaughtUp));
    assert_eq!(r.cursor().block_height(), 5);
}

#[test]
fn reorg_rewinds_to_common_ancestor() {
    // canonical A(1) -> B(2) -> C(3), then the base chain switches to A -> B'(2) -> C'(3)
    let mut r = runner(0xA, 1, 8);
    assert_eq!(r.advance(vec![block(0xB, 0xA, 2, vec![deposit(1)], Batch::Absent)], &vec![]), Ok(Progress::Advanced));
    assert_eq!(r.advance(vec![block(0xC, 0xB, 3, vec![deposit(2)], Batch::Absent)], &vec![]), Ok(Progress::Advanced));
    let branch = vec![
        block(0xB1, 0xA, 2, vec![deposit(3)], Batch::Absent),
        block(0xC1, 0xB1, 3, vec![deposit(4)], Batch::Absent),
    ];
    assert_eq!(r.advance(branch, &vec![]), Ok(Progress::Advanced));
    assert_eq!(r.cursor().block_hash(), [0xC1; 32]);
    assert_eq!(r.cursor().block_height(), 3);
    assert_eq!(r.advance(vec![block(0xD1, 0xC1, 4, vec![], Batch::Absent)], &vec![]), Ok(Progress::Advanced));
    let hashes: Vec<u8> = log(&r).iter().map(|e| e.2[0]).collect();
    assert_eq!(hashes, vec![0xB, 0xC, 0xB1, 0xC1, 0xD1]);
}

#[test]
fn reorg_drops_batches_of_abandoned_blocks() {
    let mut r = runner(1, 1, 8);
    r.advance(vec![block(2, 1, 2, vec![], Batch::Commit { id: 7 })], &vec![]).unwrap();
    let frames = vec![frame(7, 0, true, vec![batched(1)])];
    assert_eq!(r.advance(vec![block(0x21, 1, 2, vec![], Batch::Absent)], &frames), Ok(Progress::Advanced));
    // only the two instant attributes: batch 7 belonged to the abandoned block
    assert_eq!(log(&r), vec![(0, 2, [2; 32]), (0, 2, [0x21; 32])]);
    assert_eq!(r.cursor().block_hash(), [0x21; 32]);
}

#[test]
fn chain_that_does_not_attach_is_refused() {
    let mut r = runner(1, 1, 8);
    r.advance(vec![block(2, 1, 2, vec![], Batch::Absent)], &vec![]).unwrap();
    // parent unknown at height 2
    assert_eq!(
        r.advance(vec![block(0x31, 0x21, 3, vec![], Batch::Absent)], &vec![]),
        Err(RunnerError::Unlinked { found: 3 })
    );
    // block already derived
    assert_eq!(r.advance(vec![block(2, 1, 2, vec![], Batch::Absent)], &vec![]), Err(RunnerError::Unlinked { found: 2 }));
    // blocks not linked to each other
    assert_eq!(
        r.advance(vec![block(3, 2, 3, vec![], Batch::Absent), block(4, 9, 4, vec![], Batch::Absent)], &vec![]),
        Err(RunnerError::BrokenChain)
    );
    assert_eq!(r.cursor().block_height(), 2);
    assert_eq!(r.get_engine().len(), 1);
}

#[test]
fn reorg_below_anchor_is_an_error() {
    let mut r = runner(1, 1, 8);
    assert_eq!(
        r.advance(vec![block(0x11, 0x77, 1, vec![], Batch::Absent)], &vec![]),
        Err(RunnerError::ReorgPastAnchor)
    );
    assert_eq!(r.cursor().block_height(), 1);
}

#[test]
fn engine_failure_keeps_cursor_and_retry_derives_the_same() {
    let anchor = EpochInfo::new([1; 32], 1, 0);
    let mut r = Runner::new(MemoryEngine::refusing(1), anchor);
    r.register_instant(InstantDeriver::new());
    r.register_da(DaDeriver::new(8));
    let make = || block(2, 1, 2, vec![deposit(1), deposit(2)], Batch::Commit { id: 9 });
    let frames = vec![frame(9, 0, true, vec![batched(4)])];
    assert_eq!(r.advance(vec![make()], &frames), Err(RunnerError::Engine(EngineError::Unavailable)));
    assert_eq!(r.cursor().block_height(), 1);
    assert_eq!(r.get_engine().len(), 0);

    assert_eq!(r.advance(vec![make()], &frames), Ok(Progress::Advanced));
    assert_eq!(r.cursor().block_height(), 2);
    assert_eq!(log(&r), vec![(2, 2, [2; 32]), (1, 2, [2; 32])]);
    assert_eq!(*r.get_engine().get(1).transactions(), vec![batched(4)]);
}

#[test]
fn conversion_error_aborts_the_block() {
    let mut r = runner(1, 1, 8);
    let bad = DepositTx { version: 2, ..deposit(2) };
    let b = block(2, 1, 2, vec![deposit(1), bad], Batch::Absent);
    assert_eq!(
        r.advance(vec![b], &vec![]),
        Err(RunnerError::Conversion(ConversionError::UnsupportedVersion { version: 2 }))
    );
    assert_eq!(r.cursor().block_height(), 1);
    assert_eq!(r.get_engine().len(), 0);
    let malformed = DepositTx { gas_limit: 0, ..deposit(3) };
    let b = block(2, 1, 2, vec![malformed], Batch::Absent);
    assert_eq!(r.advance(vec![b], &vec![]), Err(RunnerError::Conversion(ConversionError::Malformed)));
}

#[test]
fn unexpected_height_is_an_error() {
    let mut r = runner(1, 1, 8);
    assert_eq!(
        r.advance(vec![block(3, 2, 3, vec![], Batch::Absent)], &vec![]),
        Err(RunnerError::UnexpectedHeight { found: 3 })
    );
    assert_eq!(r.cursor().block_height(), 1);
}

#[test]
fn advance_needs_both_strategies() {
    let mut r = Runner::new(MemoryEngine::new(), EpochInfo::new([1; 32], 1, 0));
    r.register_instant(InstantDeriver::new());
    assert_eq!(r.advance(vec![block(2, 1, 2, vec![], Batch::Absent)], &vec![]), Err(RunnerError::NotRegistered));
    assert_eq!(r.advance(vec![], &vec![]), Ok(Progress::CaughtUp));
}

#[test]
fn frames_accumulate_over_blocks() {
    let mut r = runner(1, 1, 8);
    r.advance(vec![block(2, 1, 2, vec![], Batch::Commit { id: 1 })], &vec![frame(1, 0, false, vec![batched(1)])]).unwrap();
    r.advance(vec![block(3, 2, 3, vec![], Batch::Absent)], &vec![frame(1, 1, false, vec![batched(2)])]).unwrap();
    assert_eq!(r.get_engine().len(), 2);
    r.advance(vec![block(4, 3, 4, vec![], Batch::Absent)], &vec![frame(1, 2, true, vec![batched(3)])]).unwrap();
    assert_eq!(r.get_engine().len(), 4);
    assert_eq!(*r.get_engine().get(3).transactions(), vec![batched(1), batched(2), batched(3)]);
    assert_eq!(r.get_engine().get(3).epoch_info().block_height(), 2);
}

#[test]
fn out_of_order_frame_drops_the_batch() {
    let mut r = runner(1, 1, 8);
    let frames = vec![frame(1, 1, true, vec![batched(2)]), frame(1, 0, true, vec![batched(1)])];
    r.advance(vec![block(2, 1, 2, vec![], Batch::Commit { id: 1 })], &frames).unwrap();
    assert_eq!(log(&r), vec![(0, 2, [2; 32])]);
}

#[test]
fn stale_batch_is_discarded() {
    let mut r = runner(1, 1, 1);
    r.advance(vec![block(2, 1, 2, vec![], Batch::Commit { id: 1 })], &vec![]).unwrap();
    r.advance(vec![block(3, 2, 3, vec![], Batch::Absent)], &vec![]).unwrap();
    // at height 4 the batch committed at 2 is past the horizon of one block
    r.advance(vec![block(4, 3, 4, vec![], Batch::Absent)], &vec![frame(1, 0, true, vec![batched(1)])]).unwrap();
    assert_eq!(r.get_engine().len(), 3);
}

#[test]
fn incomplete_batch_holds_back_later_ones() {
    let mut r = runner(1, 1, 8);
    r.advance(vec![block(2, 1, 2, vec![], Batch::Commit { id: 1 })], &vec![]).unwrap();
    r.advance(vec![block(3, 2, 3, vec![], Batch::Commit { id: 2 })], &vec![frame(2, 0, true, vec![batched(2)])])
        .unwrap();
    assert_eq!(r.get_engine().len(), 2);
    r.advance(vec![block(4, 3, 4, vec![], Batch::Absent)], &vec![frame(1, 0, true, vec![batched(1)])]).unwrap();
    assert_eq!(log(&r)[3..].to_vec(), vec![(1, 2, [2; 32]), (1, 3, [3; 32])]);
}

#[test]
fn da_deriver_leaves_itself_unchanged() {
    let d = DaDeriver::new(4);
    let e = EpochInfo::new([5; 32], 5, 0);
    let (attrs, next) = d.derive(Batch::Commit { id: 8 }, e, &vec![frame(8, 0, false, vec![batched(1)])]);
    assert!(attrs.is_empty());
    assert_eq!(d.pending_ids(), Vec::<u64>::new());
    assert_eq!(next.pending_ids(), vec![8]);
    assert_eq!(next.horizon(), 4);
    assert_eq!(next.invalidated(5).pending_ids(), Vec::<u64>::new());
    assert_eq!(next.invalidated(6).pending_ids(), vec![8]);
}
