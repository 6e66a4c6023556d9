use bzip2_rs::errors::BlockError;
use bzip2_rs::parallel::{
    check_stream_end, chunk_bounds, retain_tail, split_dispatch, BlockJobResult, BlockQueue,
    ReadableVec, SlotState,
};

#[test]
fn readable_vec_reads_in_order() {
    let mut pre = ReadableVec::from_vec(vec![1, 2, 3, 4, 5]);
    let mut out = vec![0u8; 3];
    assert_eq!(pre.read(&mut out), 3);
    assert_eq!(out, vec![1, 2, 3]);
    let mut out2 = vec![0u8; 8];
    assert_eq!(pre.read(&mut out2), 2);
    assert_eq!(&out2[..2], &[4, 5]);
    assert_eq!(pre.read(&mut out2), 0);
}

#[test]
fn split_dispatch_holds_back_last() {
    let sigs: Vec<u64> = vec![10, 20, 30];
    let (dispatch, retain) = split_dispatch(sigs, false);
    assert_eq!(dispatch, vec![10, 20]);
    assert_eq!(retain, Some(30));
}

#[test]
fn split_dispatch_sends_all_at_eof() {
    let sigs: Vec<u64> = vec![10, 20, 30];
    let (dispatch, retain) = split_dispatch(sigs, true);
    assert_eq!(dispatch, vec![10, 20, 30]);
    assert_eq!(retain, None);
}

#[test]
fn queue_delivers_in_allocation_order() {
    // Results arrive out of order; delivery still follows allocation order.
    let mut q = BlockQueue::new();
    let i0 = q.allocate();
    let i1 = q.allocate();
    let i2 = q.allocate();
    assert_eq!((i0, i1, i2), (0, 1, 2));

    q.record(i2, BlockJobResult::EndOfStream);
    q.record(i0, BlockJobResult::Failed(BlockError::BadCrc));
    assert!(!q.front_is_pending());

    match q.pop_front().unwrap() {
        SlotState::Failed(e) => assert_eq!(e.message(), "bad crc"),
        _ => panic!("slot 0 should carry slot 0's result"),
    }
    assert!(q.front_is_pending());
    q.record(i1, BlockJobResult::EndOfStream);
    assert!(!q.front_is_pending());
    match q.pop_front().unwrap() {
        SlotState::EndOfStream => {}
        _ => panic!("slot 1 should carry slot 1's result"),
    }
    match q.pop_front().unwrap() {
        SlotState::EndOfStream => {}
        _ => panic!("slot 2 should carry slot 2's result"),
    }
    assert!(!q.has_front());
    assert!(q.pop_front().is_none());
}

#[test]
fn queue_ignores_stale_results() {
    let mut q = BlockQueue::new();
    let i0 = q.allocate();
    q.record(i0, BlockJobResult::EndOfStream);
    let _ = q.pop_front().unwrap();
    // A late duplicate for an already-delivered index must not disturb
    // the queue.
    q.record(i0, BlockJobResult::Failed(BlockError::BadCrc));
    assert!(!q.has_front());
}

#[test]
fn stream_end_check() {
    // "BZh3" + final magic + zero CRC: the final marker sits at bit 32.
    let stream: Vec<u8> = vec![66, 90, 104, 51, 23, 114, 69, 56, 80, 144, 0, 0, 0, 0];
    assert!(check_stream_end(&stream, 32).is_ok());
    assert_eq!(
        check_stream_end(&stream, 0).unwrap_err().message(),
        "no blocks have been found"
    );
    assert_eq!(
        check_stream_end(&stream, 100).unwrap_err().message(),
        "no blocks have been found - eof"
    );
}

#[test]
fn retained_tail_keeps_suffix() {
    let data: Vec<u8> = vec![10, 20, 30, 40, 50];
    let (tail, bit) = retain_tail(&data, 19);
    assert_eq!(tail, vec![30, 40, 50]);
    assert_eq!(bit, 3);
}

#[test]
fn chunk_bounds_cover_with_overlap() {
    let (s0, e0) = chunk_bounds(100, 4, 0);
    assert_eq!((s0, e0), (0, 33));
    let (s3, e3) = chunk_bounds(100, 4, 3);
    assert_eq!((s3, e3), (75, 100));
}
