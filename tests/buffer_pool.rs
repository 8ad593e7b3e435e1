use std::io::Cursor;

use ampl_seq::buffer::Buffer;
use ampl_seq::pool::{hand_off, pool_size};

#[test]
fn pool_size_is_four_per_thread_of_larger_pool() {
    assert_eq!(pool_size(8, 2), Some(32));
    assert_eq!(pool_size(1, 3), Some(12));
    assert_eq!(pool_size(usize::MAX, 1), None);
}

#[test]
fn hand_off_before_end_keeps_next() {
    let h = hand_off(Buffer::new(0), Buffer::new(1), false);
    assert_eq!(h.to_workers.len(), 1);
    assert_eq!(h.to_workers[0].ix(), 0);
    assert_eq!(h.kept.map(|b| b.ix()), Some(1));
}

#[test]
fn hand_off_at_end_sends_a_tail() {
    let mut b = Buffer::new(0);
    let mut next = Buffer::new(1);
    let eof = b
        .fill(&mut Cursor::new(b"@r\nA\n+\nI".to_vec()), &mut Cursor::new(b"@r\nA\n+\nI".to_vec()), &mut next)
        .unwrap();
    assert!(eof);
    let h = hand_off(b, next, eof);
    let ixs: Vec<usize> = h.to_workers.iter().map(|b| b.ix()).collect();
    assert_eq!(ixs, vec![0, 1]);
    assert!(h.kept.is_none());
    let h2 = hand_off(Buffer::new(2), Buffer::new(3), true);
    assert_eq!(h2.to_workers.len(), 1);
    assert_eq!(h2.kept.map(|b| b.ix()), Some(3));
}

#[test]
fn buffers_in_circulation_stay_constant() {
    // one reader and one worker passing buffers through two queues
    let n = pool_size(1, 1).unwrap();
    let mut empty: Vec<Buffer> = (0..n).map(Buffer::new).collect();
    let mut full: Vec<Buffer> = Vec::new();
    let data = "@r\nACGT\n+\nIIII\n".repeat(300_000);
    let mut c1 = Cursor::new(data.clone().into_bytes());
    let mut c2 = Cursor::new(data.into_bytes());
    let mut current = empty.pop().unwrap();
    let mut pending = None;
    loop {
        let mut next = empty.pop().unwrap();
        let eof = current.fill(&mut c1, &mut c2, &mut next).unwrap();
        let h = hand_off(current, next, eof);
        full.extend(h.to_workers);
        let held = if h.kept.is_some() { 1 } else { 0 };
        assert_eq!(empty.len() + full.len() + held, n);
        // the worker recycles what it was sent
        while let Some(mut b) = full.pop() {
            b.clear();
            empty.push(b);
        }
        if eof {
            pending = h.kept;
            break;
        }
        current = h.kept.unwrap();
    }
    let held = if pending.is_some() { 1 } else { 0 };
    assert_eq!(empty.len() + full.len() + held, n);
}
