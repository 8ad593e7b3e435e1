use vstd::prelude::*;
use crate::buffer::Buffer;

verus! {

/// Buffers created for a run: four for each thread of the larger pool.
pub open spec fn pool_size_spec(threads: nat, readers: nat) -> nat {
    4 * if threads >= readers {
        threads
    } else {
        readers
    }
}

/// Number of buffers to create, `None` when it does not fit a `usize`.
pub fn pool_size(threads: usize, readers: usize) -> (r: Option<usize>)
    ensures
        r is Some <==> pool_size_spec(threads as nat, readers as nat) <= usize::MAX,
        r is Some ==> r.unwrap() == pool_size_spec(threads as nat, readers as nat),
{
    let m = if threads >= readers {
        threads
    } else {
        readers
    };
    m.checked_mul(4)
}

/// Where a reader's two buffers go after a fill: to the workers, or kept
/// by the reader (as the next buffer to fill, or as pending for the next
/// file pair).
pub struct Handoff {
    pub to_workers: Vec<Buffer>,
    pub kept: Option<Buffer>,
}

/// How many buffers a hand-off accounts for.
pub open spec fn handoff_count(h: Handoff) -> nat {
    h.to_workers@.len() + if h.kept is Some {
        1nat
    } else {
        0nat
    }
}

/// A reader's decision after filling `filled` (with its tail in `next`):
/// the filled buffer always goes to the workers; before the end of input
/// `next` is kept to be filled next; at the end of input it goes to the
/// workers when it holds a tail and is kept as pending otherwise. The two
/// buffers are all accounted for, none dropped or doubled, which keeps the
/// number of buffers in circulation equal to the pool size.
pub fn hand_off(filled: Buffer, next: Buffer, eof: bool) -> (h: Handoff)
    requires
        next.wf(),
    ensures
        handoff_count(h) == 2,
        h.to_workers@.len() >= 1,
        h.to_workers@[0] == filled,
        !eof ==> h.kept == Some(next),
        eof && !(next.data(0).len() == 0 && next.data(1).len() == 0) ==> h.kept is None
            && h.to_workers@[1] == next,
        eof && next.data(0).len() == 0 && next.data(1).len() == 0 ==> h.kept == Some(next),
{
    let mut to_workers: Vec<Buffer> = Vec::new();
    to_workers.push(filled);
    if eof && !next.is_empty() {
        to_workers.push(next);
        Handoff { to_workers, kept: None }
    } else {
        Handoff { to_workers, kept: Some(next) }
    }
}

} // verus!
