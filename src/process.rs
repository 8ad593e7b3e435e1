use vstd::prelude::*;
use crate::config::Config;
use crate::pair::{PairError, WalkSummary};
use crate::stats::{Stats, obs_inc, corr_inc, merged, same_counts, same_except_lengths};

verus! {

/// Whether the read filters drop a read: a multi-base deletion, more than
/// one mutation, more than one deletion, or more than one of either, each
/// when the matching filter is on. Flags are in `Config::spec_flags` order.
pub open spec fn skip_read(
    flags: (bool, bool, bool, bool, bool),
    n_mut: nat,
    n_del: nat,
    mb_del: bool,
) -> bool {
    (flags.0 && mb_del) || (flags.2 && n_mut > 1) || (flags.1 && n_del > 1) || (flags.3 && n_mut
        + n_del > 1)
}

/// How often `k` occurs in `d`.
pub open spec fn occurrences(d: Seq<(usize, usize)>, k: (usize, usize)) -> nat
    decreases d.len(),
{
    if d.len() == 0 {
        0
    } else {
        occurrences(d.drop_last(), k) + if d.last() == k {
            1nat
        } else {
            0nat
        }
    }
}

/// `b` is `a` after one read pair was recorded: the deletion runs `dels`,
/// the aligned read `al` when `kept`, and the consensus length `len`.
pub open spec fn pair_recorded(
    a: Stats,
    b: Stats,
    al: Seq<u8>,
    dels: Seq<(usize, usize)>,
    kept: bool,
    len: u32,
) -> bool {
    let n = a.reference().len();
    &&& b.reference() == a.reference()
    &&& b.reads() == a.reads() + if kept {
        1nat
    } else {
        0nat
    }
    &&& forall|i: int, s: int|
        0 <= i < n && 0 <= s < 6 ==> #[trigger] b.pos(i, s) == a.pos(i, s) + if kept {
            obs_inc(al, i, s)
        } else {
            0
        }
    &&& forall|i: int, j: int, c: int|
        0 <= i <= j < n && 0 <= c < 4 ==> #[trigger] b.corr(i, j, c) == a.corr(i, j, c) + if kept
            && al.len() == n {
            corr_inc(al, a.reference(), i, j, c)
        } else {
            0
        }
    &&& forall|z: u32| #[trigger]
        b.ins(z) == a.ins(z) + if z == len {
            1nat
        } else {
            0nat
        }
    &&& forall|x: usize, y: usize| #[trigger] b.del(x, y) == a.del(x, y) + occurrences(dels, (x, y))
}

/// Which worker records a pair does not matter: recording it into one
/// part and then merging gives the same counts as merging first and
/// recording it after. With merging commutative and associative, any split
/// of the read pairs among workers ends in the statistics of a single pass.
pub proof fn lemma_pair_commutes_with_merge(
    a: Stats,
    c: Stats,
    al: Seq<u8>,
    dels: Seq<(usize, usize)>,
    kept: bool,
    len: u32,
    a1: Stats,
    a1_c: Stats,
    ac: Stats,
    ac1: Stats,
)
    requires
        pair_recorded(a, a1, al, dels, kept, len),
        merged(a1, c, a1_c),
        merged(a, c, ac),
        pair_recorded(ac, ac1, al, dels, kept, len),
    ensures
        same_counts(a1_c, ac1),
{
}

/// Whether the read filters of `cfg` drop a read with this walk summary.
pub fn skip(cfg: &Config, w: &WalkSummary) -> (r: bool)
    ensures
        r == skip_read(cfg.spec_flags(), w.n_mut as nat, w.n_del as nat, w.mb_del),
{
    let many_mods = w.n_mut > 1 || w.n_del > 1 || (w.n_mut == 1 && w.n_del == 1);
    (cfg.ignore_multibase_deletions() && w.mb_del) || (cfg.ignore_multiple_mutations() && w.n_mut
        > 1) || (cfg.ignore_multiple_deletions() && w.n_del > 1) || (
    cfg.ignore_multiple_modifications() && many_mods)
}

/// Records one read pair after its reference walk: every deletion run of
/// `dels`, then, unless the read filters drop it, the aligned read
/// `al_buf`, and in every case the consensus length `overlap_len`. Returns
/// whether the aligned read was kept. Fails with `CounterOverflow`, leaving
/// the statistics as they were, when the counters have no room for the
/// pair.
pub fn record_pair(
    cfg: &Config,
    stats: &mut Stats,
    al_buf: &[u8],
    dels: &[(usize, usize)],
    walk: &WalkSummary,
    overlap_len: usize,
) -> (r: Result<bool, PairError>)
    requires
        old(stats).wf(),
    ensures
        r is Err <==> old(stats).updates() + dels@.len() + 2 > u64::MAX,
        r is Err ==> r == Err::<bool, PairError>(PairError::CounterOverflow) && *final(stats)
            == *old(stats),
        r is Ok ==> ({
            let kept = r.unwrap();
            &&& final(stats).wf()
            &&& kept == !skip_read(
                cfg.spec_flags(),
                walk.n_mut as nat,
                walk.n_del as nat,
                walk.mb_del,
            )
            &&& pair_recorded(
                *old(stats),
                *final(stats),
                al_buf@,
                dels@,
                kept,
                overlap_len as u32,
            )
            &&& (!kept && dels@.len() == 0 ==> same_except_lengths(*old(stats), *final(stats)))
        }),
{
    let room: u128 = (u64::MAX - stats.n_updates()) as u128;
    if (dels.len() as u128) + 2 > room {
        return Err(PairError::CounterOverflow);
    }
    let ghost s0 = *stats;
    let mut i: usize = 0;
    while i < dels.len()
        invariant
            i <= dels@.len(),
            stats.wf(),
            s0.wf(),
            s0.updates() + dels@.len() + 2 <= u64::MAX,
            stats.updates() == s0.updates() + i,
            stats.reference() == s0.reference(),
            stats.reads() == s0.reads(),
            forall|q: int, s: int| #[trigger] stats.pos(q, s) == s0.pos(q, s),
            forall|z: u32| #[trigger] stats.ins(z) == s0.ins(z),
            forall|q: int, j: int, c: int| #[trigger] stats.corr(q, j, c) == s0.corr(q, j, c),
            forall|x: usize, y: usize| #[trigger]
                stats.del(x, y) == s0.del(x, y) + occurrences(dels@.subrange(0, i as int), (x, y)),
        decreases dels@.len() - i,
    {
        let (x, y) = dels[i];
        stats.add_del(x, y);
        proof {
            assert(dels@.subrange(0, i + 1).drop_last() == dels@.subrange(0, i as int));
        }
        i = i + 1;
    }
    assert(dels@.subrange(0, dels@.len() as int) == dels@);
    let kept = !skip(cfg, walk);
    if kept {
        stats.add_obs(al_buf);
    }
    stats.add_len(overlap_len as u32);
    Ok(kept)
}

} // verus!
