use vstd::prelude::*;

verus! {

/// Why a read pair could not be processed.
#[derive(Debug, Clone, Copy, PartialEq, Eq, Structural)]
pub enum PairError {
    /// The first whitespace-delimited tokens of the two identifiers differ.
    IdMismatch,
    /// An alignment's CIGAR holds an unknown operation, consumes a base past
    /// the end of a sequence, or aligns nothing.
    BadCigar,
    /// Recording the pair would overflow a 64-bit counter.
    CounterOverflow,
}

pub open spec fn is_ascii_ws(c: u8) -> bool {
    c == 32 || c == 9 || c == 10 || c == 12 || c == 13
}

/// Length of the leading run of `s` that holds no ASCII whitespace.
pub open spec fn token_end(s: Seq<u8>) -> nat
    decreases s.len(),
{
    if s.len() == 0 || is_ascii_ws(s[0]) {
        0
    } else {
        1 + token_end(s.drop_first())
    }
}

/// The first whitespace-delimited token of a read identifier.
pub open spec fn first_token(s: Seq<u8>) -> Seq<u8> {
    s.subrange(0, token_end(s) as int)
}

proof fn lemma_token_end(s: Seq<u8>)
    ensures
        token_end(s) <= s.len(),
        forall|i: int| 0 <= i < token_end(s) ==> !is_ascii_ws(#[trigger] s[i]),
        token_end(s) < s.len() ==> is_ascii_ws(s[token_end(s) as int]),
    decreases s.len(),
{
    if s.len() > 0 && !is_ascii_ws(s[0]) {
        lemma_token_end(s.drop_first());
        assert forall|i: int| 0 <= i < token_end(s) implies !is_ascii_ws(#[trigger] s[i]) by {
            if i > 0 {
                assert(s[i] == s.drop_first()[i - 1]);
            }
        }
    }
}

fn token_len(s: &[u8]) -> (r: usize)
    ensures
        r == token_end(s@),
        r <= s@.len(),
{
    proof {
        lemma_token_end(s@);
    }
    let mut i: usize = 0;
    while i < s.len() && !(s[i] == 32 || s[i] == 9 || s[i] == 10 || s[i] == 12 || s[i] == 13)
        invariant
            i <= token_end(s@),
            token_end(s@) <= s@.len(),
            forall|j: int| 0 <= j < token_end(s@) ==> !is_ascii_ws(#[trigger] s@[j]),
            token_end(s@) < s@.len() ==> is_ascii_ws(s@[token_end(s@) as int]),
        decreases s.len() - i,
    {
        i = i + 1;
    }
    i
}

/// Checks that two mates name the same read: the first whitespace-delimited
/// tokens of their identifiers are equal.
pub fn check_ids(id1: &[u8], id2: &[u8]) -> (r: Result<(), PairError>)
    ensures
        r is Ok <==> first_token(id1@) == first_token(id2@),
        r is Err ==> r == Err::<(), PairError>(PairError::IdMismatch),
{
    let n1 = token_len(id1);
    let n2 = token_len(id2);
    if n1 != n2 {
        assert(first_token(id1@).len() != first_token(id2@).len());
        return Err(PairError::IdMismatch);
    }
    let mut i: usize = 0;
    while i < n1
        invariant
            n1 == n2,
            n1 == token_end(id1@),
            n2 == token_end(id2@),
            n1 <= id1@.len(),
            n2 <= id2@.len(),
            i <= n1,
            forall|j: int| 0 <= j < i ==> id1@[j] == id2@[j],
        decreases n1 - i,
    {
        if id1[i] != id2[i] {
            assert(first_token(id1@)[i as int] != first_token(id2@)[i as int]);
            return Err(PairError::IdMismatch);
        }
        i = i + 1;
    }
    assert(first_token(id1@) =~= first_token(id2@));
    Ok(())
}

/// Watson-Crick complement of a base (A and T, C and G), in the base's own
/// case; other bytes stay as they are.
pub open spec fn complement(c: u8) -> u8 {
    if c == 'A' as u8 {
        'T' as u8
    } else if c == 'T' as u8 {
        'A' as u8
    } else if c == 'C' as u8 {
        'G' as u8
    } else if c == 'G' as u8 {
        'C' as u8
    } else if c == 'a' as u8 {
        't' as u8
    } else if c == 't' as u8 {
        'a' as u8
    } else if c == 'c' as u8 {
        'g' as u8
    } else if c == 'g' as u8 {
        'c' as u8
    } else {
        c
    }
}

pub open spec fn reverse_complement_of(s: Seq<u8>) -> Seq<u8> {
    Seq::new(s.len(), |i: int| complement(s[s.len() - 1 - i]))
}

/// Writes the reverse complement of `seq` into `out`, replacing what it held.
pub fn reverse_complement(seq: &[u8], out: &mut Vec<u8>)
    ensures
        final(out)@ == reverse_complement_of(seq@),
{
    out.clear();
    let n = seq.len();
    let mut i: usize = 0;
    while i < n
        invariant
            n == seq@.len(),
            i <= n,
            out@ =~= reverse_complement_of(seq@).subrange(0, i as int),
        decreases n - i,
    {
        let c = seq[n - 1 - i];
        let d = if c == 'A' as u8 {
            'T' as u8
        } else if c == 'T' as u8 {
            'A' as u8
        } else if c == 'C' as u8 {
            'G' as u8
        } else if c == 'G' as u8 {
            'C' as u8
        } else if c == 'a' as u8 {
            't' as u8
        } else if c == 't' as u8 {
            'a' as u8
        } else if c == 'c' as u8 {
            'g' as u8
        } else if c == 'g' as u8 {
            'c' as u8
        } else {
            c
        };
        out.push(d);
        i = i + 1;
    }
    assert(out@ =~= reverse_complement_of(seq@));
}

pub const OP_M: u8 = 77;

pub const OP_X: u8 = 88;

pub const OP_I: u8 = 73;

pub const OP_D: u8 = 68;

/// Number of `M` and `X` operations among the first `n` of a CIGAR.
pub open spec fn count_mx(cigar: Seq<u8>, n: int) -> nat
    decreases n,
{
    if n <= 0 {
        0
    } else {
        count_mx(cigar, n - 1) + if cigar[n - 1] == OP_M || cigar[n - 1] == OP_X {
            1nat
        } else {
            0nat
        }
    }
}

/// Base and quality that a matched pair of read positions contributes:
/// agreeing bases keep the higher quality; otherwise the better-supported
/// base wins with the difference of the qualities.
pub open spec fn merge_call(p: u8, qp: u8, t: u8, qt: u8) -> (u8, u8) {
    if t == p {
        (t, if qt >= qp { qt } else { qp })
    } else if qt > qp {
        (t, (qt - qp) as u8)
    } else {
        (p, (qp - qt) as u8)
    }
}

/// The consensus base for a matched pair: `N` when the Phred-33 quality of
/// the call is under `min_qual`.
pub open spec fn consensus_base(p: u8, qp: u8, t: u8, qt: u8, min_qual: u8) -> u8 {
    let (b, q) = merge_call(p, qp, t, qt);
    let score = if q >= 33 { q - 33 } else { 0 };
    if score >= min_qual { b } else { 'N' as u8 }
}

/// Consensus built from the first `n` operations of the overlap CIGAR, with
/// the pattern (read 1) and text (reverse-complemented read 2) positions
/// reached; `None` once the CIGAR is not a valid walk over the two reads.
/// Text qualities are those of read 2 taken from the end.
pub open spec fn consensus_upto(
    cigar: Seq<u8>,
    n: int,
    pseq: Seq<u8>,
    pqual: Seq<u8>,
    tseq: Seq<u8>,
    tqual: Seq<u8>,
    min_qual: u8,
) -> Option<(Seq<u8>, nat, nat)>
    decreases n,
{
    if n <= 0 {
        Some((Seq::empty(), 0nat, 0nat))
    } else {
        match consensus_upto(cigar, n - 1, pseq, pqual, tseq, tqual, min_qual) {
            None => None,
            Some((out, pi, ti)) => {
                let op = cigar[n - 1];
                if op == OP_M || op == OP_X {
                    if pi < pseq.len() && ti < tseq.len() {
                        let b = consensus_base(
                            pseq[pi as int],
                            pqual[pi as int],
                            tseq[ti as int],
                            tqual[tqual.len() - 1 - ti],
                            min_qual,
                        );
                        Some((out.push(b), pi + 1, ti + 1))
                    } else {
                        None
                    }
                } else if op == OP_I {
                    Some((out, pi, ti + 1))
                } else if op == OP_D {
                    Some((out, pi + 1, ti))
                } else {
                    None
                }
            },
        }
    }
}

proof fn lemma_consensus_none_stays(
    cigar: Seq<u8>,
    k: int,
    n: int,
    pseq: Seq<u8>,
    pqual: Seq<u8>,
    tseq: Seq<u8>,
    tqual: Seq<u8>,
    min_qual: u8,
)
    requires
        0 <= k <= n,
        consensus_upto(cigar, k, pseq, pqual, tseq, tqual, min_qual).is_none(),
    ensures
        consensus_upto(cigar, n, pseq, pqual, tseq, tqual, min_qual).is_none(),
    decreases n - k,
{
    if k < n {
        lemma_consensus_none_stays(cigar, k, n - 1, pseq, pqual, tseq, tqual, min_qual);
    }
}

proof fn lemma_consensus_len(
    cigar: Seq<u8>,
    n: int,
    pseq: Seq<u8>,
    pqual: Seq<u8>,
    tseq: Seq<u8>,
    tqual: Seq<u8>,
    min_qual: u8,
)
    requires
        consensus_upto(cigar, n, pseq, pqual, tseq, tqual, min_qual).is_some(),
    ensures
        consensus_upto(cigar, n, pseq, pqual, tseq, tqual, min_qual).unwrap().0.len() == count_mx(
            cigar,
            n,
        ),
    decreases n,
{
    if n > 0 {
        lemma_consensus_len(cigar, n - 1, pseq, pqual, tseq, tqual, min_qual);
    }
}

/// Rebuilds the consensus of a read pair from the CIGAR of read 1 (pattern)
/// aligned against the reverse complement of read 2 (text) into `out`.
/// `M`/`X` emit one consensus base each, `I` skips a text base, `D` skips a
/// pattern base. Fails with `BadCigar` exactly when the CIGAR holds another
/// operation or an `M`/`X` finds either read used up; on success the
/// consensus has one base per `M`/`X` operation.
pub fn overlap_consensus(
    cigar: &[u8],
    pseq: &[u8],
    pqual: &[u8],
    tseq: &[u8],
    tqual: &[u8],
    min_qual: u8,
    out: &mut Vec<u8>,
) -> (r: Result<(), PairError>)
    requires
        pseq@.len() == pqual@.len(),
        tseq@.len() == tqual@.len(),
    ensures
        r is Ok <==> consensus_upto(
            cigar@,
            cigar@.len() as int,
            pseq@,
            pqual@,
            tseq@,
            tqual@,
            min_qual,
        ).is_some(),
        r is Err ==> r == Err::<(), PairError>(PairError::BadCigar),
        r is Ok ==> final(out)@ == consensus_upto(
            cigar@,
            cigar@.len() as int,
            pseq@,
            pqual@,
            tseq@,
            tqual@,
            min_qual,
        ).unwrap().0,
        r is Ok ==> final(out)@.len() == count_mx(cigar@, cigar@.len() as int),
{
    out.clear();
    let mut pi: usize = 0;
    let mut ti: usize = 0;
    let mut k: usize = 0;
    while k < cigar.len()
        invariant
            pseq@.len() == pqual@.len(),
            tseq@.len() == tqual@.len(),
            k <= cigar@.len(),
            pi <= k,
            ti <= k,
            consensus_upto(cigar@, k as int, pseq@, pqual@, tseq@, tqual@, min_qual) == Some(
                (out@, pi as nat, ti as nat),
            ),
        decreases cigar.len() - k,
    {
        let op = cigar[k];
        if op == OP_M || op == OP_X {
            if pi < pseq.len() && ti < tseq.len() {
                let p = pseq[pi];
                let qp = pqual[pi];
                let t = tseq[ti];
                let qt = tqual[tqual.len() - 1 - ti];
                let (b, q) = if t == p {
                    (t, if qt >= qp { qt } else { qp })
                } else if qt > qp {
                    (t, qt - qp)
                } else {
                    (p, qp - qt)
                };
                let score = if q >= 33 { q - 33 } else { 0 };
                if score >= min_qual {
                    out.push(b);
                } else {
                    out.push('N' as u8);
                }
                pi = pi + 1;
                ti = ti + 1;
            } else {
                proof {
                    lemma_consensus_none_stays(
                        cigar@,
                        k + 1,
                        cigar@.len() as int,
                        pseq@,
                        pqual@,
                        tseq@,
                        tqual@,
                        min_qual,
                    );
                }
                return Err(PairError::BadCigar);
            }
        } else if op == OP_I {
            ti = ti + 1;
        } else if op == OP_D {
            pi = pi + 1;
        } else {
            proof {
                lemma_consensus_none_stays(
                    cigar@,
                    k + 1,
                    cigar@.len() as int,
                    pseq@,
                    pqual@,
                    tseq@,
                    tqual@,
                    min_qual,
                );
            }
            return Err(PairError::BadCigar);
        }
        k = k + 1;
    }
    proof {
        lemma_consensus_len(cigar@, cigar@.len() as int, pseq@, pqual@, tseq@, tqual@, min_qual);
    }
    Ok(())
}


pub open spec fn to_upper(c: u8) -> u8 {
    if 97 <= c <= 122 { (c - 32) as u8 } else { c }
}

pub open spec fn to_lower(c: u8) -> u8 {
    if 65 <= c <= 90 { (c + 32) as u8 } else { c }
}

fn upper(c: u8) -> (r: u8)
    ensures
        r == to_upper(c),
{
    if 97 <= c && c <= 122 { c - 32 } else { c }
}

fn lower(c: u8) -> (r: u8)
    ensures
        r == to_lower(c),
{
    if 65 <= c && c <= 90 { c + 32 } else { c }
}

/// Progress of the walk along the CIGAR of the consensus (pattern) aligned
/// end to end against the reference (text).
pub ghost struct WalkState {
    /// The aligned consensus so far: reference-length positions, a space for
    /// each reference base missing from the consensus, and the base before
    /// each consensus-only base in lower case.
    pub al: Seq<u8>,
    pub pi: nat,
    pub ti: nat,
    /// Start of the deletion run under way, if any.
    pub open: Option<nat>,
    pub n_mut: nat,
    pub n_del: nat,
    pub mb_del: bool,
    /// Deletion runs recorded, as (start, end).
    pub dels: Seq<(nat, nat)>,
}

pub open spec fn walk_start() -> WalkState {
    WalkState {
        al: Seq::empty(),
        pi: 0,
        ti: 0,
        open: None,
        n_mut: 0,
        n_del: 0,
        mb_del: false,
        dels: Seq::empty(),
    }
}

/// The deletions with the run under way closed at the current end of `al`.
pub open spec fn close_open(open: Option<nat>, al_len: nat, dels: Seq<(nat, nat)>) -> Seq<
    (nat, nat),
> {
    match open {
        Some(x) => dels.push((x, al_len)),
        None => dels,
    }
}

/// One CIGAR operation of the reference walk; `None` on an unknown operation
/// or on an `M`/`X` that finds either sequence used up.
pub open spec fn walk_step(st: WalkState, op: u8, pat: Seq<u8>, rf: Seq<u8>) -> Option<WalkState> {
    if op == OP_M || op == OP_X {
        if st.pi < pat.len() && st.ti < rf.len() {
            let p = pat[st.pi as int];
            Some(
                WalkState {
                    al: st.al.push(to_upper(p)),
                    pi: st.pi + 1,
                    ti: st.ti + 1,
                    open: None,
                    n_mut: st.n_mut + if rf[st.ti as int] != p {
                        1nat
                    } else {
                        0nat
                    },
                    dels: close_open(st.open, st.al.len(), st.dels),
                    ..st
                },
            )
        } else {
            None
        }
    } else if op == OP_I {
        let al = st.al.push(32u8);
        if st.open is Some {
            Some(WalkState { al, ti: st.ti + 1, mb_del: true, ..st })
        } else {
            Some(
                WalkState { al, ti: st.ti + 1, open: Some(al.len()), n_del: st.n_del + 1, ..st },
            )
        }
    } else if op == OP_D {
        let al = if st.al.len() > 0 {
            st.al.update(st.al.len() - 1, to_lower(st.al.last()))
        } else {
            st.al
        };
        Some(
            WalkState {
                al,
                pi: st.pi + 1,
                open: None,
                dels: close_open(st.open, al.len(), st.dels),
                ..st
            },
        )
    } else {
        None
    }
}

pub open spec fn walk_upto(cigar: Seq<u8>, n: int, pat: Seq<u8>, rf: Seq<u8>) -> Option<WalkState>
    decreases n,
{
    if n <= 0 {
        Some(walk_start())
    } else {
        match walk_upto(cigar, n - 1, pat, rf) {
            None => None,
            Some(st) => walk_step(st, cigar[n - 1], pat, rf),
        }
    }
}

/// End of the walk: first and last aligned bytes in upper case, and a
/// deletion run still under way closed; `None` when nothing was aligned.
pub open spec fn walk_finish(st: WalkState) -> Option<WalkState> {
    if st.al.len() == 0 {
        None
    } else {
        let a1 = st.al.update(0, to_upper(st.al[0]));
        let al = a1.update(a1.len() - 1, to_upper(a1.last()));
        Some(WalkState { al, open: None, dels: close_open(st.open, al.len(), st.dels), ..st })
    }
}

/// The outcome of walking the whole CIGAR.
pub open spec fn walk_result(cigar: Seq<u8>, pat: Seq<u8>, rf: Seq<u8>) -> Option<WalkState> {
    match walk_upto(cigar, cigar.len() as int, pat, rf) {
        None => None,
        Some(st) => walk_finish(st),
    }
}

proof fn lemma_walk_none_stays(cigar: Seq<u8>, k: int, n: int, pat: Seq<u8>, rf: Seq<u8>)
    requires
        0 <= k <= n,
        walk_upto(cigar, k, pat, rf).is_none(),
    ensures
        walk_upto(cigar, n, pat, rf).is_none(),
    decreases n - k,
{
    if k < n {
        lemma_walk_none_stays(cigar, k, n - 1, pat, rf);
    }
}

/// Counts gathered by the reference walk.
#[derive(Debug, Clone, Copy, PartialEq, Eq, Structural)]
pub struct WalkSummary {
    /// Aligned positions whose consensus base differs from the reference.
    pub n_mut: usize,
    /// Deletion runs.
    pub n_del: usize,
    /// Whether some deletion run spans more than one reference base.
    pub mb_del: bool,
}

pub open spec fn dels_match(v: Seq<(usize, usize)>, d: Seq<(nat, nat)>) -> bool {
    &&& v.len() == d.len()
    &&& forall|i: int| 0 <= i < v.len() ==> v[i].0 as nat == d[i].0 && v[i].1 as nat == d[i].1
}

/// Walks the CIGAR of the consensus (pattern) aligned end to end against
/// the reference (text), writing the aligned consensus into `al_buf` and the
/// deletion runs, as (start, end) positions in `al_buf`, into `dels`.
/// `M`/`X` add the consensus base in upper case and close a deletion run;
/// `I` adds a space and opens a run (or marks it multi-base); `D` puts the
/// last aligned byte in lower case and closes a run. Fails with `BadCigar`
/// exactly when `walk_result` is `None`.
pub fn reference_walk(
    cigar: &[u8],
    pattern: &[u8],
    reference: &[u8],
    al_buf: &mut Vec<u8>,
    dels: &mut Vec<(usize, usize)>,
) -> (r: Result<WalkSummary, PairError>)
    ensures
        r is Ok <==> walk_result(cigar@, pattern@, reference@) is Some,
        r is Err ==> r == Err::<WalkSummary, PairError>(PairError::BadCigar),
        r is Ok ==> ({
            let st = walk_result(cigar@, pattern@, reference@).unwrap();
            &&& final(al_buf)@ == st.al
            &&& dels_match(final(dels)@, st.dels)
            &&& r.unwrap().n_mut == st.n_mut
            &&& r.unwrap().n_del == st.n_del
            &&& r.unwrap().mb_del == st.mb_del
        }),
{
    al_buf.clear();
    dels.clear();
    let mut pi: usize = 0;
    let mut ti: usize = 0;
    let mut open: Option<usize> = None;
    let mut n_mut: usize = 0;
    let mut n_del: usize = 0;
    let mut mb_del = false;
    let mut k: usize = 0;
    while k < cigar.len()
        invariant
            k <= cigar@.len(),
            pi <= k,
            ti <= k,
            n_mut <= k,
            n_del <= k,
            al_buf@.len() <= k,
            walk_upto(cigar@, k as int, pattern@, reference@) is Some,
            ({
                let st = walk_upto(cigar@, k as int, pattern@, reference@).unwrap();
                &&& st.al == al_buf@
                &&& st.pi == pi
                &&& st.ti == ti
                &&& st.n_mut == n_mut
                &&& st.n_del == n_del
                &&& st.mb_del == mb_del
                &&& dels_match(dels@, st.dels)
                &&& match open {
                    Some(x) => st.open == Some(x as nat) && x <= al_buf@.len(),
                    None => st.open is None,
                }
            }),
        decreases cigar.len() - k,
    {
        let op = cigar[k];
        if op == OP_M || op == OP_X {
            if pi < pattern.len() && ti < reference.len() {
                let p = pattern[pi];
                if let Some(x) = open {
                    dels.push((x, al_buf.len()));
                    open = None;
                }
                if reference[ti] != p {
                    n_mut = n_mut + 1;
                }
                al_buf.push(upper(p));
                pi = pi + 1;
                ti = ti + 1;
            } else {
                proof {
                    lemma_walk_none_stays(cigar@, k + 1, cigar@.len() as int, pattern@, reference@);
                }
                return Err(PairError::BadCigar);
            }
        } else if op == OP_I {
            ti = ti + 1;
            al_buf.push(32u8);
            if open.is_some() {
                mb_del = true;
            } else {
                open = Some(al_buf.len());
                n_del = n_del + 1;
            }
        } else if op == OP_D {
            pi = pi + 1;
            let n = al_buf.len();
            if n > 0 {
                let c = lower(al_buf[n - 1]);
                al_buf.set(n - 1, c);
            }
            if let Some(x) = open {
                dels.push((x, al_buf.len()));
                open = None;
            }
        } else {
            proof {
                lemma_walk_none_stays(cigar@, k + 1, cigar@.len() as int, pattern@, reference@);
            }
            return Err(PairError::BadCigar);
        }
        k = k + 1;
    }
    let n = al_buf.len();
    if n == 0 {
        return Err(PairError::BadCigar);
    }
    let c0 = upper(al_buf[0]);
    al_buf.set(0, c0);
    let c1 = upper(al_buf[n - 1]);
    al_buf.set(n - 1, c1);
    if let Some(x) = open {
        dels.push((x, al_buf.len()));
    }
    Ok(WalkSummary { n_mut, n_del, mb_del })
}

} // verus!
