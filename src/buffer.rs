use vstd::prelude::*;
use crate::fastq::{FastQIter, NEWLINE, after_line, first_line, four_lines, line_end, lemma_line_end};

verus! {

#[verifier::external_type_specification]
#[verifier::external_body]
pub struct ExIoError(std::io::Error);

/// Bytes held for each mate.
pub const BUF_SIZE: usize = 1048576;

/// Number of newlines in `s`.
pub open spec fn count_nl(s: Seq<u8>) -> nat
    decreases s.len(),
{
    if s.len() == 0 {
        0
    } else {
        count_nl(s.drop_first()) + if s[0] == NEWLINE {
            1nat
        } else {
            0nat
        }
    }
}

/// `k` is where the first `t` lines of `s` end: the position just after
/// its `t`-th newline (the start, for `t == 0`).
pub open spec fn is_cut(s: Seq<u8>, k: nat, t: nat) -> bool {
    &&& k <= s.len()
    &&& count_nl(s.subrange(0, k as int)) == t
    &&& (t == 0 ==> k == 0)
    &&& (t > 0 ==> s[k - 1] == NEWLINE)
}

pub proof fn lemma_count_nl_append(a: Seq<u8>, b: Seq<u8>)
    ensures
        count_nl(a + b) == count_nl(a) + count_nl(b),
    decreases a.len(),
{
    if a.len() > 0 {
        lemma_count_nl_append(a.drop_first(), b);
        assert((a + b).drop_first() == a.drop_first() + b);
    } else {
        assert(a + b == b);
    }
}

proof fn lemma_count_nl_step(s: Seq<u8>, i: int)
    requires
        0 <= i < s.len(),
    ensures
        count_nl(s.subrange(0, i + 1)) == count_nl(s.subrange(0, i)) + if s[i] == NEWLINE {
            1nat
        } else {
            0nat
        },
{
    let a = s.subrange(0, i);
    let b = seq![s[i]];
    lemma_count_nl_append(a, b);
    assert(s.subrange(0, i + 1) == a + b);
    assert(count_nl(b) == count_nl(b.drop_first()) + if s[i] == NEWLINE {
        1nat
    } else {
        0nat
    });
}

proof fn lemma_count_nl_prefix_bound(s: Seq<u8>, i: int)
    requires
        0 <= i <= s.len(),
    ensures
        count_nl(s.subrange(0, i)) <= count_nl(s),
        i < s.len() ==> count_nl(s.subrange(0, i)) + count_nl(s.subrange(i, s.len() as int))
            == count_nl(s),
{
    lemma_count_nl_append(s.subrange(0, i), s.subrange(i, s.len() as int));
    assert(s.subrange(0, i) + s.subrange(i, s.len() as int) == s);
}

fn count_newlines(s: &[u8]) -> (r: usize)
    ensures
        r == count_nl(s@),
{
    let mut c: usize = 0;
    let mut i: usize = 0;
    while i < s.len()
        invariant
            i <= s@.len(),
            c == count_nl(s@.subrange(0, i as int)),
            c <= i,
        decreases s.len() - i,
    {
        proof {
            lemma_count_nl_step(s@, i as int);
        }
        if s[i] == NEWLINE {
            c = c + 1;
        }
        i = i + 1;
    }
    assert(s@.subrange(0, s@.len() as int) == s@);
    c
}

/// Position just after the `t`-th newline of `s` (the start for `t == 0`).
fn cut_at(s: &[u8], t: usize) -> (r: usize)
    requires
        t <= count_nl(s@),
    ensures
        is_cut(s@, r as nat, t as nat),
{
    if t == 0 {
        assert(s@.subrange(0, 0) == Seq::<u8>::empty());
        return 0;
    }
    let mut c: usize = 0;
    let mut i: usize = 0;
    while c < t
        invariant
            0 < t <= count_nl(s@),
            i <= s@.len(),
            c == count_nl(s@.subrange(0, i as int)),
            c <= t,
            c == t ==> i > 0 && s@[i - 1] == NEWLINE,
        decreases s.len() - i,
    {
        proof {
            if i == s@.len() {
                assert(s@.subrange(0, i as int) == s@);
            }
            lemma_count_nl_step(s@, i as int);
        }
        if s[i] == NEWLINE {
            c = c + 1;
        }
        i = i + 1;
    }
    i
}

/// What is left of `s` after `m` four-line records are taken off its
/// front, or `None` when it runs out of lines first.
pub open spec fn frames(s: Seq<u8>, m: nat) -> Option<Seq<u8>>
    decreases m,
{
    if m == 0 {
        Some(s)
    } else {
        match four_lines(s) {
            None => None,
            Some(l) => frames(l.rest, (m - 1) as nat),
        }
    }
}

proof fn lemma_no_newline_count(s: Seq<u8>)
    requires
        forall|i: int| 0 <= i < s.len() ==> s[i] != NEWLINE,
    ensures
        count_nl(s) == 0,
    decreases s.len(),
{
    if s.len() > 0 {
        assert forall|i: int| 0 <= i < s.drop_first().len() implies s.drop_first()[i] != NEWLINE by {
            assert(s.drop_first()[i] == s[i + 1]);
        }
        lemma_no_newline_count(s.drop_first());
    }
}

/// A line and its newline are taken off exactly once: `s` is its first
/// line, the newline, and what follows.
pub proof fn lemma_line_split(s: Seq<u8>)
    requires
        count_nl(s) > 0,
    ensures
        line_end(s) < s.len(),
        s == first_line(s) + seq![NEWLINE] + after_line(s),
        count_nl(after_line(s)) + 1 == count_nl(s),
        after_line(s).len() > 0 ==> after_line(s).last() == s.last(),
{
    lemma_line_end(s);
    let e = line_end(s) as int;
    if e == s.len() {
        lemma_no_newline_count(s);
    }
    let a = s.subrange(0, e);
    let b = s.subrange(e, s.len() as int);
    assert(s == a + b);
    lemma_count_nl_append(a, b);
    lemma_no_newline_count(a);
    assert(b.drop_first() == after_line(s));
    assert(s =~= first_line(s) + seq![NEWLINE] + after_line(s));
}

/// Framing is complete: a side cut after `4 * m` newlines, ending at a
/// newline, is exactly `m` four-line records, each byte in exactly one of
/// them, with nothing left over.
pub proof fn lemma_framing_complete(s: Seq<u8>, m: nat)
    requires
        count_nl(s) == 4 * m,
        s.len() == 0 || s.last() == NEWLINE,
    ensures
        frames(s, m) == Some(Seq::<u8>::empty()),
    decreases m,
{
    if m == 0 {
        if s.len() > 0 {
            lemma_count_nl_append(s.drop_last(), seq![s.last()]);
            assert(s == s.drop_last() + seq![s.last()]);
            assert(count_nl(seq![s.last()]) == count_nl(seq![s.last()].drop_first()) + 1);
        }
        assert(s =~= Seq::<u8>::empty());
    } else {
        let r1 = after_line(s);
        lemma_line_split(s);
        let r2 = after_line(r1);
        lemma_line_split(r1);
        let r3 = after_line(r2);
        lemma_line_split(r2);
        lemma_line_split(r3);
        let rest = after_line(r3);
        assert(four_lines(s).is_some());
        assert(four_lines(s).unwrap().rest == rest);
        lemma_framing_complete(rest, (m - 1) as nat);
    }
}

pub open spec fn min_nl(a: nat, b: nat) -> nat {
    if a <= b { a } else { b }
}

/// Where to cut the two sides of a filled buffer: after the same number of
/// complete four-line records on each, the greatest multiple of four not
/// above either side's newline count. `None`, the buffer being too small,
/// exactly when no complete record fits on some side while the input has
/// not ended (`eof` is whether both inputs ended before the sides filled).
pub fn record_cut(s0: &[u8], s1: &[u8], eof: bool) -> (r: Option<(usize, usize)>)
    ensures
        r is None <==> (min_nl(count_nl(s0@), count_nl(s1@)) / 4 == 0 && !eof),
        r is Some ==> is_cut(
            s0@,
            r.unwrap().0 as nat,
            4 * (min_nl(count_nl(s0@), count_nl(s1@)) / 4),
        ) && is_cut(s1@, r.unwrap().1 as nat, 4 * (min_nl(count_nl(s0@), count_nl(s1@)) / 4)),
{
    let c0 = count_newlines(s0);
    let c1 = count_newlines(s1);
    let m = (if c0 <= c1 { c0 } else { c1 }) / 4;
    if m == 0 && !eof {
        return None;
    }
    Some((cut_at(s0, 4 * m), cut_at(s1, 4 * m)))
}

/// Why a buffer could not be filled.
#[derive(Debug)]
pub enum BufferError {
    /// Reading from an input failed.
    Read(std::io::Error),
    /// The buffer is full, and one of its sides does not hold a complete
    /// four-line record.
    TooSmall,
}

/// Relies on std::io::Read::read: on success, how many bytes were placed at
/// the start of the slice handed over, at most its length; bytes outside
/// that slice are not touched.
#[verifier::external_body]
fn read_into<R: std::io::Read>(rdr: &mut R, buf: &mut Vec<u8>, start: usize) -> (r: Result<
    usize,
    std::io::Error,
>)
    requires
        start <= old(buf)@.len(),
    ensures
        final(buf)@.len() == old(buf)@.len(),
        final(buf)@.subrange(0, start as int) == old(buf)@.subrange(0, start as int),
        r is Ok ==> r.unwrap() <= old(buf)@.len() - start,
{
    rdr.read(&mut buf[start..])
}

/// A pair of fixed-size byte buffers, one per mate, each with the length of
/// its used prefix.
pub struct Buffer {
    inner0: Vec<u8>,
    inner1: Vec<u8>,
    used: [usize; 2],
    ix: usize,
}

impl Buffer {
    /// The used prefix of side `i` (0 or 1).
    pub closed spec fn data(&self, i: int) -> Seq<u8> {
        if i == 0 {
            self.inner0@.subrange(0, self.used[0] as int)
        } else {
            self.inner1@.subrange(0, self.used[1] as int)
        }
    }

    closed spec fn side_bytes(&self, i: int) -> Seq<u8> {
        if i == 0 {
            self.inner0@
        } else {
            self.inner1@
        }
    }

    pub closed spec fn spec_ix(&self) -> usize {
        self.ix
    }

    pub closed spec fn wf(&self) -> bool {
        &&& self.inner0@.len() == BUF_SIZE
        &&& self.inner1@.len() == BUF_SIZE
        &&& self.used[0] <= BUF_SIZE
        &&& self.used[1] <= BUF_SIZE
    }

    /// An empty buffer with identifier `ix`.
    pub fn new(ix: usize) -> (r: Self)
        ensures
            r.wf(),
            r.spec_ix() == ix,
            r.data(0).len() == 0,
            r.data(1).len() == 0,
    {
        let inner0 = vec![0u8; BUF_SIZE];
        let inner1 = vec![0u8; BUF_SIZE];
        Buffer { inner0, inner1, used: [0usize; 2], ix }
    }

    pub fn ix(&self) -> (r: usize)
        ensures
            r == self.spec_ix(),
    {
        self.ix
    }

    /// Lengths of the used prefixes.
    pub fn used(&self) -> (r: &[usize])
        requires
            self.wf(),
        ensures
            r@.len() == 2,
            r@[0] == self.data(0).len(),
            r@[1] == self.data(1).len(),
    {
        self.used.as_slice()
    }

    /// The used prefixes of both sides.
    pub fn as_slices(&self) -> (r: (&[u8], &[u8]))
        requires
            self.wf(),
        ensures
            r.0@ == self.data(0),
            r.1@ == self.data(1),
    {
        (
            &self.inner0.as_slice()[0..self.used[0]],
            &self.inner1.as_slice()[0..self.used[1]],
        )
    }

    /// Record readers over the used prefixes of both sides.
    pub fn fastq(&self) -> (r: (FastQIter<'_>, FastQIter<'_>))
        requires
            self.wf(),
        ensures
            r.0.rest() == self.data(0),
            r.1.rest() == self.data(1),
    {
        let (s1, s2) = self.as_slices();
        (FastQIter::make(s1), FastQIter::make(s2))
    }

    /// Reads into side `side` until it is full or the input ends; returns
    /// whether the input ended before the side filled up.
    fn fill_single_buf<R: std::io::Read>(&mut self, rdr: &mut R, side: usize) -> (r: Result<
        bool,
        BufferError,
    >)
        requires
            old(self).wf(),
            side < 2,
        ensures
            final(self).wf(),
            final(self).spec_ix() == old(self).spec_ix(),
            final(self).data(1 - side) == old(self).data(1 - side),
            old(self).data(side as int).len() <= final(self).data(side as int).len(),
            final(self).data(side as int).subrange(0, old(self).data(side as int).len() as int)
                == old(self).data(side as int),
            r is Ok ==> r.unwrap() == (final(self).data(side as int).len() < BUF_SIZE),
            !(r matches Err(BufferError::TooSmall)),
    {
        let ghost d0 = self.data(side as int);
        let ghost other = self.data(1 - side);
        loop
            invariant
                self.wf(),
                side < 2,
                self.spec_ix() == old(self).spec_ix(),
                self.data(1 - side) == other,
                other == old(self).data(1 - side),
                d0 == old(self).data(side as int),
                d0.len() <= self.data(side as int).len(),
                self.data(side as int).subrange(0, d0.len() as int) == d0,
            decreases BUF_SIZE - self.used[side as int],
        {
            let u = self.used[side];
            let ghost before = self.data(side as int);
            let res = self.read_side(rdr, side);
            match res {
                Err(e) => {
                    return Err(BufferError::Read(e));
                },
                Ok(l) => {
                    self.used.set(side, u + l);
                    assert(self.data(side as int).subrange(0, u as int) == before);
                    assert(self.data(side as int).subrange(0, d0.len() as int) == before.subrange(
                        0,
                        d0.len() as int,
                    ));
                    if u + l == BUF_SIZE || l == 0 {
                        break ;
                    }
                },
            }
        }
        Ok(self.used[side] < BUF_SIZE)
    }

    fn read_side<R: std::io::Read>(&mut self, rdr: &mut R, side: usize) -> (r: Result<
        usize,
        std::io::Error,
    >)
        requires
            old(self).wf(),
            side < 2,
        ensures
            final(self).wf(),
            final(self).used == old(self).used,
            final(self).spec_ix() == old(self).spec_ix(),
            final(self).data(1 - side) == old(self).data(1 - side),
            final(self).data(side as int) == old(self).data(side as int),
            final(self).side_bytes(side as int).subrange(0, old(self).used[side as int] as int)
                == old(self).data(side as int),
            r is Ok ==> r.unwrap() <= BUF_SIZE - old(self).used[side as int],
    {
        let u = self.used[side];
        if side == 0 {
            read_into(rdr, &mut self.inner0, u)
        } else {
            read_into(rdr, &mut self.inner1, u)
        }
    }

    /// Keeps the first `k` used bytes of side `side` and moves the rest to
    /// the start of the same side of `rem`, which then holds just them.
    fn set_used_and_rem(&mut self, k: usize, side: usize, rem: &mut Buffer)
        requires
            old(self).wf(),
            old(rem).wf(),
            side < 2,
            k <= old(self).data(side as int).len(),
        ensures
            final(self).wf(),
            final(rem).wf(),
            final(self).spec_ix() == old(self).spec_ix(),
            final(rem).spec_ix() == old(rem).spec_ix(),
            final(self).data(side as int) == old(self).data(side as int).subrange(0, k as int),
            final(rem).data(side as int) == old(self).data(side as int).subrange(
                k as int,
                old(self).data(side as int).len() as int,
            ),
            final(self).data(1 - side) == old(self).data(1 - side),
            final(rem).data(1 - side) == old(rem).data(1 - side),
    {
        let u = self.used[side];
        let l = u - k;
        let ghost d = self.data(side as int);
        let mut j: usize = 0;
        while j < l
            invariant
                side < 2,
                j <= l,
                l == u - k,
                k <= u,
                u <= BUF_SIZE,
                u == self.used[side as int],
                self == old(self),
                self.wf(),
                d == old(self).data(side as int),
                rem.wf(),
                rem.spec_ix() == old(rem).spec_ix(),
                rem.used == old(rem).used,
                rem.data(1 - side) == old(rem).data(1 - side),
                forall|q: int|
                    0 <= q < j ==> #[trigger] rem.side_bytes(side as int)[q] == d[k + q],
            decreases l - j,
        {
            let ghost before = rem.side_bytes(side as int);
            let b = if side == 0 {
                self.inner0[k + j]
            } else {
                self.inner1[k + j]
            };
            assert(b == d[k + j]);
            if side == 0 {
                rem.inner0.set(j, b);
            } else {
                rem.inner1.set(j, b);
            }
            assert(rem.side_bytes(side as int) == before.update(j as int, b));
            j = j + 1;
        }
        let ghost sb = rem.side_bytes(side as int);
        assert(forall|q: int| 0 <= q < l ==> #[trigger] sb[q] == d[k + q]);
        rem.used.set(side, l);
        self.used.set(side, k);
        assert(rem.side_bytes(side as int) == sb);
        assert(rem.used[side as int] == l);
        assert(rem.data(side as int) == rem.side_bytes(side as int).subrange(0, l as int));
        assert(rem.data(side as int) =~= d.subrange(k as int, u as int));
        assert(self.data(side as int) =~= d.subrange(0, k as int));
    }

    /// Fills both sides from the two mates' inputs, then cuts both where
    /// `record_cut` says. What follows the cut on each side moves to `rem`.
    /// Returns whether both inputs ended before their sides filled up. Once
    /// both reads succeed, it fails with `TooSmall` exactly when
    /// `record_cut` finds no cut.
    pub fn fill<R: std::io::Read>(&mut self, rdr0: &mut R, rdr1: &mut R, rem: &mut Buffer) -> (r:
        Result<bool, BufferError>)
        requires
            old(self).wf(),
            old(rem).wf(),
        ensures
            final(self).wf(),
            final(rem).wf(),
            final(self).spec_ix() == old(self).spec_ix(),
            final(rem).spec_ix() == old(rem).spec_ix(),
            (r matches Err(BufferError::TooSmall)) ==> ({
                let f0 = final(self).data(0);
                let f1 = final(self).data(1);
                &&& (count_nl(f0) < 4 || count_nl(f1) < 4)
                &&& !(f0.len() < BUF_SIZE && f1.len() < BUF_SIZE)
                &&& *final(rem) == *old(rem)
            }),
            r is Ok ==> ({
                let f0 = final(self).data(0) + final(rem).data(0);
                let f1 = final(self).data(1) + final(rem).data(1);
                let m = min_nl(count_nl(f0), count_nl(f1)) / 4;
                &&& f0.subrange(0, old(self).data(0).len() as int) == old(self).data(0)
                &&& f1.subrange(0, old(self).data(1).len() as int) == old(self).data(1)
                &&& old(self).data(0).len() <= f0.len() <= BUF_SIZE
                &&& old(self).data(1).len() <= f1.len() <= BUF_SIZE
                &&& is_cut(f0, final(self).data(0).len(), 4 * m)
                &&& is_cut(f1, final(self).data(1).len(), 4 * m)
                &&& frames(final(self).data(0), m) == Some(Seq::<u8>::empty())
                &&& frames(final(self).data(1), m) == Some(Seq::<u8>::empty())
                &&& (m >= 1 || (f0.len() < BUF_SIZE && f1.len() < BUF_SIZE))
                &&& r.unwrap() == (f0.len() < BUF_SIZE && f1.len() < BUF_SIZE)
            }),
    {
        let eof0 = match self.fill_single_buf(rdr0, 0) {
            Ok(b) => b,
            Err(e) => return Err(e),
        };
        let eof1 = match self.fill_single_buf(rdr1, 1) {
            Ok(b) => b,
            Err(e) => return Err(e),
        };
        let ghost g0 = self.data(0);
        let ghost g1 = self.data(1);
        let (k0, k1) = {
            let (s0, s1) = self.as_slices();
            match record_cut(s0, s1, eof0 && eof1) {
                Some(k) => k,
                None => return Err(BufferError::TooSmall),
            }
        };
        self.set_used_and_rem(k0, 0, rem);
        self.set_used_and_rem(k1, 1, rem);
        assert(self.data(0) + rem.data(0) == g0);
        assert(self.data(1) + rem.data(1) == g1);
        proof {
            let m = min_nl(count_nl(g0), count_nl(g1)) / 4;
            assert(self.data(0) == g0.subrange(0, k0 as int));
            assert(self.data(1) == g1.subrange(0, k1 as int));
            lemma_framing_complete(self.data(0), m);
            lemma_framing_complete(self.data(1), m);
        }
        Ok(eof0 && eof1)
    }

    /// Marks both sides unused.
    pub fn clear(&mut self)
        requires
            old(self).wf(),
        ensures
            final(self).wf(),
            final(self).spec_ix() == old(self).spec_ix(),
            final(self).data(0).len() == 0,
            final(self).data(1).len() == 0,
    {
        self.used.set(0, 0);
        self.used.set(1, 0);
    }

    pub fn is_empty(&self) -> (r: bool)
        requires
            self.wf(),
        ensures
            r == (self.data(0).len() == 0 && self.data(1).len() == 0),
    {
        self.used[0] + self.used[1] == 0
    }
}

} // verus!
