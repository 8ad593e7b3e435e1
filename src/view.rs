use vstd::prelude::*;

verus! {

/// Records held by one view block.
pub const VIEW_N_REC: usize = 1024;

/// `al` fitted to `width` bytes: cut when longer, padded with spaces when shorter.
pub open spec fn fit_record(al: Seq<u8>, width: nat) -> Seq<u8> {
    Seq::new(width, |q: int| if q < al.len() { al[q] } else { 32u8 })
}

/// Relies on String::from_utf8_lossy: bytes that are valid UTF-8 are kept
/// as they are, so ASCII bytes become the same characters.
#[verifier::external_body]
fn lossy_string(b: &[u8]) -> (r: String)
    ensures
        (forall|q: int| 0 <= q < b@.len() ==> #[trigger] b@[q] < 128) ==> (r@.len() == b@.len()
            && forall|q: int| 0 <= q < b@.len() ==> #[trigger] r@[q] == b@[q] as char),
{
    String::from_utf8_lossy(b).into_owned()
}

/// One fixed-width record of a view block.
pub struct ViewRec<'a> {
    inner: &'a [u8],
}

impl<'a> ViewRec<'a> {
    pub closed spec fn bytes(&self) -> Seq<u8> {
        self.inner@
    }

    pub fn from_ptr(s: &'a [u8]) -> (r: ViewRec<'a>)
        ensures
            r.bytes() == s@,
    {
        ViewRec { inner: s }
    }

    pub fn to_bytes(&self) -> (r: &'a [u8])
        ensures
            r@ == self.bytes(),
    {
        self.inner
    }

    /// The record as text; ASCII records are kept character for character.
    pub fn to_string_lossy(&self) -> (r: String)
        ensures
            (forall|q: int| 0 <= q < self.bytes().len() ==> #[trigger] self.bytes()[q] < 128) ==> (
            r@.len() == self.bytes().len() && forall|q: int|
                0 <= q < self.bytes().len() ==> #[trigger] r@[q] == self.bytes()[q] as char),
    {
        lossy_string(self.inner)
    }
}

/// A block of `VIEW_N_REC` fixed-width aligned-read records, filled in turn.
pub struct ViewBuf {
    inner: Vec<u8>,
    rec_len: usize,
    n_rec: usize,
}

impl ViewBuf {
    pub closed spec fn width(&self) -> nat {
        self.rec_len as nat
    }

    /// The records filled so far.
    pub closed spec fn records(&self) -> Seq<Seq<u8>> {
        Seq::new(
            self.n_rec as nat,
            |i: int| self.inner@.subrange(i * self.rec_len, (i + 1) * self.rec_len),
        )
    }

    pub closed spec fn wf(&self) -> bool {
        &&& self.rec_len > 0
        &&& self.inner@.len() == VIEW_N_REC * self.rec_len
        &&& self.n_rec <= VIEW_N_REC
    }

    /// An empty block for records of `rec_len` bytes.
    pub fn new(rec_len: usize) -> (r: Self)
        requires
            rec_len > 0,
            VIEW_N_REC * rec_len <= usize::MAX,
        ensures
            r.wf(),
            r.width() == rec_len,
            r.records().len() == 0,
    {
        let l = VIEW_N_REC * rec_len;
        let inner = vec![0u8; l];
        ViewBuf { inner, rec_len, n_rec: 0 }
    }

    /// Whether every record has been filled.
    pub fn is_full(&self) -> (r: bool)
        requires
            self.wf(),
        ensures
            r == (self.records().len() == VIEW_N_REC),
    {
        self.n_rec >= VIEW_N_REC
    }

    /// Fills the next record with `al`, cut or padded with spaces to the
    /// record width; returns false, changing nothing, when the block is full.
    pub fn push_record(&mut self, al: &[u8]) -> (r: bool)
        requires
            old(self).wf(),
        ensures
            final(self).wf(),
            final(self).width() == old(self).width(),
            r == (old(self).records().len() < VIEW_N_REC),
            r ==> final(self).records() == old(self).records().push(
                fit_record(al@, old(self).width()),
            ),
            !r ==> final(self).records() == old(self).records(),
    {
        if self.n_rec >= VIEW_N_REC {
            return false;
        }
        let l = self.rec_len;
        let i = self.n_rec;
        let total = self.inner.len();
        proof {
            assert((i + 1) * l <= VIEW_N_REC * l) by (nonlinear_arith)
                requires
                    i < VIEW_N_REC,
            ;
            assert((i + 1) * l == i * l + l) by (nonlinear_arith);
        }
        let start = i * l;
        let ghost v0 = self.inner@;
        let mut q: usize = 0;
        while q < l
            invariant
                q <= l,
                l == self.rec_len,
                i == self.n_rec,
                i < VIEW_N_REC,
                start == i * l,
                start + l <= self.inner@.len(),
                total == self.inner@.len(),
                self.inner@.len() == v0.len(),
                self.wf(),
                forall|t: int|
                    0 <= t < v0.len() && !(start <= t < start + q) ==> #[trigger] self.inner@[t]
                        == v0[t],
                forall|t: int|
                    0 <= t < q ==> #[trigger] self.inner@[start + t] == fit_record(al@, l as nat)[t],
            decreases l - q,
        {
            let b = if q < al.len() {
                al[q]
            } else {
                32u8
            };
            self.inner.set(start + q, b);
            q = q + 1;
        }
        self.n_rec = i + 1;
        proof {
            let newr = self.records();
            let oldr = old(self).records();
            let want = oldr.push(fit_record(al@, l as nat));
            assert forall|k: int| 0 <= k < newr.len() implies #[trigger] newr[k] == want[k] by {
                if k < i {
                    assert((k + 1) * l <= i * l) by (nonlinear_arith)
                        requires
                            k + 1 <= i,
                    ;
                    assert(k * l + l == (k + 1) * l) by (nonlinear_arith);
                    assert(newr[k] =~= oldr[k]);
                } else {
                    assert((i + 1) * l == i * l + l) by (nonlinear_arith);
                    assert(newr[k] == self.inner@.subrange(start as int, start + l));
                    assert(forall|t: int| 0 <= t < l ==> #[trigger] self.inner@[start + t] == fit_record(al@, l as nat)[t]);
                    let sub = self.inner@.subrange(start as int, start + l);
                    assert forall|t: int| 0 <= t < l implies #[trigger] sub[t] == fit_record(
                        al@,
                        l as nat,
                    )[t] by {
                        assert(sub[t] == self.inner@[start + t]);
                    }
                    assert(sub =~= fit_record(al@, l as nat));
                }
            }
            assert(newr =~= want);
        }
        true
    }

    /// The filled records, in the order they were filled.
    pub fn recs(&self) -> (r: Vec<ViewRec<'_>>)
        requires
            self.wf(),
        ensures
            r@.len() == self.records().len(),
            forall|k: int| 0 <= k < r@.len() ==> #[trigger] r@[k].bytes() == self.records()[k],
    {
        let l = self.rec_len;
        let total = self.inner.len();
        let mut r: Vec<ViewRec<'_>> = Vec::new();
        let mut k: usize = 0;
        while k < self.n_rec
            invariant
                self.wf(),
                l == self.rec_len,
                total == self.inner@.len(),
                k <= self.n_rec,
                r@.len() == k,
                forall|t: int| 0 <= t < k ==> #[trigger] r@[t].bytes() == self.records()[t],
            decreases self.n_rec - k,
        {
            proof {
                assert((k + 1) * l <= VIEW_N_REC * l) by (nonlinear_arith)
                    requires
                        k < VIEW_N_REC,
                ;
                assert((k + 1) * l == k * l + l) by (nonlinear_arith);
            }
            let s = &self.inner.as_slice()[k * l..(k + 1) * l];
            r.push(ViewRec::from_ptr(s));
            k = k + 1;
        }
        r
    }
}

} // verus!
