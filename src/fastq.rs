use vstd::prelude::*;

verus! {

pub const NEWLINE: u8 = 10;

/// Index of the first newline of `s`, or `s.len()` when there is none.
pub open spec fn line_end(s: Seq<u8>) -> nat
    decreases s.len(),
{
    if s.len() == 0 {
        0
    } else if s[0] == NEWLINE {
        0
    } else {
        1 + line_end(s.drop_first())
    }
}

/// The first line of `s`, without its terminating newline.
pub open spec fn first_line(s: Seq<u8>) -> Seq<u8> {
    s.subrange(0, line_end(s) as int)
}

/// What is left of `s` once its first line and that line's newline are taken off.
pub open spec fn after_line(s: Seq<u8>) -> Seq<u8> {
    if line_end(s) < s.len() {
        s.subrange(line_end(s) as int + 1, s.len() as int)
    } else {
        Seq::empty()
    }
}

pub proof fn lemma_line_end(s: Seq<u8>)
    ensures
        line_end(s) <= s.len(),
        forall|i: int| 0 <= i < line_end(s) ==> s[i] != NEWLINE,
        line_end(s) < s.len() ==> s[line_end(s) as int] == NEWLINE,
    decreases s.len(),
{
    if s.len() > 0 && s[0] != NEWLINE {
        lemma_line_end(s.drop_first());
        assert forall|i: int| 0 <= i < line_end(s) implies s[i] != NEWLINE by {
            if i > 0 {
                assert(s[i] == s.drop_first()[i - 1]);
            }
        }
    }
}

/// A line iterator over a byte slice: lines end at `\n`, which is not part
/// of the line; a last line without a newline is still a line.
pub struct Lines<'a> {
    inner: &'a [u8],
}

impl<'a> Lines<'a> {
    pub closed spec fn rest(&self) -> Seq<u8> {
        self.inner@
    }

    pub fn make(s: &'a [u8]) -> (r: Self)
        ensures
            r.rest() == s@,
    {
        Self { inner: s }
    }

    pub fn inner(&self) -> (r: &'a [u8])
        ensures
            r@ == self.rest(),
    {
        self.inner
    }

    /// The next line, or `None` once the input is used up.
    pub fn next_line(&mut self) -> (r: Option<&'a [u8]>)
        ensures
            old(self).rest().len() == 0 ==> r.is_none() && final(self).rest() == old(self).rest(),
            old(self).rest().len() > 0 ==> r.is_some() && r.unwrap()@ == first_line(
                old(self).rest(),
            ) && final(self).rest() == after_line(old(self).rest()),
    {
        proof {
            lemma_line_end(self.inner@);
        }
        let s = self.inner;
        if s.len() == 0 {
            return None;
        }
        let mut i: usize = 0;
        while i < s.len() && s[i] != NEWLINE
            invariant
                i <= line_end(s@),
                line_end(s@) <= s@.len(),
                forall|j: int| 0 <= j < line_end(s@) ==> s@[j] != NEWLINE,
                line_end(s@) < s@.len() ==> s@[line_end(s@) as int] == NEWLINE,
            decreases s.len() - i,
        {
            i = i + 1;
        }
        let line = &s[0..i];
        if i < s.len() {
            self.inner = &s[i + 1..s.len()];
        } else {
            self.inner = &s[s.len()..s.len()];
        }
        Some(line)
    }
}


/// Why a FASTQ record could not be read.
#[derive(Debug, Clone, Copy, PartialEq, Eq, Structural)]
pub enum FastqError {
    /// The four lines are there, but the header or separator line is wrong,
    /// the sequence is empty, or sequence and quality differ in length.
    Invalid,
    /// The input ended before the record's fourth line.
    Incomplete,
}

/// One FASTQ record borrowed from the input: identifier (without the
/// leading `@`), sequence and quality, without their newlines.
#[derive(Clone, Copy)]
pub struct FastQRecord<'a> {
    id: &'a [u8],
    seq: &'a [u8],
    qual: &'a [u8],
}

impl<'a> FastQRecord<'a> {
    pub closed spec fn id_view(&self) -> Seq<u8> {
        self.id@
    }

    pub closed spec fn seq_view(&self) -> Seq<u8> {
        self.seq@
    }

    pub closed spec fn qual_view(&self) -> Seq<u8> {
        self.qual@
    }

    /// Sequence and quality have one entry per base, and there is at least one base.
    pub open spec fn wf(&self) -> bool {
        &&& self.seq_view().len() == self.qual_view().len()
        &&& self.seq_view().len() > 0
    }

    pub fn id(&self) -> (r: &[u8])
        ensures
            r@ == self.id_view(),
    {
        self.id
    }

    pub fn qual(&self) -> (r: &[u8])
        ensures
            r@ == self.qual_view(),
    {
        self.qual
    }

    pub fn seq(&self) -> (r: &[u8])
        ensures
            r@ == self.seq_view(),
    {
        self.seq
    }

    pub(crate) fn make(id: &'a [u8], seq: &'a [u8], qual: &'a [u8]) -> (r: Self)
        ensures
            r.id_view() == id@,
            r.seq_view() == seq@,
            r.qual_view() == qual@,
    {
        Self { id, seq, qual }
    }
}

/// The four lines of a record, and the input that follows them.
pub ghost struct RecordLines {
    pub header: Seq<u8>,
    pub seq: Seq<u8>,
    pub sep: Seq<u8>,
    pub qual: Seq<u8>,
    pub rest: Seq<u8>,
}

/// The four lines that start `s`, and what follows them; `None` when the
/// input ends before the fourth line.
pub open spec fn four_lines(s: Seq<u8>) -> Option<RecordLines> {
    let r1 = after_line(s);
    let r2 = after_line(r1);
    let r3 = after_line(r2);
    if s.len() == 0 || r1.len() == 0 || r2.len() == 0 || r3.len() == 0 {
        None
    } else {
        Some(
            RecordLines {
                header: first_line(s),
                seq: first_line(r1),
                sep: first_line(r2),
                qual: first_line(r3),
                rest: after_line(r3),
            },
        )
    }
}

/// Whether header, sequence, separator and quality lines form a valid record.
pub open spec fn valid_record_lines(l: RecordLines) -> bool {
    &&& l.header.len() > 0 && l.header[0] == '@' as u8
    &&& l.sep.len() > 0 && l.sep[0] == '+' as u8
    &&& l.seq.len() > 0
    &&& l.seq.len() == l.qual.len()
}

/// The bytes a record's four lines take up: each line with its newline,
/// the last newline being absent only at the very end of the input.
pub open spec fn record_bytes(l: RecordLines, last_newline: bool) -> Seq<u8> {
    l.header + seq![NEWLINE] + l.seq + seq![NEWLINE] + l.sep + seq![NEWLINE] + l.qual + if last_newline {
        seq![NEWLINE]
    } else {
        Seq::empty()
    }
}

proof fn lemma_line_parts(s: Seq<u8>)
    ensures
        line_end(s) < s.len() ==> s == first_line(s) + seq![NEWLINE] + after_line(s),
        line_end(s) >= s.len() ==> s == first_line(s) && after_line(s).len() == 0,
{
    lemma_line_end(s);
    if line_end(s) < s.len() {
        assert(s =~= first_line(s) + seq![NEWLINE] + after_line(s));
    } else {
        assert(s =~= first_line(s));
    }
}

/// A record takes up exactly its four lines: the input is the record's
/// bytes followed by what is left, so no byte is skipped or read twice.
pub proof fn lemma_four_lines_bytes(s: Seq<u8>)
    requires
        four_lines(s) is Some,
    ensures
        ({
            let l = four_lines(s).unwrap();
            s == record_bytes(l, true) + l.rest || (l.rest.len() == 0 && s == record_bytes(
                l,
                false,
            ))
        }),
{
    let r1 = after_line(s);
    let r2 = after_line(r1);
    let r3 = after_line(r2);
    lemma_line_parts(s);
    lemma_line_parts(r1);
    lemma_line_parts(r2);
    lemma_line_parts(r3);
    let l = four_lines(s).unwrap();
    if line_end(r3) < r3.len() {
        assert(s =~= record_bytes(l, true) + l.rest);
    } else {
        assert(s =~= record_bytes(l, false));
    }
}

/// Lazy reader of the FASTQ records held in a byte slice, four lines each.
pub struct FastQIter<'a> {
    inner: &'a [u8],
}

impl<'a> FastQIter<'a> {
    /// The bytes not consumed yet.
    pub closed spec fn rest(&self) -> Seq<u8> {
        self.inner@
    }

    pub fn make(s: &'a [u8]) -> (r: Self)
        ensures
            r.rest() == s@,
    {
        Self { inner: s }
    }

    /// The next record: `None` at the end of the input; an error when fewer
    /// than four lines are left or they do not form a valid record, after
    /// which the input is used up and the next call gives `None`; otherwise
    /// the record, and the input moves past exactly its four lines.
    pub fn next_record(&mut self) -> (r: Option<Result<FastQRecord<'a>, FastqError>>)
        ensures
            old(self).rest().len() == 0 <==> r.is_none(),
            r.is_none() ==> final(self).rest() == old(self).rest(),
            r == Some(Err::<FastQRecord<'a>, FastqError>(FastqError::Incomplete)) <==> (old(self).rest().len() > 0 && four_lines(old(self).rest()).is_none()),
            r == Some(Err::<FastQRecord<'a>, FastqError>(FastqError::Invalid)) <==> ({
                let f = four_lines(old(self).rest());
                f.is_some() && !valid_record_lines(f.unwrap())
            }),
            (r matches Some(Err(_))) ==> final(self).rest().len() == 0,
            (r matches Some(Ok(_))) ==> ({
                let f = four_lines(old(self).rest());
                let rec = r->0->Ok_0;
                &&& f.is_some()
                &&& valid_record_lines(f.unwrap())
                &&& rec.id_view() == f.unwrap().header.drop_first()
                &&& rec.seq_view() == f.unwrap().seq
                &&& rec.qual_view() == f.unwrap().qual
                &&& rec.wf()
                &&& final(self).rest() == f.unwrap().rest
                &&& f.unwrap().header == seq!['@' as u8] + rec.id_view()
                &&& (old(self).rest() == record_bytes(f.unwrap(), true) + final(self).rest() || (final(self).rest().len() == 0 && old(self).rest() == record_bytes(f.unwrap(), false)))
            }),
    {
        if self.inner.len() == 0 {
            return None;
        }
        let mut itr = Lines::make(self.inner);
        let raw_id = itr.next_line();
        let seq = itr.next_line();
        let id2 = itr.next_line();
        let qual = itr.next_line();
        match (raw_id, seq, id2, qual) {
            (Some(raw_id), Some(seq), Some(id2), Some(qual)) => {
                if raw_id.len() == 0 || raw_id[0] != '@' as u8 || id2.len() == 0 || id2[0]
                    != '+' as u8 || seq.len() == 0 || seq.len() != qual.len() {
                    self.inner = &self.inner[self.inner.len()..self.inner.len()];
                    Some(Err(FastqError::Invalid))
                } else {
                    let id = &raw_id[1..raw_id.len()];
                    proof {
                        lemma_four_lines_bytes(self.inner@);
                        assert(raw_id@ =~= seq!['@' as u8] + id@);
                    }
                    self.inner = itr.inner();
                    Some(Ok(FastQRecord::make(id, seq, qual)))
                }
            },
            _ => {
                self.inner = &self.inner[self.inner.len()..self.inner.len()];
                Some(Err(FastqError::Incomplete))
            },
        }
    }
}

} // verus!
