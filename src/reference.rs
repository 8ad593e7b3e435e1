use vstd::prelude::*;
use crate::fastq::{Lines, NEWLINE, after_line, first_line};

verus! {

pub open spec fn is_space(c: u8) -> bool {
    c == 32 || c == 9 || c == 10 || c == 11 || c == 12 || c == 13
}

/// `s` without its trailing whitespace.
pub open spec fn trim_end(s: Seq<u8>) -> Seq<u8>
    decreases s.len(),
{
    if s.len() > 0 && is_space(s.last()) {
        trim_end(s.drop_last())
    } else {
        s
    }
}

pub open spec fn is_header(line: Seq<u8>) -> bool {
    line.len() > 0 && line[0] == '>' as u8
}

/// Bases of the first record of a FASTA text, from the lines of `s` on:
/// lines before the first header are skipped; after it (`seen`) base
/// lines, without trailing whitespace, are joined until the next header or
/// the end of the text.
pub open spec fn reference_from(s: Seq<u8>, seen: bool) -> Seq<u8>
    decreases s.len(),
{
    if s.len() == 0 {
        Seq::empty()
    } else {
        let line = first_line(s);
        let rest = after_line(s);
        if is_header(line) {
            if seen {
                Seq::empty()
            } else {
                reference_from(rest, true)
            }
        } else if seen {
            trim_end(line) + reference_from(rest, seen)
        } else {
            reference_from(rest, seen)
        }
    }
}

fn trimmed_len(s: &[u8]) -> (r: usize)
    ensures
        r <= s@.len(),
        s@.subrange(0, r as int) == trim_end(s@),
{
    let mut n = s.len();
    assert(s@.subrange(0, n as int) == s@);
    while n > 0 && (s[n - 1] == 32 || s[n - 1] == 9 || s[n - 1] == 10 || s[n - 1] == 11 || s[n
        - 1] == 12 || s[n - 1] == 13)
        invariant
            n <= s@.len(),
            trim_end(s@.subrange(0, n as int)) == trim_end(s@),
        decreases n,
    {
        assert(s@.subrange(0, n as int).drop_last() == s@.subrange(0, n - 1));
        n = n - 1;
    }
    assert(s@.subrange(0, s@.len() as int) == s@);
    n
}

/// The reference bases held by a FASTA text: the base lines of its first
/// record, each without trailing whitespace, joined; lines before the first
/// header and everything from the second header on are ignored.
pub fn parse_reference(text: &[u8]) -> (r: Vec<u8>)
    ensures
        r@ == reference_from(text@, false),
{
    let mut rf: Vec<u8> = Vec::new();
    let mut lines = Lines::make(text);
    let mut seen = false;
    loop
        invariant_except_break
            rf@ + reference_from(lines.rest(), seen) == reference_from(text@, false),
        ensures
            rf@ == reference_from(text@, false),
        decreases lines.rest().len(),
    {
        let ghost before = lines.rest();
        let ghost seen0 = seen;
        match lines.next_line() {
            None => {
                assert(reference_from(before, seen0) == Seq::<u8>::empty());
                assert(rf@ + Seq::<u8>::empty() == rf@);
                break ;
            },
            Some(line) => {
                proof {
                    crate::fastq::lemma_line_end(before);
                    assert(reference_from(before, seen0) == if is_header(line@) {
                        if seen0 {
                            Seq::<u8>::empty()
                        } else {
                            reference_from(lines.rest(), true)
                        }
                    } else if seen0 {
                        trim_end(line@) + reference_from(lines.rest(), seen0)
                    } else {
                        reference_from(lines.rest(), seen0)
                    });
                }
                if line.len() > 0 && line[0] == '>' as u8 {
                    if seen {
                        assert(rf@ + Seq::<u8>::empty() == rf@);
                        break ;
                    }
                    seen = true;
                } else if seen {
                    let n = trimmed_len(line);
                    let ghost old_rf = rf@;
                    let mut i: usize = 0;
                    while i < n
                        invariant
                            i <= n,
                            n <= line@.len(),
                            rf@ == old_rf + line@.subrange(0, i as int),
                        decreases n - i,
                    {
                        rf.push(line[i]);
                        assert(line@.subrange(0, i + 1) == line@.subrange(0, i as int).push(line@[i as int]));
                        i = i + 1;
                    }
                    assert(old_rf + trim_end(line@) + reference_from(lines.rest(), seen) == old_rf + (
                    trim_end(line@) + reference_from(lines.rest(), seen)));
                }
            },
        }
    }
    rf
}

} // verus!
