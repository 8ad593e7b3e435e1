use std::io::Cursor;

use ampl_seq::buffer::{record_cut, Buffer, BufferError, BUF_SIZE};
use ampl_seq::config::{default_readers, fits_pair_tables, Config, ConfigError};
use ampl_seq::fastq::{FastQIter, FastqError, Lines};
use ampl_seq::reference::parse_reference;
use ampl_seq::stats::{InsertLength, Stats};
use ampl_seq::view::{ViewBuf, ViewRec, VIEW_N_REC};

fn record(id: &str, seq: &str) -> String {
    format!("@{}\n{}\n+\n{}\n", id, seq, "I".repeat(seq.len()))
}

#[test]
fn fastq_iter_reads_records_in_turn() {
    let data = format!("{}{}", record("r1 x", "ACGT"), record("r2", "GG"));
    let mut it = FastQIter::make(data.as_bytes());
    let r1 = it.next_record().unwrap().unwrap();
    assert_eq!(r1.id(), b"r1 x");
    assert_eq!(r1.seq(), b"ACGT");
    assert_eq!(r1.qual(), b"IIII");
    let r2 = it.next_record().unwrap().unwrap();
    assert_eq!(r2.id(), b"r2");
    assert_eq!(r2.seq(), b"GG");
    assert!(it.next_record().is_none());
}

#[test]
fn fastq_last_record_without_newline() {
    let mut it = FastQIter::make(b"@r\nAC\n+\nII");
    let r = it.next_record().unwrap().unwrap();
    assert_eq!(r.qual(), b"II");
    assert!(it.next_record().is_none());
}

#[test]
fn fastq_errors() {
    assert_eq!(FastQIter::make(b"@r\nAC\n+\n").next_record().unwrap().err(), Some(FastqError::Incomplete));
    assert_eq!(FastQIter::make(b"@r\nAC\n").next_record().unwrap().err(), Some(FastqError::Incomplete));
    assert_eq!(FastQIter::make(b"r\nAC\n+\nII\n").next_record().unwrap().err(), Some(FastqError::Invalid));
    assert_eq!(FastQIter::make(b"@r\nAC\n-\nII\n").next_record().unwrap().err(), Some(FastqError::Invalid));
    assert_eq!(FastQIter::make(b"@r\nAC\n+\nI\n").next_record().unwrap().err(), Some(FastqError::Invalid));
    assert_eq!(FastQIter::make(b"@r\n\n+\n\n").next_record().unwrap().err(), Some(FastqError::Invalid));
    assert!(FastQIter::make(b"").next_record().is_none());
}

#[test]
fn fastq_iter_ends_after_an_error() {
    let mut it = FastQIter::make(b"@r
AC
+
I
@s
AC
+
II
");
    assert_eq!(it.next_record().unwrap().err(), Some(FastqError::Invalid));
    assert!(it.next_record().is_none());
    let mut it2 = FastQIter::make(b"@r
AC
");
    assert_eq!(it2.next_record().unwrap().err(), Some(FastqError::Incomplete));
    assert!(it2.next_record().is_none());
}

#[test]
fn record_cut_decides_framing() {
    let two = format!("{}{}", record("a", "AC"), record("b", "AC"));
    let one = record("a", "AC");
    let k = record_cut(two.as_bytes(), one.as_bytes(), false).unwrap();
    assert_eq!(k, (one.len(), one.len()));
    assert_eq!(record_cut(b"@a\nAC\n+\nII", one.as_bytes(), false), None);
    assert_eq!(record_cut(b"@a\nAC\n+\nII", one.as_bytes(), true), Some((0, 0)));
    assert_eq!(record_cut(b"", b"", true), Some((0, 0)));
}

#[test]
fn lines_split_on_newlines() {
    let mut l = Lines::make(b"ab\n\ncd");
    assert_eq!(l.next_line(), Some(&b"ab"[..]));
    assert_eq!(l.next_line(), Some(&b""[..]));
    assert_eq!(l.next_line(), Some(&b"cd"[..]));
    assert_eq!(l.next_line(), None);
    assert_eq!(l.inner(), b"");
}

#[test]
fn fill_keeps_whole_records_and_moves_the_rest() {
    let data1 = format!("{}{}", record("a", "ACGT"), record("b", "ACGT"));
    let data2 = format!("{}", record("a", "TTTT"));
    let mut b = Buffer::new(0);
    let mut rem = Buffer::new(1);
    let eof = b
        .fill(&mut Cursor::new(data1.clone().into_bytes()), &mut Cursor::new(data2.clone().into_bytes()), &mut rem)
        .unwrap();
    assert!(eof);
    let (s1, s2) = b.as_slices();
    // both sides keep as many records as the shorter one holds
    assert_eq!(s1, record("a", "ACGT").as_bytes());
    assert_eq!(s2, data2.as_bytes());
    let (r1, r2) = rem.as_slices();
    assert_eq!(r1, record("b", "ACGT").as_bytes());
    assert_eq!(r2, b"");
    // every byte is in exactly one of the two buffers
    assert_eq!([s1, r1].concat(), data1.as_bytes());
    assert_eq!(b.used(), &[s1.len(), s2.len()]);
    assert_eq!(b.ix(), 0);
    assert_eq!(rem.ix(), 1);
    let (mut f1, mut f2) = b.fastq();
    assert_eq!(f1.next_record().unwrap().unwrap().id(), b"a");
    assert_eq!(f2.next_record().unwrap().unwrap().seq(), b"TTTT");
    assert!(f1.next_record().is_none());
    b.clear();
    assert!(b.is_empty());
    assert!(!rem.is_empty());
}

#[test]
fn fill_of_a_partial_tail_at_end_of_input() {
    let mut b = Buffer::new(0);
    let mut rem = Buffer::new(1);
    let eof = b
        .fill(&mut Cursor::new(b"@r\nAC\n+\nII".to_vec()), &mut Cursor::new(b"@r\nAC\n+\nII".to_vec()), &mut rem)
        .unwrap();
    assert!(eof);
    assert!(b.is_empty());
    assert_eq!(rem.as_slices(), (&b"@r\nAC\n+\nII"[..], &b"@r\nAC\n+\nII"[..]));
}

#[test]
fn fill_of_empty_inputs() {
    let mut b = Buffer::new(0);
    let mut rem = Buffer::new(1);
    assert!(b.fill(&mut Cursor::new(Vec::new()), &mut Cursor::new(Vec::new()), &mut rem).unwrap());
    assert!(b.is_empty());
    assert!(rem.is_empty());
}

#[test]
fn fill_refuses_a_record_larger_than_the_buffer() {
    let big = record("big", &"A".repeat(BUF_SIZE));
    let mut b = Buffer::new(0);
    let mut rem = Buffer::new(1);
    let r = b.fill(&mut Cursor::new(big.clone().into_bytes()), &mut Cursor::new(big.into_bytes()), &mut rem);
    assert!(matches!(r, Err(BufferError::TooSmall)));
}

#[test]
fn fill_continues_a_pending_buffer() {
    let n = BUF_SIZE / 8 + 1;
    let mut data = String::new();
    for i in 0..n {
        data.push_str(&record(&format!("{}", i % 10), "A"));
    }
    assert!(data.len() > BUF_SIZE);
    let mut c1 = Cursor::new(data.clone().into_bytes());
    let mut c2 = Cursor::new(data.clone().into_bytes());
    let mut b = Buffer::new(0);
    let mut pending = Buffer::new(1);
    let mut seen = Vec::new();
    loop {
        let eof = b.fill(&mut c1, &mut c2, &mut pending).unwrap();
        let (s1, s2) = b.as_slices();
        assert_eq!(s1, s2);
        seen.extend_from_slice(s1);
        std::mem::swap(&mut b, &mut pending);
        if eof {
            seen.extend_from_slice(b.as_slices().0);
            break;
        }
    }
    assert_eq!(seen, data.into_bytes());
}

#[test]
fn merged_worker_stats_equal_single_stats() {
    let rf = b"ACGTACGT".to_vec();
    let reads: [&[u8]; 4] = [b"ACGTACGT", b"ACGAACGT", b"ACGT CGT", b"acgTACGT"];
    let mut all = Stats::new(&rf);
    let mut w1 = Stats::new(&rf);
    let mut w2 = Stats::new(&rf);
    for (i, r) in reads.iter().enumerate() {
        all.add_obs(r);
        all.add_len(8 + i as u32 % 2);
        all.add_del(5, 5);
        let w = if i % 2 == 0 { &mut w1 } else { &mut w2 };
        w.add_obs(r);
        w.add_len(8 + i as u32 % 2);
        w.add_del(5, 5);
    }
    w2.merge(w1);
    assert_eq!(w2.n_reads(), all.n_reads());
    assert_eq!(w2.insert_table(), all.insert_table());
    assert_eq!(w2.del_table(), all.del_table());
    assert_eq!(all.insert_table(), vec![(8u32, 2u64), (9u32, 2u64)]);
    assert_eq!(all.del_table(), vec![(5usize, 5usize, 4u64)]);
    for i in 0..8 {
        for s in 0..6 {
            assert_eq!(w2.counts(i).count(s), all.counts(i).count(s));
        }
        for j in 0..8 {
            assert_eq!(w2.corr_table(i, j), all.corr_table(i, j));
        }
    }
    assert_eq!(w2.mk_del_cm(8), all.mk_del_cm(8));
}

#[test]
fn add_obs_counts_slots() {
    let rf = b"ACGT".to_vec();
    let mut s = Stats::new(&rf);
    s.add_obs(b"a Gn");
    assert_eq!(s.counts(0).count(0), 1);
    assert_eq!(s.counts(0).count(5), 1);
    assert_eq!(s.counts(1).count(4), 1);
    assert_eq!(s.counts(2).count(2), 1);
    assert_eq!(s.counts(3).count(5), 1);
    assert_eq!(s.counts(3).total(), 0);
    assert_eq!(s.n_updates(), 1);
    // a shorter read counts where it reaches and leaves the pair tables alone
    s.add_obs(b"AC");
    assert_eq!(s.counts(1).count(1), 1);
    assert_eq!(s.corr_table(0, 1), [0, 0, 0, 0]);
}

#[test]
fn mutation_tables_count_pairs() {
    let rf = b"ACGT".to_vec();
    let mut s = Stats::new(&rf);
    s.add_obs(b"ACGT");
    s.add_obs(b"TCGA");
    s.add_obs(b"NCGT");
    // positions 0 and 3: (match, match), then (mismatch, mismatch); N is unclassed
    assert_eq!(s.corr_table(0, 3), [1, 0, 0, 1]);
    assert_eq!(s.corr_table(3, 0), [1, 0, 0, 1]);
    // position 1 with 3: class of 1 first
    assert_eq!(s.corr_table(1, 3), [2, 1, 0, 0]);
    assert_eq!(s.corr_table(3, 1), [2, 1, 0, 0]);
    // diagonal
    assert_eq!(s.corr_table(0, 0), [1, 0, 0, 1]);
    assert_eq!(s.counts(0).mismatches(b'A'), 1);
    assert_eq!(s.counts(0).mismatches(b'N'), 0);
}

#[test]
fn deletion_map_is_symmetric() {
    let rf = b"ACGT".to_vec();
    let mut s = Stats::new(&rf);
    s.add_del(1, 3);
    s.add_del(1, 3);
    s.add_del(3, 1);
    s.add_del(2, 2);
    let cm = s.mk_del_cm(4);
    assert_eq!(cm.len(), 16);
    assert_eq!(cm[0 * 4 + 2], 3);
    assert_eq!(cm[2 * 4 + 0], 3);
    assert_eq!(cm[1 * 4 + 1], 1);
    for x in 0..4 {
        for y in 0..4 {
            assert_eq!(cm[x * 4 + y], cm[y * 4 + x]);
        }
    }
}

#[test]
fn deletion_table_order() {
    let rf = b"ACGTACGT".to_vec();
    let mut s = Stats::new(&rf);
    for _ in 0..2 {
        s.add_del(2, 6);
        s.add_del(3, 4);
    }
    s.add_del(1, 1);
    for _ in 0..3 {
        s.add_del(5, 5);
    }
    assert_eq!(s.del_table(), vec![(5, 5, 3), (3, 4, 2), (2, 6, 2), (1, 1, 1)]);
}

#[test]
fn insert_length_histogram() {
    let mut h = InsertLength::new();
    h.add_len(10);
    h.add_len(10);
    h.add_len(3);
    let mut g = InsertLength::new();
    g.add_len(3);
    h.merge(&g);
    let rf = b"AC".to_vec();
    let mut s = Stats::new(&rf);
    s.add_len(10);
    s.add_len(3);
    s.add_len(10);
    assert_eq!(s.insert_table(), vec![(3, 1), (10, 2)]);
}

#[test]
fn config_checks_inputs() {
    let files = |n: usize| (0..n).map(|i| std::path::PathBuf::from(format!("f{}", i))).collect::<Vec<_>>();
    let mk = |f: Vec<std::path::PathBuf>, t: Option<usize>, r: Option<usize>| {
        Config::new(0, "p".to_string(), t, r, b"ACGT".to_vec(), f, false, false, false, false, true)
    };
    assert_eq!(mk(files(0), None, None).err(), Some(ConfigError::NoInput));
    assert_eq!(mk(files(3), None, None).err(), Some(ConfigError::OddInputCount));
    assert_eq!(mk(files(2), Some(0), None).err(), Some(ConfigError::ZeroThreads));
    let c = mk(files(4), Some(8), Some(3)).unwrap();
    assert_eq!(c.threads(), 8);
    assert_eq!(c.readers(), 3);
    assert_eq!(c.input_files().len(), 4);
    assert_eq!(c.output_prefix(), "p");
    assert_eq!(c.reference(), b"ACGT");
    assert!(c.view_file());
    assert!(!c.ignore_multibase_deletions());
    let d = mk(files(2), Some(8), None).unwrap();
    assert_eq!(d.readers(), 1);
    assert!(mk(files(2), None, None).unwrap().threads() >= 1);
    assert!(fits_pair_tables(1000));
    assert!(!fits_pair_tables(usize::MAX));
}

#[test]
fn default_reader_count() {
    assert_eq!(default_readers(8, 10, 16), 4);
    assert_eq!(default_readers(2, 10, 16), 2);
    assert_eq!(default_readers(8, 1, 16), 1);
    assert_eq!(default_readers(8, 10, 2), 1);
}

#[test]
fn view_block_fits_records() {
    let mut v = ViewBuf::new(4);
    assert!(!v.is_full());
    assert!(v.push_record(b"AC"));
    assert!(v.push_record(b"ACGTAA"));
    let recs = v.recs();
    assert_eq!(recs.len(), 2);
    assert_eq!(recs[0].to_bytes(), b"AC  ");
    assert_eq!(recs[1].to_bytes(), b"ACGT");
    assert_eq!(recs[1].to_string_lossy(), "ACGT".to_string());
    for _ in 2..VIEW_N_REC {
        assert!(v.push_record(b"A"));
    }
    assert!(v.is_full());
    assert!(!v.push_record(b"A"));
    assert_eq!(v.recs().len(), VIEW_N_REC);
    assert_eq!(ViewRec::from_ptr(b"x y").to_string_lossy(), "x y");
}

#[test]
fn reference_takes_first_record_only() {
    assert_eq!(parse_reference(b">amp1 desc\nACGT  \nAC\r\n>amp2\nTTTT\n"), b"ACGTAC".to_vec());
    assert_eq!(parse_reference(b"GG\n>a\nCC"), b"CC".to_vec());
    assert_eq!(parse_reference(b"ACGT\n"), Vec::<u8>::new());
    assert_eq!(parse_reference(b""), Vec::<u8>::new());
    assert_eq!(parse_reference(b">only\n"), Vec::<u8>::new());
}

