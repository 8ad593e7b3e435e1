use std::path::PathBuf;

use ampl_seq::config::Config;
use ampl_seq::fastq::FastQIter;
use ampl_seq::pair::{
    check_ids, overlap_consensus, reference_walk, reverse_complement, PairError, WalkSummary,
};
use ampl_seq::process::{record_pair, skip};
use ampl_seq::stats::Stats;

fn config(reference: &[u8], min_qual: u8, flags: [bool; 4]) -> Config {
    Config::new(
        min_qual,
        "out".to_string(),
        Some(1),
        Some(1),
        reference.to_vec(),
        vec![PathBuf::from("r_1.fq"), PathBuf::from("r_2.fq")],
        flags[0],
        flags[1],
        flags[2],
        flags[3],
        false,
    )
    .unwrap()
}

struct PairResult {
    overlap: Vec<u8>,
    al: Vec<u8>,
    dels: Vec<(usize, usize)>,
    walk: WalkSummary,
    kept: bool,
}

/// Runs the steps of one read pair with the two CIGARs given in place of
/// the aligner's output.
fn run_pair(
    cfg: &Config,
    stats: &mut Stats,
    seq1: &[u8],
    qual1: &[u8],
    seq2: &[u8],
    qual2: &[u8],
    overlap_cigar: &[u8],
    ref_cigar: &[u8],
) -> Result<PairResult, PairError> {
    let mut rc = Vec::new();
    reverse_complement(seq2, &mut rc);
    let mut overlap = Vec::new();
    overlap_consensus(overlap_cigar, seq1, qual1, &rc, qual2, cfg.min_qual(), &mut overlap)?;
    let mut al = Vec::new();
    let mut dels = Vec::new();
    let walk = reference_walk(ref_cigar, &overlap, cfg.reference(), &mut al, &mut dels)?;
    let kept = record_pair(cfg, stats, &al, &dels, &walk, overlap.len())?;
    Ok(PairResult { overlap, al, dels, walk, kept })
}

#[test]
fn trivial_pair_exact_match() {
    let rf = b"ACGTACGT";
    let cfg = config(rf, 0, [false; 4]);
    let mut stats = Stats::new(cfg.reference());
    let r = run_pair(
        &cfg,
        &mut stats,
        b"ACGTACGT",
        b"IIIIIIII",
        b"ACGTACGT",
        b"IIIIIIII",
        b"MMMMMMMM",
        b"MMMMMMMM",
    )
    .unwrap();
    assert_eq!(r.overlap, b"ACGTACGT".to_vec());
    assert_eq!(r.al, b"ACGTACGT".to_vec());
    assert!(r.kept);
    assert!(r.dels.is_empty());
    let slots = [0usize, 1, 2, 3, 0, 1, 2, 3];
    for i in 0..8 {
        for s in 0..6 {
            let want = if s == slots[i] { 1 } else { 0 };
            assert_eq!(stats.counts(i).count(s), want);
        }
    }
    assert_eq!(stats.insert_table(), vec![(8u32, 1u64)]);
    assert!(stats.del_table().is_empty());
    assert_eq!(stats.n_reads(), 1);
}

#[test]
fn single_mismatch_counts_one_mutation() {
    let rf = b"ACGTACGT";
    let cfg = config(rf, 0, [false; 4]);
    let mut stats = Stats::new(cfg.reference());
    let r = run_pair(
        &cfg,
        &mut stats,
        b"ACGAACGT",
        b"IIIIIIII",
        b"ACGTTCGT",
        b"IIIIIIII",
        b"MMMMMMMM",
        b"MMMXMMMM",
    )
    .unwrap();
    assert_eq!(r.overlap, b"ACGAACGT".to_vec());
    assert_eq!(r.walk.n_mut, 1);
    assert_eq!(r.al, b"ACGAACGT".to_vec());
    assert_eq!(stats.counts(3).count(0), 1);
    assert_eq!(stats.counts(3).count(3), 0);
}

#[test]
fn single_base_deletion() {
    let rf = b"ACGTACGT";
    let cfg = config(rf, 0, [false; 4]);
    let mut stats = Stats::new(cfg.reference());
    let r = run_pair(
        &cfg,
        &mut stats,
        b"ACGTCGT",
        b"IIIIIII",
        b"ACGACGT",
        b"IIIIIII",
        b"MMMMMMM",
        b"MMMMIMMM",
    )
    .unwrap();
    assert_eq!(r.overlap, b"ACGTCGT".to_vec());
    assert_eq!(r.al, b"ACGT CGT".to_vec());
    assert_eq!(r.walk.n_del, 1);
    assert!(!r.walk.mb_del);
    assert_eq!(r.dels, vec![(5, 5)]);
    assert_eq!(stats.del_count(5, 5), 1);
    assert_eq!(stats.del_table(), vec![(5usize, 5usize, 1u64)]);
    // position 5 (index 4) is a deletion in the one read counted
    assert_eq!(stats.counts(4).count(4), 1);
    assert_eq!(stats.counts(4).total(), 1);
    assert_eq!(stats.insert_table(), vec![(7u32, 1u64)]);
}

#[test]
fn low_quality_bases_are_masked_and_filtered() {
    let rf = b"ACGTACGT";
    let cfg = config(rf, 30, [false, false, true, false]);
    let mut stats = Stats::new(cfg.reference());
    let r = run_pair(
        &cfg,
        &mut stats,
        b"ACGTACGT",
        b"!!!!!!!!",
        b"ACGTACGT",
        b"!!!!!!!!",
        b"MMMMMMMM",
        b"XXXXXXXX",
    )
    .unwrap();
    assert_eq!(r.overlap, b"NNNNNNNN".to_vec());
    assert_eq!(r.walk.n_mut, 8);
    assert!(!r.kept);
    assert_eq!(stats.n_reads(), 0);
    assert_eq!(stats.insert_table(), vec![(8u32, 1u64)]);
    for i in 0..8 {
        assert_eq!(stats.counts(i).total(), 0);
    }
}

#[test]
fn mismatching_ids_are_refused() {
    let data1 = b"@r1/1\nACGT\n+\nIIII\n";
    let data2 = b"@r2/1\nACGT\n+\nIIII\n";
    let rec1 = FastQIter::make(data1).next_record().unwrap().unwrap();
    let rec2 = FastQIter::make(data2).next_record().unwrap().unwrap();
    assert_eq!(check_ids(rec1.id(), rec2.id()), Err(PairError::IdMismatch));
    assert_eq!(check_ids(b"r1 extra", b"r1\tother"), Ok(()));
}

#[test]
fn multibase_deletion_is_filtered() {
    let rf = b"ACGTACGT";
    let cfg = config(rf, 0, [true, false, false, false]);
    let mut stats = Stats::new(cfg.reference());
    let r = run_pair(
        &cfg,
        &mut stats,
        b"ACGTGT",
        b"IIIIII",
        b"ACACGT",
        b"IIIIII",
        b"MMMMMM",
        b"MMMMIIMM",
    )
    .unwrap();
    assert_eq!(r.al, b"ACGT  GT".to_vec());
    assert!(r.walk.mb_del);
    assert_eq!(r.walk.n_del, 1);
    assert!(!r.kept);
    assert_eq!(r.dels, vec![(5, 6)]);
    assert_eq!(stats.n_reads(), 0);
    assert_eq!(stats.insert_table(), vec![(6u32, 1u64)]);
}

#[test]
fn consensus_length_is_number_of_aligned_pairs() {
    let mut out = Vec::new();
    // read 1 has an extra leading base, read 2 an extra trailing one
    overlap_consensus(b"DMMMMI", b"TACGT", b"IIIII", b"ACGTA", b"IIIII", 0, &mut out).unwrap();
    assert_eq!(out, b"ACGT".to_vec());
    assert_eq!(out.len(), 4);
}

#[test]
fn consensus_picks_better_supported_base() {
    let mut out = Vec::new();
    // text qualities are read 2's taken from the end
    overlap_consensus(b"MM", b"AC", b"5I", b"GC", b"+5", 0, &mut out).unwrap();
    // position 0: A(q '5'=53) vs G(q '5' = 53): equal, pattern wins
    // position 1: C vs C keeps the higher quality
    assert_eq!(out, b"AC".to_vec());
    let mut out2 = Vec::new();
    overlap_consensus(b"M", b"A", b"#", b"G", b"I", 10, &mut out2).unwrap();
    // G wins with quality 'I' - '#' = 38, score 5 under 10: masked
    assert_eq!(out2, b"N".to_vec());
}

#[test]
fn bad_cigar_is_refused() {
    let mut out = Vec::new();
    assert_eq!(
        overlap_consensus(b"MMZ", b"AC", b"II", b"AC", b"II", 0, &mut out),
        Err(PairError::BadCigar)
    );
    assert_eq!(
        overlap_consensus(b"MMM", b"AC", b"II", b"AC", b"II", 0, &mut out),
        Err(PairError::BadCigar)
    );
    let mut al = Vec::new();
    let mut dels = Vec::new();
    assert_eq!(
        reference_walk(b"", b"AC", b"AC", &mut al, &mut dels),
        Err(PairError::BadCigar)
    );
    assert_eq!(
        reference_walk(b"MMM", b"AC", b"ACG", &mut al, &mut dels),
        Err(PairError::BadCigar)
    );
}

#[test]
fn reference_walk_marks_consensus_only_bases() {
    let mut al = Vec::new();
    let mut dels = Vec::new();
    let w = reference_walk(b"MMDMM", b"ACGTA", b"ACTA", &mut al, &mut dels).unwrap();
    assert_eq!(al, b"AcTA".to_vec());
    assert_eq!(w, WalkSummary { n_mut: 0, n_del: 0, mb_del: false });
    assert!(dels.is_empty());
    // first and last bytes are forced to upper case
    let w2 = reference_walk(b"MDMD", b"acgt", b"AC", &mut al, &mut dels).unwrap();
    assert_eq!(al, b"AG".to_vec());
    assert_eq!(w2.n_mut, 2);
}

#[test]
fn reverse_complement_keeps_case_and_other_bytes() {
    let mut out = Vec::new();
    reverse_complement(b"AACgtN-", &mut out);
    assert_eq!(out, b"-NacGTT".to_vec());
}

#[test]
fn filters_follow_their_flags() {
    let rf = b"ACGT";
    let w = WalkSummary { n_mut: 1, n_del: 1, mb_del: false };
    assert!(!skip(&config(rf, 0, [true, true, true, false]), &w));
    assert!(skip(&config(rf, 0, [false, false, false, true]), &w));
    let w2 = WalkSummary { n_mut: 0, n_del: 2, mb_del: true };
    assert!(skip(&config(rf, 0, [false, true, false, false]), &w2));
    assert!(skip(&config(rf, 0, [true, false, false, false]), &w2));
    assert!(!skip(&config(rf, 0, [false, false, true, false]), &w2));
}

#[test]
fn filtered_read_without_deletions_only_adds_its_length() {
    let rf = b"ACGTACGT";
    let cfg = config(rf, 0, [false, false, true, false]);
    let mut stats = Stats::new(cfg.reference());
    run_pair(&cfg, &mut stats, b"ACGTACGT", b"IIIIIIII", b"ACGTACGT", b"IIIIIIII", b"MMMMMMMM", b"MMMMMMMM")
        .unwrap();
    let before: Vec<Vec<u64>> = (0..8).map(|i| (0..6).map(|s| stats.counts(i).count(s)).collect()).collect();
    let corr_before = stats.corr_table(0, 7);
    let r = run_pair(&cfg, &mut stats, b"TTGTACGT", b"IIIIIIII", b"ACGTACAA", b"IIIIIIII", b"MMMMMMMM", b"XXMMMMMM")
        .unwrap();
    assert!(!r.kept);
    let after: Vec<Vec<u64>> = (0..8).map(|i| (0..6).map(|s| stats.counts(i).count(s)).collect()).collect();
    assert_eq!(before, after);
    assert_eq!(corr_before, stats.corr_table(0, 7));
    assert_eq!(stats.n_reads(), 1);
    assert!(stats.del_table().is_empty());
    assert_eq!(stats.insert_table(), vec![(8u32, 2u64)]);
}
