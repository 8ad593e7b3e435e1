use vstd::prelude::*;
use std::path::PathBuf;
use crate::stats::triangle;

verus! {

#[verifier::external_type_specification]
#[verifier::external_body]
pub struct ExPathBuf(PathBuf);

/// Why a configuration was refused.
#[derive(Debug, Clone, Copy, PartialEq, Eq, Structural)]
pub enum ConfigError {
    /// No input files were given.
    NoInput,
    /// Input files come in pairs, and an odd number was given.
    OddInputCount,
    /// A pool of zero threads or readers was asked for.
    ZeroThreads,
    /// The reference is too long for its pairwise tables to be indexed.
    ReferenceTooLong,
}

/// Relies on num_cpus::get: the number of logical cores available to this
/// process, documented to be at least one.
#[verifier::external_body]
fn logical_cores() -> (r: usize)
    ensures
        r >= 1,
{
    num_cpus::get()
}

/// Relies on num_cpus::get_physical: the number of physical cores,
/// documented to be at least one.
#[verifier::external_body]
fn physical_cores() -> (r: usize)
    ensures
        r >= 1,
{
    num_cpus::get_physical()
}

pub open spec fn min_nat(a: nat, b: nat) -> nat {
    if a <= b { a } else { b }
}

/// Readers used when none are asked for: no more than the physical cores
/// or the file pairs, and one reader for every four worker threads (at
/// least one).
pub open spec fn default_readers_spec(physical: nat, pairs: nat, threads: nat) -> nat {
    let per_threads = if threads / 4 >= 1 { threads / 4 } else { 1 };
    min_nat(min_nat(physical, pairs), per_threads)
}

pub fn default_readers(physical: usize, pairs: usize, threads: usize) -> (r: usize)
    ensures
        r == default_readers_spec(physical as nat, pairs as nat, threads as nat),
{
    let i = if physical <= pairs { physical } else { pairs };
    let j = if threads / 4 >= 1 { threads / 4 } else { 1 };
    if i <= j { i } else { j }
}

/// Run configuration: reference, inputs, pool sizes, quality threshold,
/// read filters and outputs.
pub struct Config {
    min_qual: u8,
    output_prefix: String,
    threads: usize,
    readers: usize,
    reference: Vec<u8>,
    input_files: Vec<PathBuf>,
    ignore_multibase_deletions: bool,
    ignore_multiple_deletions: bool,
    ignore_multiple_mutations: bool,
    ignore_multiple_modifications: bool,
    view_file: bool,
}

impl Config {
    pub closed spec fn spec_min_qual(&self) -> u8 {
        self.min_qual
    }

    pub closed spec fn spec_output_prefix(&self) -> Seq<char> {
        self.output_prefix@
    }

    pub closed spec fn spec_threads(&self) -> usize {
        self.threads
    }

    pub closed spec fn spec_readers(&self) -> usize {
        self.readers
    }

    pub closed spec fn spec_reference(&self) -> Seq<u8> {
        self.reference@
    }

    pub closed spec fn spec_input_files(&self) -> Seq<PathBuf> {
        self.input_files@
    }

    pub closed spec fn spec_flags(&self) -> (bool, bool, bool, bool, bool) {
        (
            self.ignore_multibase_deletions,
            self.ignore_multiple_deletions,
            self.ignore_multiple_mutations,
            self.ignore_multiple_modifications,
            self.view_file,
        )
    }

    /// Inputs come in pairs, pools are not empty, and the pairwise tables
    /// of the reference can be indexed.
    pub open spec fn wf(&self) -> bool {
        &&& self.spec_input_files().len() >= 2
        &&& self.spec_input_files().len() % 2 == 0
        &&& self.spec_threads() >= 1
        &&& self.spec_readers() >= 1
        &&& triangle(self.spec_reference().len() as nat) <= usize::MAX
    }

    /// Builds a configuration. Input files are taken in the order given
    /// (sorted by the caller) and paired as (2i, 2i + 1). Without a thread
    /// count, every logical core gets a worker; without a reader count,
    /// `default_readers` decides from the physical cores. Fails when the
    /// inputs are missing or odd in number, a pool size is zero, or the
    /// reference is too long to index its position pairs.
    pub fn new(
        min_qual: u8,
        output_prefix: String,
        threads: Option<usize>,
        readers: Option<usize>,
        reference: Vec<u8>,
        input_files: Vec<PathBuf>,
        ignore_multibase_deletions: bool,
        ignore_multiple_deletions: bool,
        ignore_multiple_mutations: bool,
        ignore_multiple_modifications: bool,
        view_file: bool,
    ) -> (r: Result<Config, ConfigError>)
        ensures
            r == Err::<Config, ConfigError>(ConfigError::NoInput) <==> input_files@.len() == 0,
            r == Err::<Config, ConfigError>(ConfigError::OddInputCount) <==> input_files@.len() % 2
                == 1,
            r == Err::<Config, ConfigError>(ConfigError::ZeroThreads) <==> (input_files@.len() > 0
                && input_files@.len() % 2 == 0 && (threads == Some(0usize) || readers == Some(
                0usize,
            ))),
            r == Err::<Config, ConfigError>(ConfigError::ReferenceTooLong) <==> (input_files@.len()
                > 0 && input_files@.len() % 2 == 0 && threads != Some(0usize) && readers != Some(
                0usize,
            ) && triangle(reference@.len() as nat) > usize::MAX),
            r is Ok ==> ({
                let c = r.unwrap();
                &&& c.wf()
                &&& c.spec_min_qual() == min_qual
                &&& c.spec_output_prefix() == output_prefix@
                &&& c.spec_reference() == reference@
                &&& c.spec_input_files() == input_files@
                &&& (threads is Some ==> c.spec_threads() == threads.unwrap())
                &&& (readers is Some ==> c.spec_readers() == readers.unwrap())
                &&& (readers is None ==> exists|phys: nat|
                    phys >= 1 && c.spec_readers() == #[trigger] default_readers_spec(
                        phys,
                        input_files@.len() / 2,
                        c.spec_threads() as nat,
                    ))
                &&& c.spec_flags() == (
                    ignore_multibase_deletions,
                    ignore_multiple_deletions,
                    ignore_multiple_mutations,
                    ignore_multiple_modifications,
                    view_file,
                )
            }),
    {
        let nf = input_files.len();
        if nf == 0 {
            return Err(ConfigError::NoInput);
        }
        if nf % 2 != 0 {
            return Err(ConfigError::OddInputCount);
        }
        if threads == Some(0usize) || readers == Some(0usize) {
            return Err(ConfigError::ZeroThreads);
        }
        if !fits_pair_tables(reference.len()) {
            return Err(ConfigError::ReferenceTooLong);
        }
        let threads = match threads {
            Some(t) => t,
            None => logical_cores(),
        };
        let readers = match readers {
            Some(r) => r,
            None => {
                let phys = physical_cores();
                default_readers(phys, nf / 2, threads)
            },
        };
        Ok(
            Config {
                min_qual,
                output_prefix,
                threads,
                readers,
                reference,
                input_files,
                ignore_multibase_deletions,
                ignore_multiple_deletions,
                ignore_multiple_mutations,
                ignore_multiple_modifications,
                view_file,
            },
        )
    }

    pub fn min_qual(&self) -> (r: u8)
        ensures
            r == self.spec_min_qual(),
    {
        self.min_qual
    }

    pub fn output_prefix(&self) -> (r: &str)
        ensures
            r@ == self.spec_output_prefix(),
    {
        self.output_prefix.as_str()
    }

    pub fn reference(&self) -> (r: &[u8])
        ensures
            r@ == self.spec_reference(),
    {
        self.reference.as_slice()
    }

    pub fn input_files(&self) -> (r: &[PathBuf])
        ensures
            r@ == self.spec_input_files(),
    {
        self.input_files.as_slice()
    }

    pub fn threads(&self) -> (r: usize)
        ensures
            r == self.spec_threads(),
    {
        self.threads
    }

    pub fn readers(&self) -> (r: usize)
        ensures
            r == self.spec_readers(),
    {
        self.readers
    }

    pub fn ignore_multibase_deletions(&self) -> (r: bool)
        ensures
            r == self.spec_flags().0,
    {
        self.ignore_multibase_deletions
    }

    pub fn ignore_multiple_deletions(&self) -> (r: bool)
        ensures
            r == self.spec_flags().1,
    {
        self.ignore_multiple_deletions
    }

    pub fn ignore_multiple_mutations(&self) -> (r: bool)
        ensures
            r == self.spec_flags().2,
    {
        self.ignore_multiple_mutations
    }

    pub fn ignore_multiple_modifications(&self) -> (r: bool)
        ensures
            r == self.spec_flags().3,
    {
        self.ignore_multiple_modifications
    }

    pub fn view_file(&self) -> (r: bool)
        ensures
            r == self.spec_flags().4,
    {
        self.view_file
    }
}

/// Whether the pairwise tables of a reference of length `len` can be
/// indexed: `triangle(len)` fits a `usize`.
pub fn fits_pair_tables(len: usize) -> (r: bool)
    ensures
        r == (triangle(len as nat) <= usize::MAX),
{
    proof {
        crate::stats::lemma_triangle_closed(len as nat);
    }
    let a = len as u128;
    assert(a * (a + 1) <= u128::MAX) by (nonlinear_arith)
        requires
            a <= u64::MAX,
    ;
    let t: u128 = a * (a + 1) / 2;
    t <= usize::MAX as u128
}

} // verus!
