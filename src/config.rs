//! Run settings and the messages a run reports.

use vstd::prelude::*;

verus! {

/// How found primes are written out.
#[derive(Clone, Copy, Debug, PartialEq, Eq, Structural)]
pub enum OutputFormat {
    /// One number per line.
    Text,
    /// Numbers joined by commas, one line per file.
    CSV,
    /// One array of numbers per file.
    JSON,
}

/// The settings of a run. Bounds are decimal strings so that they can also
/// hold numbers beyond 64 bits.
#[derive(Clone, Debug)]
pub struct Config {
    pub segment_size: u64,
    pub chunk_size: usize,
    pub writer_buffer_size: usize,
    pub prime_min: String,
    pub prime_max: String,
    pub output_format: OutputFormat,
    pub output_dir: String,
    pub split_count: u64,
}

impl Default for Config {
    /// Windows of ten million numbers, the range `[1, 1000000]`, plain text
    /// output in the working directory, no splitting.
    fn default() -> (c: Self)
        ensures
            c.segment_size == 10_000_000,
            c.chunk_size == 16_384,
            c.writer_buffer_size == 8 * 1024 * 1024,
            c.prime_min@ == seq!['1'],
            c.prime_max@ == seq!['1', '0', '0', '0', '0', '0', '0'],
            c.output_format == OutputFormat::Text,
            c.output_dir@.len() == 0,
            c.split_count == 0,
    {
        proof {
            reveal_strlit("1");
            reveal_strlit("1000000");
            reveal_strlit("");
        }
        Config {
            segment_size: 10_000_000,
            chunk_size: 16_384,
            writer_buffer_size: 8 * 1024 * 1024,
            prime_min: "1".to_owned(),
            prime_max: "1000000".to_owned(),
            output_format: OutputFormat::Text,
            output_dir: "".to_owned(),
            split_count: 0,
        }
    }
}

/// What a running job reports to whoever drives it.
#[derive(Clone, Debug)]
pub enum WorkerMessage {
    Log(String),
    Progress { current: u64, total: u64 },
    Eta(String),
    MemUsage(u64),
    FoundPrimeIndex(u64, u64),
    Done,
    Stopped,
    VerificationDone(String),
}

} // verus!
