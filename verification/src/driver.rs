//! The batch driver's decision kernels.
//!
//! The driver walks an input directory, decodes each audio file and feeds
//! it to the spectrogram generator once per planned target rate. The
//! filesystem work stays in the surrounding application; what is verified
//! here is every decision the driver takes: how the configuration is
//! validated, which directory entries qualify, and which (file, rate)
//! pairs of work the batch consists of.

use vstd::prelude::*;

verus! {

/// Why a run refuses to start. The input directory must exist and be a
/// directory, and the output directory must not already exist (a prior
/// run's results are never silently merged or overwritten).
#[derive(Clone, Copy, Debug, PartialEq, Eq, Structural)]
pub enum ConfigError {
    InputMissing,
    InputNotDirectory,
    OutputExists,
}

/// The extraction configuration, validated once at the boundary.
/// `min_freq` and `max_freq` bound the sample-rate sweep, `num_windows`
/// is the number of time buckets per spectrogram, `clip_duration_ms` the
/// analysed clip length in milliseconds, and `freq_bin` the number of
/// retained frequency bins (half of the FFT size).
#[derive(Clone, Copy, Debug, PartialEq, Eq, Structural)]
pub struct ExtractionConfig {
    pub min_freq: u32,
    pub max_freq: u32,
    pub num_windows: usize,
    pub clip_duration_ms: u64,
    pub freq_bin: usize,
}

impl ExtractionConfig {
    /// The fields every pipeline stage relies on being positive.
    pub open spec fn wf(self) -> bool {
        &&& self.min_freq >= 1
        &&& self.num_windows >= 1
        &&& self.freq_bin >= 1
    }
}

impl Default for ExtractionConfig {
    /// The documented defaults: a sweep from 2048 Hz to 8192 Hz, 168 time
    /// buckets, 4-second clips, 128 frequency bins.
    fn default() -> (c: Self)
        ensures
            c == (ExtractionConfig {
                min_freq: 2048u32,
                max_freq: 8192u32,
                num_windows: 168usize,
                clip_duration_ms: 4000u64,
                freq_bin: 128usize,
            }),
            c.wf(),
    {
        ExtractionConfig {
            min_freq: 2048,
            max_freq: 8192,
            num_windows: 168,
            clip_duration_ms: 4000,
            freq_bin: 128,
        }
    }
}

/// Validates the run's paths, in the order the driver checks them: the
/// input path must exist, must be a directory, and the output path must
/// not exist yet. The first failed check is reported and nothing is
/// processed.
pub fn validate_paths(input_exists: bool, input_is_dir: bool, output_exists: bool) -> (r: Result<
    (),
    ConfigError,
>)
    ensures
        r == if !input_exists {
            Result::<(), ConfigError>::Err(ConfigError::InputMissing)
        } else if !input_is_dir {
            Result::<(), ConfigError>::Err(ConfigError::InputNotDirectory)
        } else if output_exists {
            Result::<(), ConfigError>::Err(ConfigError::OutputExists)
        } else {
            Result::<(), ConfigError>::Ok(())
        },
{
    if !input_exists {
        Err(ConfigError::InputMissing)
    } else if !input_is_dir {
        Err(ConfigError::InputNotDirectory)
    } else if output_exists {
        Err(ConfigError::OutputExists)
    } else {
        Ok(())
    }
}

/// The file name ends in `.wav` with a non-empty stem, which is exactly
/// when the driver treats the entry as an audio file (any other entry is
/// skipped with a diagnostic, not an error).
pub open spec fn spec_is_wav_name(name: Seq<u8>) -> bool {
    &&& name.len() > 4
    &&& name[name.len() - 4] == 46u8
    &&& name[name.len() - 3] == 119u8
    &&& name[name.len() - 2] == 97u8
    &&& name[name.len() - 1] == 118u8
}

/// Decides whether a directory entry's file name (as bytes) names a WAV
/// file: it must end in `.wav` and have a non-empty stem before the dot.
pub fn is_wav_name(name: &Vec<u8>) -> (r: bool)
    ensures
        r == spec_is_wav_name(name@),
{
    let n = name.len();
    if n <= 4 {
        return false;
    }
    name[n - 4] == 46 && name[n - 3] == 119 && name[n - 2] == 97 && name[n - 1] == 118
}

/// The batch's work items from entry `idx` on: one `(file index, rate)`
/// pair per planned rate for every WAV-named entry, files in directory
/// order, rates in sweep order within a file.
pub open spec fn jobs_from(names: Seq<Seq<u8>>, rates: Seq<u32>, idx: int) -> Seq<(usize, u32)>
    decreases names.len() - idx,
{
    if idx < 0 || idx >= names.len() {
        Seq::empty()
    } else {
        let rest = jobs_from(names, rates, idx + 1);
        if spec_is_wav_name(names[idx]) {
            Seq::new(rates.len(), |r: int| (idx as usize, rates[r])) + rest
        } else {
            rest
        }
    }
}

/// Plans the whole batch: for each WAV-named entry, in directory order,
/// one work item per target rate, in sweep order. Entries without the
/// `.wav` extension contribute nothing.
#[verifier::loop_isolation(false)]
pub fn batch_jobs(names: &Vec<Vec<u8>>, rates: &Vec<u32>) -> (jobs: Vec<(usize, u32)>)
    ensures
        jobs@ == jobs_from(names@.map_values(|n: Vec<u8>| n@), rates@, 0),
{
    let ghost gnames = names@.map_values(|n: Vec<u8>| n@);
    let mut jobs: Vec<(usize, u32)> = Vec::new();
    let mut f: usize = 0;
    while f < names.len()
        invariant
            f <= names.len(),
            jobs_from(gnames, rates@, 0) == jobs@ + jobs_from(gnames, rates@, f as int),
        decreases names.len() - f,
    {
        let ghost jobs_before = jobs@;
        if is_wav_name(&names[f]) {
            let mut r: usize = 0;
            while r < rates.len()
                invariant
                    r <= rates.len(),
                    jobs@.len() == jobs_before.len() + r,
                    forall|k: int| 0 <= k < jobs_before.len() ==> jobs@[k] == jobs_before[k],
                    forall|k: int|
                        jobs_before.len() <= k < jobs@.len() ==> #[trigger] jobs@[k] == (
                        f,
                        rates@[k - jobs_before.len()],
                        ),
                decreases rates.len() - r,
            {
                jobs.push((f, rates[r]));
                r = r + 1;
            }
            proof {
                let per_file = Seq::new(rates@.len(), |r: int| (f, rates@[r]));
                assert(jobs@ =~= jobs_before + per_file);
                assert(jobs_before + (per_file + jobs_from(gnames, rates@, f as int + 1)) =~= (
                jobs_before + per_file) + jobs_from(gnames, rates@, f as int + 1));
            }
        }
        f = f + 1;
    }
    proof {
        assert(jobs@ + jobs_from(gnames, rates@, names@.len() as int) =~= jobs@);
    }
    jobs
}

/// Hands decoded items to the downstream training pipeline's batching
/// stage. The batching itself runs on tensors outside this library; the
/// marker only identifies the stage.
#[derive(Clone, Copy, Default)]
pub struct Urban8kBatcher {}

} // verus!
