//! Job configuration: what to transfer, where, and under which rules.

use vstd::prelude::*;

use crate::bytesize::ByteSize;
use crate::paths::bytes_eq;

verus! {

/// When an existing destination file is rewritten.
#[derive(Debug, Clone, Copy, PartialEq, Eq, Structural)]
pub enum OverwriteMode {
    /// An existing destination is never rewritten.
    Never,
    /// An existing destination is rewritten only when its size differs
    /// from the source's.
    SizeDiffers,
    /// An existing destination is always rewritten.
    Always,
}

/// Whether to verify contents after copying, and the retry budget for
/// files that failed that verification.
#[derive(Debug, Clone, Copy, PartialEq, Eq, Structural)]
pub struct Verification {
    pub verify: bool,
    pub verify_retries: u8,
}

/// One transfer job as configured: a source tree, destination roots, and
/// the rules of the run. Paths are byte strings.
#[derive(Debug, Clone, PartialEq, Eq)]
pub struct Cli {
    pub source: Vec<u8>,
    pub destinations: Vec<Vec<u8>>,
    pub purge: bool,
    pub overwrite: OverwriteMode,
    pub move_files: bool,
    pub threads: Option<usize>,
    pub buf_size: ByteSize,
    pub absolute_paths: bool,
    pub use_progress: bool,
    pub verification: Verification,
}

/// Why a job was rejected before any transfer started.
#[derive(Debug, Clone, Copy, PartialEq, Eq, Structural)]
pub enum InputError {
    /// The configured buffer size works out to zero bytes.
    ZeroBufferSize,
    /// The configured buffer size does not fit in a machine word.
    BufferTooLarge,
    /// No destination was given.
    NoDestination,
    /// Some destination coincides with the source.
    SourceIsDestination,
}

impl Cli {
    /// A thread limit, when given, is nonzero.
    pub open spec fn wf(self) -> bool {
        match self.threads {
            Some(t) => t >= 1,
            None => true,
        }
    }

    /// What `validate` answers: the first rule the job breaks, if any.
    pub open spec fn spec_validate(self) -> Result<(), InputError> {
        if !self.buf_size.fits() {
            Err(InputError::BufferTooLarge)
        } else if self.buf_size.spec_bytes() == 0 {
            Err(InputError::ZeroBufferSize)
        } else if self.destinations@.len() == 0 {
            Err(InputError::NoDestination)
        } else if exists|i: int|
            0 <= i < self.destinations@.len() && #[trigger] self.destinations@[i]@
                == self.source@ {
            Err(InputError::SourceIsDestination)
        } else {
            Ok(())
        }
    }

    /// Checks the job before any transfer starts: the buffer size must be
    /// nonzero and representable, at least one destination must be given,
    /// and no destination may coincide with the source.
    pub fn validate(&self) -> (r: Result<(), InputError>)
        ensures
            r == self.spec_validate(),
    {
        match self.buf_size.checked_to_bytes() {
            None => Err(InputError::BufferTooLarge),
            Some(0) => Err(InputError::ZeroBufferSize),
            Some(_) => {
                if self.destinations.len() == 0 {
                    Err(InputError::NoDestination)
                } else if contains_source(&self.destinations, &self.source) {
                    Err(InputError::SourceIsDestination)
                } else {
                    Ok(())
                }
            },
        }
    }

    /// The worker-pool size: the configured limit, or the number of
    /// processors the machine offers.
    pub fn thread_pool_size(&self) -> (r: usize)
        requires
            self.wf(),
        ensures
            r >= 1,
            match self.threads {
                Some(t) => r == t,
                None => true,
            },
    {
        match self.threads {
            Some(t) => t,
            None => detected_cpus(),
        }
    }

    /// The same job with overwriting forced on, as the retry pass runs it.
    pub fn forced_overwrite(self) -> (r: Cli)
        ensures
            r == (Cli { overwrite: OverwriteMode::Always, ..self }),
    {
        Cli { overwrite: OverwriteMode::Always, ..self }
    }
}

/// Whether some destination is the source path.
fn contains_source(destinations: &Vec<Vec<u8>>, source: &Vec<u8>) -> (r: bool)
    ensures
        r == exists|i: int|
            0 <= i < destinations@.len() && #[trigger] destinations@[i]@ == source@,
{
    let mut i: usize = 0;
    while i < destinations.len()
        invariant
            0 <= i <= destinations@.len(),
            forall|j: int| 0 <= j < i ==> #[trigger] destinations@[j]@ != source@,
        decreases destinations@.len() - i,
    {
        if bytes_eq(destinations[i].as_slice(), source.as_slice()) {
            return true;
        }
        i = i + 1;
    }
    false
}

/// Relies on num_cpus::get, which returns at least one whatever the
/// machine reports.
#[verifier::external_body]
fn detected_cpus() -> (n: usize)
    ensures
        n >= 1,
{
    num_cpus::get()
}

} // verus!
