use vstd::prelude::*;

verus! {

/// Balance, in lamports, given to the fee payer of a test execution by default.
pub const DEFAULT_FEE_PAYER_BALANCE: u64 = 80000;

/// Settings of a single-transaction execution.
#[derive(Clone, Copy, PartialEq, Eq, Structural, Debug)]
pub struct Settings {
    pub fee_payer_balance: u64,
}

impl Default for Settings {
    fn default() -> (r: Settings)
        ensures
            r.fee_payer_balance == DEFAULT_FEE_PAYER_BALANCE,
    {
        Settings { fee_payer_balance: DEFAULT_FEE_PAYER_BALANCE }
    }
}

/// Where the program to execute comes from.
#[derive(PartialEq, Eq, Debug)]
pub enum ProgramSource {
    /// The program's bytes, given directly.
    Buffer(Vec<u8>),
    /// A path to read the program's bytes from.
    Path(String),
}

/// Why no program could be chosen.
#[derive(Clone, Copy, PartialEq, Eq, Structural, Debug)]
pub enum BuilderError {
    /// Both a buffer and a path were given.
    BothSourcesSet,
    /// Neither a buffer nor a path was given.
    ProgramNotFound,
}

/// Chooses the program source: exactly one of a buffer and a path must be given.
pub fn select_program(buffer: Option<Vec<u8>>, path: Option<String>) -> (r: Result<ProgramSource, BuilderError>)
    ensures
        (buffer is Some && path is Some) <==> r == Err::<ProgramSource, BuilderError>(BuilderError::BothSourcesSet),
        (buffer is None && path is None) <==> r == Err::<ProgramSource, BuilderError>(BuilderError::ProgramNotFound),
        buffer is Some && path is None ==> (r matches Ok(ProgramSource::Buffer(b)) && b@ == buffer->Some_0@),
        buffer is None && path is Some ==> (r matches Ok(ProgramSource::Path(p)) && p@ == path->Some_0@),
{
    match (buffer, path) {
        (Some(_), Some(_)) => Err(BuilderError::BothSourcesSet),
        (Some(b), None) => Ok(ProgramSource::Buffer(b)),
        (None, Some(p)) => Ok(ProgramSource::Path(p)),
        (None, None) => Err(BuilderError::ProgramNotFound),
    }
}

} // verus!
