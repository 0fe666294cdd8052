use vstd::prelude::*;

verus! {

/// The ways in which an operation of the index can fail.
#[derive(Clone, Copy, Debug, PartialEq, Eq, Structural)]
pub enum EngineError {
    /// A store was to be created where one already exists.
    AlreadyExists,
    /// A store was to be opened where none has been created.
    NotFound,
    /// The persisted state of a store is not the image of any snapshot.
    Corrupt,
    /// A document was staged whose id is already staged in the same batch.
    DuplicateStaged,
    /// The storage layer could not complete a write.
    IOFailure,
    /// A report was asked for a text that is no facet path.
    UnknownPrefix,
}

impl EngineError {
    /// A short description of the error, for messages.
    pub fn message(&self) -> (text: &'static str)
        ensures
            text@ == match *self {
                EngineError::AlreadyExists => "a store already exists at this location"@,
                EngineError::NotFound => "no store exists at this location"@,
                EngineError::Corrupt => "the persisted store is corrupt"@,
                EngineError::DuplicateStaged => "a document with this id is already staged"@,
                EngineError::IOFailure => "the store could not be persisted"@,
                EngineError::UnknownPrefix => "the prefix is not a facet path"@,
            },
    {
        match self {
            EngineError::AlreadyExists => "a store already exists at this location",
            EngineError::NotFound => "no store exists at this location",
            EngineError::Corrupt => "the persisted store is corrupt",
            EngineError::DuplicateStaged => "a document with this id is already staged",
            EngineError::IOFailure => "the store could not be persisted",
            EngineError::UnknownPrefix => "the prefix is not a facet path",
        }
    }
}

} // verus!
