//! Request and response values, the error taxonomy, and the generation
//! length bounds.

use vstd::prelude::*;

verus! {

/// Everything an operation can report.
#[derive(Debug)]
pub enum Error {
    /// A train call against a read-only brain.
    ReadOnly,
    /// A generate call against a chain with no start tokens.
    NotEnoughState,
    /// The backing file could not be rotated to its backup path.
    CannotRotate { file: String, reason: String },
    /// The chain could not be serialized or written.
    CannotSave { file: String, reason: String },
    /// A brain with this name is already registered.
    AlreadyExists { name: String },
    /// No brain with this name is registered.
    NotFound,
}

/// Options of a generate request.
#[derive(Debug)]
pub struct GenerateOptions {
    pub context: Option<String>,
    pub min: Option<usize>,
    pub max: Option<usize>,
}

impl GenerateOptions {
    /// The requested smallest utterance length, 5 when unset.
    pub open spec fn min_or_default(&self) -> int {
        match self.min {
            Some(v) => v as int,
            None => 5,
        }
    }

    /// The requested largest utterance length, 30 when unset.
    pub open spec fn max_or_default(&self) -> int {
        match self.max {
            Some(v) => v as int,
            None => 30,
        }
    }

    /// The query text handed to generation, as its UTF-8 bytes.
    pub open spec fn context_bytes(&self) -> Option<Seq<u8>> {
        match self.context {
            Some(c) => Some(vstd::utf8::encode_utf8(c@)),
            None => None,
        }
    }
}

/// Body of a train request.
#[derive(Debug)]
pub struct TrainData {
    pub data: String,
}

/// Body of a create request.
#[derive(Debug)]
pub struct NewBrain {
    pub brain_file: String,
    pub depth: usize,
}

/// A generated utterance.
#[derive(Debug)]
pub struct Generated {
    pub name: String,
    pub data: String,
}

/// A completed save, with the time the serialization took.
#[derive(Debug)]
pub struct Saved {
    pub name: String,
    pub time_ms: u64,
}

impl PartialEq for Saved {
    /// Two save reports are the same if they name the same file; the timing
    /// is incidental.
    fn eq(&self, other: &Self) -> (r: bool) {
        self.name == other.name
    }
}

impl vstd::std_specs::cmp::PartialEqSpecImpl for Saved {
    open spec fn obeys_eq_spec() -> bool {
        true
    }

    open spec fn eq_spec(&self, other: &Saved) -> bool {
        self.name@ == other.name@
    }
}

/// A completed training pass, with the time it took.
#[derive(Debug)]
pub struct Trained {
    pub data: String,
    pub time_ms: u64,
}

impl PartialEq for Trained {
    /// Two train reports are the same if they trained the same text.
    fn eq(&self, other: &Self) -> (r: bool) {
        self.data == other.data
    }
}

impl vstd::std_specs::cmp::PartialEqSpecImpl for Trained {
    open spec fn obeys_eq_spec() -> bool {
        true
    }

    open spec fn eq_spec(&self, other: &Trained) -> bool {
        self.data@ == other.data@
    }
}

/// A newly created brain.
#[derive(Debug)]
pub struct Created {
    pub name: String,
    pub brain_file: String,
}

/// One row of a listing.
#[derive(Debug)]
pub struct ListItem {
    pub name: String,
    pub brain_file: String,
    pub read_only: bool,
}

/// A point-in-time listing of the registry.
#[derive(Debug)]
pub struct List {
    pub brains: Vec<ListItem>,
    pub config_path: String,
}

/// The smallest utterance length asked of generation.
#[derive(Debug)]
pub struct Min(pub usize);

impl Default for Min {
    fn default() -> (r: Min)
        ensures
            r.0 == 1,
    {
        Min(1)
    }
}

/// The largest utterance length asked of generation.
#[derive(Debug)]
pub struct Max(pub usize);

impl Default for Max {
    fn default() -> (r: Max)
        ensures
            r.0 == 30,
    {
        Max(30)
    }
}

} // verus!
