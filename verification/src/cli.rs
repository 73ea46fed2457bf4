//! The commands and what they take, as plain values.

use vstd::prelude::*;

verus! {

/// The size of a batch where none is given.
pub const DEFAULT_BATCH_SIZE: usize = 4194304;

/// A command with its arguments.
#[derive(Debug, PartialEq, Eq)]
pub enum Sub {
    /// Extract the string that stands under a key, from each line of a file
    /// of JSON objects.
    JsonArrayExtractKey { key: String, input: String, output: String },
    /// Extract the values that stand under some keys and give the SHA-256
    /// digest of them, for each line of a file of JSON objects.
    JsonArrayExtractSHA256 { keys: Vec<String>, input: String, output: String },
    /// Check that the lines of a file are sorted and that none occurs twice.
    VerifyStringSortedDistinct { input: String },
    /// Split the lines of two sorted files into those of the first only,
    /// those of the second only, and those of both.
    DiffSortedString {
        input_a: String,
        input_b: String,
        output_a_minus_b: String,
        output_b_minus_a: String,
        output_intersect: String,
    },
    /// The same split, for files that need not be sorted.
    DiffSortedStringNaive {
        input_a: String,
        input_b: String,
        output_a_minus_b: String,
        output_b_minus_a: String,
        output_intersect: String,
    },
    /// Sort the lines of a file through runs in an intermediate file.
    ExternalSort { input: String, output: String, intermediate: String, batch_size: usize },
}

impl Sub {
    /// A sort needs batches of at least one line; the other commands take
    /// any arguments.
    pub open spec fn well_formed(&self) -> bool {
        match self {
            Sub::ExternalSort { batch_size, .. } => *batch_size >= 1,
            _ => true,
        }
    }

    /// Whether the command can be carried out with the arguments it has.
    pub fn is_well_formed(&self) -> (ok: bool)
        ensures
            ok == self.well_formed(),
    {
        match self {
            Sub::ExternalSort { batch_size, .. } => *batch_size >= 1,
            _ => true,
        }
    }
}

/// What the command line holds: one command.
#[derive(Debug, PartialEq, Eq)]
pub struct Cli {
    pub sub: Sub,
}

impl Cli {
    /// The command line that holds `sub`.
    pub fn new(sub: Sub) -> (cli: Self)
        ensures
            cli.sub == sub,
    {
        Cli { sub }
    }

    /// The command, taken out.
    pub fn into_sub(self) -> (sub: Sub)
        ensures
            sub == self.sub,
    {
        self.sub
    }
}

} // verus!
