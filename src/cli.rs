//! The operations a participant can run, as plain values; argument parsing
//! itself lives with the program.

use vstd::prelude::*;

verus! {

/// A parsed command line.
#[derive(Clone, Debug)]
pub struct Cli {
    pub command: Commands,
}

/// The ceremony operations, each with the working directory it acts on.
#[derive(Clone, Debug)]
pub enum Commands {
    GenerateThresholdPublicKeyRound1 { threshold: u16, participant: u16, files: String },
    GenerateThresholdPublicKeyRound2 { participant: u16, files: String },
    ThresholdSignRound1 { participant: u16, files: String },
    ThresholdSignRound2 {
        participant: u16,
        files: String,
        url: String,
        pallet: String,
        call_name: String,
        call_data: String,
        context: String,
    },
    AggregateThresholdSignature { files: String },
    SubmitThresholdExtrinsic { files: String },
}

/// A failure reported to the operator, in words.
#[derive(Clone, Debug)]
pub struct CliError(pub String);

/// What a node reports of an account.
#[derive(Clone, PartialEq, Eq, Debug)]
pub struct AccountInfo {
    pub frontier: String,
    pub block_count: String,
    pub balance: String,
}

} // verus!
