//! The command surface's data: which operation is asked for and with what
//! inputs. Reading them from an actual command line is left to the binary
//! around the library.

use vstd::prelude::*;

use crate::chunk_type::ChunkType;

verus! {

/// A parsed command line: at most one operation to perform.
#[derive(Debug)]
pub struct Cli {
    pub command: Option<PngMeArgs>,
}

/// The operations the tool offers.
#[derive(Debug)]
pub enum PngMeArgs {
    /// Hides a message in a file.
    Encode(EncodeArgs),
    /// Reads a hidden message back from a file.
    Decode(DecodeArgs),
    /// Removes every chunk of a type from a file.
    Remove(RemoveArgs),
    /// Lists the chunks of a file.
    Print(PrintArgs),
}

/// Inputs of the encode operation.
#[derive(Debug)]
pub struct EncodeArgs {
    pub file_path: String,
    pub chunk_type: ChunkType,
    pub message: String,
    pub output_file: Option<String>,
}

/// Inputs of the decode operation.
#[derive(Debug)]
pub struct DecodeArgs {
    pub file_path: String,
    pub chunk_type: ChunkType,
}

/// Inputs of the remove operation.
#[derive(Debug)]
pub struct RemoveArgs {
    pub file_path: String,
    pub chunk_type: ChunkType,
}

/// Inputs of the print operation.
#[derive(Debug)]
pub struct PrintArgs {
    pub file_path: String,
}

} // verus!
