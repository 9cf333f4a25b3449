//! Errors surfaced by store transactions.  Lookup failures name the
//! missing identifier and its parent chain; the remaining kinds cover
//! note addressing and unusable collaborator responses.

use vstd::prelude::*;

verus! {

/// Outcome of a store transaction that could not be applied.
#[derive(Debug, Clone, PartialEq, Eq)]
pub enum StoreError {
    /// No workspace carries this identifier.
    WorkspaceNotFound { workspace_id: u32 },
    /// The workspace exists, but none of its machines carries this
    /// identifier.
    MachineNotFound { workspace_id: u32, machine_id: u32 },
    /// The machine exists, but none of its ports carries this number.
    PortNotFound { workspace_id: u32, machine_id: u32, port_number: u16 },
    /// The note index is past the end of the port's note list.
    NoteIndexOutOfBounds { note_index: usize, note_count: usize },
    /// The note at this index is not of the variant whose content is
    /// editable in place.
    NoteNotEditable { note_index: usize },
    /// The scanning collaborator's response was not the sentinel and
    /// could not be read as a list of port descriptors.
    MalformedScanResponse,
}


impl StoreError {
    /// The descriptive text of this error, naming the missing
    /// identifier and its parent chain where one is missing.
    pub open spec fn message_text(&self) -> Seq<char> {
        match self {
            StoreError::WorkspaceNotFound { workspace_id } => "Workspace '"@ + crate::json::dec_digits(
                *workspace_id as u64,
            ) + "' not found"@,
            StoreError::MachineNotFound { workspace_id, machine_id } => "Machine '"@
                + crate::json::dec_digits(*machine_id as u64) + "' not found in workspace '"@
                + crate::json::dec_digits(*workspace_id as u64) + "'"@,
            StoreError::PortNotFound { workspace_id, machine_id, port_number } => "Port '"@
                + crate::json::dec_digits(*port_number as u64) + "' not found in machine '"@
                + crate::json::dec_digits(*machine_id as u64) + "' in workspace '"@
                + crate::json::dec_digits(*workspace_id as u64) + "'"@,
            StoreError::NoteIndexOutOfBounds { note_index: _, note_count: _ } => "Note index out of bounds"@,
            StoreError::NoteNotEditable { note_index: _ } => "Note at this index is not an editable observation"@,
            StoreError::MalformedScanResponse => "Failed to parse scan response"@,
        }
    }

    /// The descriptive text, built for the caller.
    pub fn message(&self) -> (t: String)
        ensures
            t@ == self.message_text(),
    {
        let mut out: Vec<char> = Vec::new();
        match self {
            StoreError::WorkspaceNotFound { workspace_id } => {
                crate::json::emit_lit("Workspace '", &mut out);
                crate::json::emit_u64(*workspace_id as u64, &mut out);
                crate::json::emit_lit("' not found", &mut out);
            },
            StoreError::MachineNotFound { workspace_id, machine_id } => {
                crate::json::emit_lit("Machine '", &mut out);
                crate::json::emit_u64(*machine_id as u64, &mut out);
                crate::json::emit_lit("' not found in workspace '", &mut out);
                crate::json::emit_u64(*workspace_id as u64, &mut out);
                crate::json::emit_lit("'", &mut out);
            },
            StoreError::PortNotFound { workspace_id, machine_id, port_number } => {
                crate::json::emit_lit("Port '", &mut out);
                crate::json::emit_u64(*port_number as u64, &mut out);
                crate::json::emit_lit("' not found in machine '", &mut out);
                crate::json::emit_u64(*machine_id as u64, &mut out);
                crate::json::emit_lit("' in workspace '", &mut out);
                crate::json::emit_u64(*workspace_id as u64, &mut out);
                crate::json::emit_lit("'", &mut out);
            },
            StoreError::NoteIndexOutOfBounds { note_index: _, note_count: _ } => {
                crate::json::emit_lit("Note index out of bounds", &mut out);
            },
            StoreError::NoteNotEditable { note_index: _ } => {
                crate::json::emit_lit("Note at this index is not an editable observation", &mut out);
            },
            StoreError::MalformedScanResponse => {
                crate::json::emit_lit("Failed to parse scan response", &mut out);
            },
        }
        proof {
            assert(out@ =~= self.message_text());
        }
        crate::json::string_from_chars(out)
    }
}

} // verus!
