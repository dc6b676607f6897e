//! A device's validated mapping table.

use crate::canonical::is_sorted_form_of;
use crate::settings::{
    is_mapping_table, mapping_error, ConfigurationError, LedMapping, Settings,
};
use vstd::prelude::*;

verus! {

/// The mappings of one device in canonical order, known to be non-empty and
/// free of overlap on the target side. Read-only once built.
#[derive(Debug)]
pub struct MappingTable {
    entries: Vec<LedMapping>,
}

impl View for MappingTable {
    type V = Seq<LedMapping>;

    closed spec fn view(&self) -> Seq<LedMapping> {
        self.entries@
    }
}

impl MappingTable {
    #[verifier::type_invariant]
    spec fn well_formed(self) -> bool {
        is_mapping_table(self.entries@)
    }

    /// Builds the table of a device from its mappings, given in any order.
    pub fn new(mappings: Vec<LedMapping>) -> (outcome: Result<MappingTable, ConfigurationError>)
        ensures
            match outcome {
                Ok(table) => mapping_error(mappings@) is None && is_sorted_form_of(
                    table@,
                    mappings@,
                ) && is_mapping_table(table@),
                Err(e) => mapping_error(mappings@) == Some(e),
            },
    {
        let mut entries = mappings;
        match Settings::process_mappings(entries.as_mut_slice()) {
            Ok(()) => Ok(MappingTable { entries }),
            Err(e) => Err(e),
        }
    }

    /// The mappings in table order.
    pub fn as_slice(&self) -> (entries: &[LedMapping])
        ensures
            entries@ == self@,
            is_mapping_table(self@),
    {
        proof {
            use_type_invariant(self);
        }
        self.entries.as_slice()
    }

    /// The lowest target pixel that any mapping of the table starts at.
    pub fn first_target(&self) -> (lowest: u16)
        ensures
            is_mapping_table(self@),
            lowest == self@[0].target_start,
            forall|k: int| 0 <= k < self@.len() ==> lowest <= (#[trigger] self@[k]).target_start,
    {
        proof {
            use_type_invariant(self);
        }
        self.entries[0].target_start
    }

    /// The first target pixel past the last mapping of the table.
    pub fn target_end(&self) -> (end: u32)
        ensures
            is_mapping_table(self@),
            end == self@.last().target_end(),
            forall|k: int| 0 <= k < self@.len() ==> (#[trigger] self@[k]).target_end() <= end,
    {
        proof {
            use_type_invariant(self);
        }
        let last = self.entries[self.entries.len() - 1];
        let end = last.target_start as u32 + last.run_length() as u32;
        proof {
            assert forall|k: int| 0 <= k < self@.len() implies (#[trigger] self@[k]).target_end()
                <= end by {
                if k < self@.len() - 1 {
                    let _ = self@[self@.len() - 1];
                }
            }
        }
        end
    }
}

} // verus!
