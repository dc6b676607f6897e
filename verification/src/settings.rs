//! Configured devices and the pixel runs that feed them.

use crate::canonical::{
    arranged, comes_before, is_canonical_order, is_inverse, is_sorted_form_of,
    sort_by_target_start,
};
use vstd::prelude::*;
use vstd::string::StringExecFns;

verus! {

/// Why a set of mappings cannot serve as a device's mapping table.
#[derive(Clone, Copy, Debug, PartialEq, Eq, Structural)]
pub enum ConfigurationError {
    /// The device was given no mapping at all.
    EmptyMappingSet,
    /// A mapping starts on the target before an earlier one has ended.
    OverlappingTargetRanges,
}

impl ConfigurationError {
    /// The complaint in words, as it is shown to whoever wrote the
    /// configuration.
    pub open spec fn complaint(self) -> Seq<char> {
        match self {
            ConfigurationError::EmptyMappingSet => {
                "There has to be at least one mapping per device!"@
            },
            ConfigurationError::OverlappingTargetRanges => {
                "Overlapping target ranges are not allowed!"@
            },
        }
    }

    /// The complaint in words.
    pub fn message(&self) -> (text: String)
        ensures
            text@ == self.complaint(),
    {
        match self {
            ConfigurationError::EmptyMappingSet => String::from_str(
                "There has to be at least one mapping per device!",
            ),
            ConfigurationError::OverlappingTargetRanges => String::from_str(
                "Overlapping target ranges are not allowed!",
            ),
        }
    }
}

/// A contiguous run of source pixels copied onto a contiguous run of target
/// pixels, optionally laid down back to front on the target side.
#[derive(Clone, Copy, Debug, PartialEq, Eq, Structural)]
pub struct LedMapping {
    pub source_start: u16,
    pub target_start: u16,
    pub length: Option<u16>,
    pub reverse: Option<bool>,
}

impl LedMapping {
    /// Number of pixels in the run; an absent length means one pixel.
    pub open spec fn len(self) -> int {
        match self.length {
            Some(n) => n as int,
            None => 1,
        }
    }

    /// Whether the run is laid down back to front; absent means forward.
    pub open spec fn reversed(self) -> bool {
        match self.reverse {
            Some(r) => r,
            None => false,
        }
    }

    /// First target pixel past the run.
    pub open spec fn target_end(self) -> int {
        self.target_start + self.len()
    }

    /// First source pixel past the run.
    pub open spec fn source_end(self) -> int {
        self.source_start + self.len()
    }

    /// Whether target pixel `p` lies in the run that the mapping fills.
    pub open spec fn covers(self, p: int) -> bool {
        self.target_start <= p < self.target_end()
    }

    /// The target pixel on which the `i`-th source pixel of the run lands:
    /// the source run is read forward, and a reversed run is laid down from
    /// its far end.
    pub open spec fn placement(self, i: int) -> int {
        if self.reversed() {
            self.target_start + (self.len() - 1 - i)
        } else {
            self.target_start + i
        }
    }

    /// The source pixel that the mapping shows at target pixel `p`.
    pub open spec fn source_of(self, p: int) -> int {
        if self.reversed() {
            self.source_start + (self.target_end() - 1 - p)
        } else {
            self.source_start + (p - self.target_start)
        }
    }

    /// Number of pixels in the run.
    pub fn run_length(&self) -> (n: u16)
        ensures
            n == self.len(),
    {
        match self.length {
            Some(n) => n,
            None => 1,
        }
    }

    /// Whether the run is laid down back to front.
    pub fn is_reversed(&self) -> (r: bool)
        ensures
            r == self.reversed(),
    {
        match self.reverse {
            Some(r) => r,
            None => false,
        }
    }

    /// The target pixel on which the `i`-th source pixel of the run lands,
    /// for both directions; nothing for an `i` beyond the run.
    pub fn target_index(&self, i: u16) -> (landing: Option<u32>)
        ensures
            landing == (if i < self.len() {
                Some(self.placement(i as int) as u32)
            } else {
                None
            }),
            i < self.len() ==> self.placement(i as int) <= u32::MAX,
    {
        let len = self.run_length();
        if i >= len {
            None
        } else if self.is_reversed() {
            Some(self.target_start as u32 + (len - 1 - i) as u32)
        } else {
            Some(self.target_start as u32 + i as u32)
        }
    }
}

/// Whether some mapping of `input` starts on the target before a mapping
/// that is placed ahead of it has ended.
pub open spec fn has_conflict(input: Seq<LedMapping>) -> bool {
    exists|a: int, b: int|
        0 <= a < input.len() && 0 <= b < input.len() && #[trigger] comes_before(input, a, b)
            && input[b].target_start < input[a].target_end()
}

/// What, if anything, keeps `input` from becoming a mapping table.
pub open spec fn mapping_error(input: Seq<LedMapping>) -> Option<ConfigurationError> {
    if input.len() == 0 {
        Some(ConfigurationError::EmptyMappingSet)
    } else if has_conflict(input) {
        Some(ConfigurationError::OverlappingTargetRanges)
    } else {
        None
    }
}

/// Every mapping ends on the target no later than each following one starts.
pub open spec fn ranges_in_order(table: Seq<LedMapping>) -> bool {
    forall|i: int, j: int|
        0 <= i < j < table.len() ==> (#[trigger] table[i]).target_end() <= (
        #[trigger] table[j]).target_start
}

/// A mapping table: at least one mapping, with target ranges in order.
pub open spec fn is_mapping_table(table: Seq<LedMapping>) -> bool {
    table.len() > 0 && ranges_in_order(table)
}

/// In a mapping table no target pixel is filled by two mappings.
pub proof fn lemma_table_ranges_are_disjoint(table: Seq<LedMapping>, i: int, j: int, p: int)
    requires
        is_mapping_table(table),
        0 <= i < table.len(),
        0 <= j < table.len(),
        i != j,
    ensures
        !(table[i].covers(p) && table[j].covers(p)),
{
    if i < j {
        assert(table[i].target_end() <= table[j].target_start);
    } else {
        assert(table[j].target_end() <= table[i].target_start);
    }
}

/// Mappings of which two fill a common target pixel never become a table:
/// they are refused as overlapping, whatever their order.
pub proof fn lemma_overlap_is_refused(input: Seq<LedMapping>, a: int, b: int, p: int)
    requires
        0 <= a < input.len(),
        0 <= b < input.len(),
        a != b,
        input[a].covers(p),
        input[b].covers(p),
    ensures
        mapping_error(input) == Some(ConfigurationError::OverlappingTargetRanges),
{
    if comes_before(input, a, b) {
        assert(input[b].target_start < input[a].target_end());
    } else {
        assert(comes_before(input, b, a));
        assert(input[a].target_start < input[b].target_end());
    }
}

/// A binary-protocol device: where its datagrams go, the pixel runs it shows
/// and the full length of its strip.
#[derive(Clone, Debug)]
pub struct Wled {
    pub url: String,
    pub mappings: Vec<LedMapping>,
    pub number_of_leds: u16,
}

/// A text-protocol device: the prefix of its channel name and the pixel runs
/// it shows.
#[derive(Clone, Debug)]
pub struct TextDevice {
    pub topic_prefix: String,
    pub mappings: Vec<LedMapping>,
}

/// The whole configuration: where frames arrive and which devices they feed.
#[derive(Clone, Debug)]
pub struct Settings {
    pub udp_bind_address: String,
    pub receive_buffer_size: Option<u32>,
    pub text_devices: Vec<TextDevice>,
    pub wleds: Vec<Wled>,
}

/// The mapping sets of all devices, text devices first, in the order in which
/// they are validated.
pub open spec fn mapping_sets(text_devices: Seq<TextDevice>, wleds: Seq<Wled>) -> Seq<
    Seq<LedMapping>,
> {
    Seq::new(
        text_devices.len() + wleds.len(),
        |k: int|
            if k < text_devices.len() {
                text_devices[k].mappings@
            } else {
                wleds[k - text_devices.len()].mappings@
            },
    )
}

/// The receive buffer size that is used where the configuration names none.
pub const DEFAULT_RECEIVE_BUFFER_SIZE: u32 = 2048;

impl Settings {
    /// Whether every device's mappings form a mapping table.
    pub open spec fn well_formed(&self) -> bool {
        forall|k: int|
            0 <= k < self.text_devices@.len() + self.wleds@.len() ==> is_mapping_table(
                #[trigger] mapping_sets(self.text_devices@, self.wleds@)[k],
            )
    }

    /// Puts a configuration together, bringing every device's mappings into
    /// canonical order. The first device whose mappings form no mapping
    /// table, text devices before binary ones, has the configuration refused.
    pub fn new(
        udp_bind_address: String,
        receive_buffer_size: Option<u32>,
        text_devices: Vec<TextDevice>,
        wleds: Vec<Wled>,
    ) -> (outcome: Result<Settings, ConfigurationError>)
        ensures
            match outcome {
                Ok(settings) => {
                    &&& forall|k: int|
                        0 <= k < text_devices@.len() + wleds@.len() ==> mapping_error(
                            #[trigger] mapping_sets(text_devices@, wleds@)[k],
                        ) is None
                    &&& settings.well_formed()
                    &&& settings.udp_bind_address@ == udp_bind_address@
                    &&& settings.receive_buffer_size == receive_buffer_size
                    &&& settings.text_devices@.len() == text_devices@.len()
                    &&& settings.wleds@.len() == wleds@.len()
                    &&& forall|i: int|
                        0 <= i < text_devices@.len() ==> {
                            &&& (#[trigger] settings.text_devices@[i]).topic_prefix@
                                == text_devices@[i].topic_prefix@
                            &&& is_sorted_form_of(
                                settings.text_devices@[i].mappings@,
                                text_devices@[i].mappings@,
                            )
                        }
                    &&& forall|i: int|
                        0 <= i < wleds@.len() ==> {
                            &&& (#[trigger] settings.wleds@[i]).url@ == wleds@[i].url@
                            &&& settings.wleds@[i].number_of_leds == wleds@[i].number_of_leds
                            &&& is_sorted_form_of(settings.wleds@[i].mappings@, wleds@[i].mappings@)
                        }
                },
                Err(e) => exists|k: int|
                    {
                        &&& 0 <= k < text_devices@.len() + wleds@.len()
                        &&& mapping_error(#[trigger] mapping_sets(text_devices@, wleds@)[k])
                            == Some(e)
                        &&& forall|j: int|
                            0 <= j < k ==> mapping_error(
                                #[trigger] mapping_sets(text_devices@, wleds@)[j],
                            ) is None
                    },
            },
    {
        let ghost sets = mapping_sets(text_devices@, wleds@);
        let mut texts = text_devices;
        let mut binaries = wleds;
        let text_count = texts.len();
        let binary_count = binaries.len();
        let mut i: usize = 0;
        while i < text_count
            invariant
                i <= text_count,
                text_count == text_devices@.len(),
                texts@.len() == text_count,
                sets == mapping_sets(text_devices@, wleds@),
                forall|j: int| i <= j < text_count ==> texts@[j] == text_devices@[j],
                forall|j: int| 0 <= j < i ==> mapping_error(#[trigger] sets[j]) is None,
                forall|j: int|
                    0 <= j < i ==> {
                        &&& (#[trigger] texts@[j]).topic_prefix@ == text_devices@[j].topic_prefix@
                        &&& is_sorted_form_of(texts@[j].mappings@, text_devices@[j].mappings@)
                        &&& is_mapping_table(texts@[j].mappings@)
                    },
            decreases text_count - i,
        {
            match Settings::process_mappings(texts[i].mappings.as_mut_slice()) {
                Ok(()) => {},
                Err(e) => {
                    proof {
                        assert(mapping_error(sets[i as int]) == Some(e));
                    }
                    return Err(e);
                },
            }
            i += 1;
        }
        let mut i: usize = 0;
        while i < binary_count
            invariant
                i <= binary_count,
                binary_count == wleds@.len(),
                text_count == text_devices@.len(),
                binaries@.len() == binary_count,
                sets == mapping_sets(text_devices@, wleds@),
                forall|j: int| i <= j < binary_count ==> binaries@[j] == wleds@[j],
                forall|j: int|
                    0 <= j < text_count + i ==> mapping_error(#[trigger] sets[j]) is None,
                forall|j: int|
                    0 <= j < i ==> {
                        &&& (#[trigger] binaries@[j]).url@ == wleds@[j].url@
                        &&& binaries@[j].number_of_leds == wleds@[j].number_of_leds
                        &&& is_sorted_form_of(binaries@[j].mappings@, wleds@[j].mappings@)
                        &&& is_mapping_table(binaries@[j].mappings@)
                    },
            decreases binary_count - i,
        {
            match Settings::process_mappings(binaries[i].mappings.as_mut_slice()) {
                Ok(()) => {},
                Err(e) => {
                    proof {
                        assert(mapping_error(sets[text_count + i]) == Some(e));
                    }
                    return Err(e);
                },
            }
            proof {
                assert(sets[text_count + i] == wleds@[i as int].mappings@);
            }
            i += 1;
        }
        let settings = Settings {
            udp_bind_address,
            receive_buffer_size,
            text_devices: texts,
            wleds: binaries,
        };
        proof {
            let total = settings.text_devices@.len() + settings.wleds@.len();
            assert forall|k: int| 0 <= k < total implies is_mapping_table(
                #[trigger] mapping_sets(settings.text_devices@, settings.wleds@)[k],
            ) by {
                if k < text_count {
                    let _ = texts@[k];
                } else {
                    let _ = binaries@[k - text_count];
                }
            }
        }
        Ok(settings)
    }

    /// The size of the receive buffer: the configured one, or the default.
    pub fn receive_capacity(&self) -> (capacity: usize)
        ensures
            capacity == match self.receive_buffer_size {
                Some(size) => size as usize,
                None => DEFAULT_RECEIVE_BUFFER_SIZE as usize,
            },
    {
        match self.receive_buffer_size {
            Some(size) => size as usize,
            None => DEFAULT_RECEIVE_BUFFER_SIZE as usize,
        }
    }

    /// Brings one device's mappings into canonical order and checks that they
    /// form a mapping table.
    pub fn process_mappings(mappings: &mut [LedMapping]) -> (outcome: Result<
        (),
        ConfigurationError,
    >)
        ensures
            is_sorted_form_of(final(mappings)@, old(mappings)@),
            outcome == match mapping_error(old(mappings)@) {
                Some(e) => Err::<(), ConfigurationError>(e),
                None => Ok::<(), ConfigurationError>(()),
            },
            outcome is Ok ==> is_mapping_table(final(mappings)@),
    {
        let ghost input = mappings@;
        if mappings.len() == 0 {
            proof {
                let none = Seq::<int>::empty();
                assert(is_canonical_order(none, input));
                assert(is_inverse(none, none));
                assert(mappings@ =~= arranged(input, none));
            }
            return Err(ConfigurationError::EmptyMappingSet);
        }
        let found = sort_by_target_start(mappings);
        let ghost order = found@.0;
        let ghost places = found@.1;
        let n = mappings.len();
        let mut cursor: u32 = 0;
        let mut i: usize = 0;
        while i < n
            invariant
                i <= n,
                n == mappings@.len(),
                input == old(mappings)@,
                n == input.len(),
                n > 0,
                is_canonical_order(order, input),
                is_inverse(places, order),
                mappings@ == arranged(input, order),
                i == 0 ==> cursor == 0,
                i > 0 ==> cursor == mappings@[i - 1].target_end(),
                forall|a: int, b: int|
                    0 <= a < b < i ==> (#[trigger] mappings@[a]).target_end() <= (
                    #[trigger] mappings@[b]).target_start,
            decreases n - i,
        {
            let m = mappings[i];
            if (m.target_start as u32) < cursor {
                proof {
                    assert(comes_before(input, order[i - 1], order[i as int]));
                    assert(has_conflict(input));
                }
                return Err(ConfigurationError::OverlappingTargetRanges);
            }
            proof {
                assert forall|a: int, b: int| 0 <= a < b < i + 1 implies (
                #[trigger] mappings@[a]).target_end() <= (
                #[trigger] mappings@[b]).target_start by {
                    if b == i && a < i - 1 {
                        let _ = mappings@[i - 1];
                    }
                }
            }
            cursor = m.target_start as u32 + m.run_length() as u32;
            i += 1;
        }
        proof {
            assert forall|a: int, b: int|
                0 <= a < input.len() && 0 <= b < input.len() && #[trigger] comes_before(
                    input,
                    a,
                    b,
                ) implies input[b].target_start >= input[a].target_end() by {
                let pa = places[a];
                let pb = places[b];
                assert(mappings@[pa] == input[a]);
                assert(mappings@[pb] == input[b]);
                if pb < pa {
                    assert(comes_before(input, order[pb], order[pa]));
                }
            }
        }
        Ok(())
    }
}

} // verus!
