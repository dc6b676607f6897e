//! The devices that frames are fanned out to, and what each is sent.

use crate::binary::{binary_packets, encode_binary};
use crate::canonical::is_sorted_form_of;
use crate::remap::{remap, remap_error, remapped, RemapError};
use crate::settings::{
    is_mapping_table, mapping_error, mapping_sets, ConfigurationError, LedMapping, Settings,
    TextDevice, Wled,
};
use crate::table::MappingTable;
use crate::text::{channel_name, channel_of, encode_hex, hex_payload};
use vstd::prelude::*;
use vstd::slice::{slice_subrange, slice_to_vec};

verus! {

/// One downstream controller with its validated mapping table.
#[derive(Debug)]
pub enum Device {
    /// Takes one hex-colour payload per frame on a named channel.
    Text { topic_prefix: String, table: MappingTable },
    /// Takes raw-pixel datagrams for a strip of fixed length.
    Binary { address: String, table: MappingTable, number_of_leds: u16 },
}

/// What a device is, as plain values.
pub enum DeviceModel {
    Text { topic_prefix: Seq<char>, table: Seq<LedMapping> },
    Binary { address: Seq<char>, table: Seq<LedMapping>, number_of_leds: u16 },
}

impl View for Device {
    type V = DeviceModel;

    open spec fn view(&self) -> DeviceModel {
        match self {
            Device::Text { topic_prefix, table } => DeviceModel::Text {
                topic_prefix: topic_prefix@,
                table: table@,
            },
            Device::Binary { address, table, number_of_leds } => DeviceModel::Binary {
                address: address@,
                table: table@,
                number_of_leds: *number_of_leds,
            },
        }
    }
}

/// Something to hand to a transport.
#[derive(Clone, Debug, PartialEq, Eq)]
pub enum Transmission {
    /// A payload for the publish client.
    Publish { topic: String, payload: String },
    /// A datagram for the given address.
    Datagram { address: String, packet: Vec<u8> },
}

/// What a transmission is, as plain values.
pub enum Message {
    Publish { topic: Seq<char>, payload: Seq<char> },
    Datagram { address: Seq<char>, packet: Seq<u8> },
}

impl View for Transmission {
    type V = Message;

    open spec fn view(&self) -> Message {
        match self {
            Transmission::Publish { topic, payload } => Message::Publish {
                topic: topic@,
                payload: payload@,
            },
            Transmission::Datagram { address, packet } => Message::Datagram {
                address: address@,
                packet: packet@,
            },
        }
    }
}

/// What the text device with the given prefix and table is sent for `frame`:
/// one payload for the pixels from its lowest target to the end of its last
/// mapping, on the channel named after the lowest target.
pub open spec fn text_messages(topic_prefix: Seq<char>, table: Seq<LedMapping>, frame: Seq<u8>)
    -> Result<Seq<Message>, RemapError> {
    let lowest = table[0].target_start as int;
    let end = table.last().target_end();
    match remap_error(frame.len() as int, table, end) {
        Some(e) => Err(e),
        None => Ok(
            seq![
                Message::Publish {
                    topic: channel_of(topic_prefix, lowest),
                    payload: hex_payload(remapped(frame, table, end as nat).skip(3 * lowest)),
                },
            ],
        ),
    }
}

/// What the binary device with the given address, table and strip length is
/// sent for `frame`: the datagrams for its whole strip, in order.
pub open spec fn binary_messages(
    address: Seq<char>,
    table: Seq<LedMapping>,
    number_of_leds: u16,
    frame: Seq<u8>,
) -> Result<Seq<Message>, RemapError> {
    match remap_error(frame.len() as int, table, number_of_leds as int) {
        Some(e) => Err(e),
        None => Ok(
            binary_packets(remapped(frame, table, number_of_leds as nat)).map_values(
                |packet: Seq<u8>| Message::Datagram { address, packet },
            ),
        ),
    }
}

/// What `device` is sent for `frame`, or why the frame cannot be laid out
/// for it.
pub open spec fn device_messages(device: DeviceModel, frame: Seq<u8>) -> Result<
    Seq<Message>,
    RemapError,
> {
    match device {
        DeviceModel::Text { topic_prefix, table } => text_messages(topic_prefix, table, frame),
        DeviceModel::Binary { address, table, number_of_leds } => binary_messages(
            address,
            table,
            number_of_leds,
            frame,
        ),
    }
}

/// Whether `device` is the text device that `config` describes: its prefix,
/// and its mappings in canonical order.
pub open spec fn is_text_device_of(device: DeviceModel, config: TextDevice) -> bool {
    &&& device matches DeviceModel::Text { topic_prefix, table }
    &&& topic_prefix == config.topic_prefix@
    &&& is_sorted_form_of(table, config.mappings@)
    &&& is_mapping_table(table)
}

/// Whether `device` is the binary device that `config` describes: its
/// address and strip length, and its mappings in canonical order.
pub open spec fn is_binary_device_of(device: DeviceModel, config: Wled) -> bool {
    &&& device matches DeviceModel::Binary { address, table, number_of_leds }
    &&& address == config.url@
    &&& number_of_leds == config.number_of_leds
    &&& is_sorted_form_of(table, config.mappings@)
    &&& is_mapping_table(table)
}

/// Whether `device` is what the `k`-th device of a configuration becomes: a
/// text device for each configured text device, then a binary device for
/// each configured one.
pub open spec fn is_device_of(
    device: DeviceModel,
    text_devices: Seq<TextDevice>,
    wleds: Seq<Wled>,
    k: int,
) -> bool {
    if k < text_devices.len() {
        is_text_device_of(device, text_devices[k])
    } else {
        is_binary_device_of(device, wleds[k - text_devices.len()])
    }
}

/// Makes the devices that a configuration describes: the text devices in
/// their order, then the binary ones in theirs. The first device whose
/// mappings form no mapping table has the configuration refused.
pub fn configured_devices(settings: &Settings) -> (outcome: Result<Vec<Device>, ConfigurationError>)
    ensures
        match outcome {
            Ok(devices) => {
                &&& devices@.len() == settings.text_devices@.len() + settings.wleds@.len()
                &&& forall|k: int|
                    0 <= k < devices@.len() ==> mapping_error(
                        #[trigger] mapping_sets(settings.text_devices@, settings.wleds@)[k],
                    ) is None
                &&& forall|k: int|
                    0 <= k < devices@.len() ==> is_device_of(
                        (#[trigger] devices@[k])@,
                        settings.text_devices@,
                        settings.wleds@,
                        k,
                    )
            },
            Err(e) => exists|k: int|
                {
                    &&& 0 <= k < settings.text_devices@.len() + settings.wleds@.len()
                    &&& mapping_error(
                        #[trigger] mapping_sets(settings.text_devices@, settings.wleds@)[k],
                    ) == Some(e)
                    &&& forall|j: int|
                        0 <= j < k ==> mapping_error(
                            #[trigger] mapping_sets(settings.text_devices@, settings.wleds@)[j],
                        ) is None
                },
        },
{
    let ghost sets = mapping_sets(settings.text_devices@, settings.wleds@);
    let text_count = settings.text_devices.len();
    let binary_count = settings.wleds.len();
    let mut devices: Vec<Device> = Vec::new();
    let mut i: usize = 0;
    while i < text_count
        invariant
            i <= text_count,
            text_count == settings.text_devices@.len(),
            devices@.len() == i,
            sets == mapping_sets(settings.text_devices@, settings.wleds@),
            forall|k: int| 0 <= k < i ==> mapping_error(#[trigger] sets[k]) is None,
            forall|k: int|
                0 <= k < i ==> is_device_of(
                    (#[trigger] devices@[k])@,
                    settings.text_devices@,
                    settings.wleds@,
                    k,
                ),
        decreases text_count - i,
    {
        match Device::text(&settings.text_devices[i]) {
            Ok(device) => devices.push(device),
            Err(e) => {
                proof {
                    assert(mapping_error(sets[i as int]) == Some(e));
                }
                return Err(e);
            },
        }
        proof {
            assert(sets[i as int] == settings.text_devices@[i as int].mappings@);
        }
        i += 1;
    }
    let mut i: usize = 0;
    while i < binary_count
        invariant
            i <= binary_count,
            text_count == settings.text_devices@.len(),
            binary_count == settings.wleds@.len(),
            devices@.len() == text_count + i,
            sets == mapping_sets(settings.text_devices@, settings.wleds@),
            forall|k: int| 0 <= k < text_count + i ==> mapping_error(#[trigger] sets[k]) is None,
            forall|k: int|
                0 <= k < text_count + i ==> is_device_of(
                    (#[trigger] devices@[k])@,
                    settings.text_devices@,
                    settings.wleds@,
                    k,
                ),
        decreases binary_count - i,
    {
        match Device::binary(&settings.wleds[i]) {
            Ok(device) => devices.push(device),
            Err(e) => {
                proof {
                    assert(mapping_error(sets[text_count + i]) == Some(e));
                }
                return Err(e);
            },
        }
        proof {
            assert(sets[text_count + i] == settings.wleds@[i as int].mappings@);
        }
        i += 1;
    }
    Ok(devices)
}

impl Device {
    /// Makes the device that a configured text device describes.
    pub fn text(config: &TextDevice) -> (outcome: Result<Device, ConfigurationError>)
        ensures
            match outcome {
                Ok(device) => mapping_error(config.mappings@) is None && is_text_device_of(
                    device@,
                    *config,
                ),
                Err(e) => mapping_error(config.mappings@) == Some(e),
            },
    {
        match MappingTable::new(slice_to_vec(config.mappings.as_slice())) {
            Ok(table) => Ok(Device::Text { topic_prefix: config.topic_prefix.clone(), table }),
            Err(e) => Err(e),
        }
    }

    /// Makes the device that a configured binary device describes.
    pub fn binary(config: &Wled) -> (outcome: Result<Device, ConfigurationError>)
        ensures
            match outcome {
                Ok(device) => mapping_error(config.mappings@) is None && is_binary_device_of(
                    device@,
                    *config,
                ),
                Err(e) => mapping_error(config.mappings@) == Some(e),
            },
    {
        match MappingTable::new(slice_to_vec(config.mappings.as_slice())) {
            Ok(table) => Ok(
                Device::Binary {
                    address: config.url.clone(),
                    table,
                    number_of_leds: config.number_of_leds,
                },
            ),
            Err(e) => Err(e),
        }
    }

    /// Lays `frame` out for this device and frames it in the device's wire
    /// format.
    pub fn transmissions(&self, frame: &[u8]) -> (outcome: Result<Vec<Transmission>, RemapError>)
        ensures
            match outcome {
                Ok(sent) => device_messages(self@, frame@) is Ok && sent@.len()
                    == device_messages(self@, frame@)->Ok_0.len() && forall|k: int|
                    0 <= k < sent@.len() ==> (#[trigger] sent@[k])@ == device_messages(
                        self@,
                        frame@,
                    )->Ok_0[k],
                Err(e) => device_messages(self@, frame@) == Err::<Seq<Message>, RemapError>(e),
            },
    {
        match self {
            Device::Text { topic_prefix, table } => {
                let lowest = table.first_target();
                let end = table.target_end();
                match remap(frame, table, end as usize) {
                    Err(e) => Err(e),
                    Ok(buffer) => {
                        proof {
                            assert(table@[0].target_end() <= end);
                        }
                        let shown = slice_subrange(
                            buffer.as_slice(),
                            3 * (lowest as usize),
                            buffer.len(),
                        );
                        let mut sent: Vec<Transmission> = Vec::new();
                        sent.push(
                            Transmission::Publish {
                                topic: channel_name(topic_prefix.as_str(), lowest),
                                payload: encode_hex(shown),
                            },
                        );
                        Ok(sent)
                    },
                }
            },
            Device::Binary { address, table, number_of_leds } => {
                match remap(frame, table, *number_of_leds as usize) {
                    Err(e) => Err(e),
                    Ok(buffer) => {
                        let mut packets = encode_binary(buffer.as_slice());
                        let ghost framed = packets@;
                        let count = packets.len();
                        let mut sent: Vec<Transmission> = Vec::new();
                        let mut k: usize = 0;
                        while k < count
                            invariant
                                k <= count,
                                count == framed.len(),
                                packets@.len() == count,
                                sent@.len() == k,
                                forall|j: int| k <= j < count ==> packets@[j] == framed[j],
                                forall|j: int|
                                    0 <= j < k ==> (#[trigger] sent@[j])@ == (Message::Datagram {
                                        address: address@,
                                        packet: framed[j]@,
                                    }),
                            decreases count - k,
                        {
                            let mut packet: Vec<u8> = Vec::new();
                            core::mem::swap(&mut packet, &mut packets[k]);
                            sent.push(Transmission::Datagram { address: address.clone(), packet });
                            k += 1;
                        }
                        Ok(sent)
                    },
                }
            },
        }
    }
}

} // verus!
