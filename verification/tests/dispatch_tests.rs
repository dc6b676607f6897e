use pixelbridge::binary::encode_binary;
use pixelbridge::device::{configured_devices, Device, Transmission};
use pixelbridge::dispatch::{at_capacity, Dispatcher, FrameDispatch, Phase, Step};
use pixelbridge::remap::RemapError;
use pixelbridge::settings::{ConfigurationError, LedMapping, Settings, TextDevice, Wled};

fn run(source_start: u16, target_start: u16, length: u16) -> LedMapping {
    LedMapping { source_start, target_start, length: Some(length), reverse: None }
}

fn text(prefix: &str, mappings: Vec<LedMapping>) -> TextDevice {
    TextDevice { topic_prefix: prefix.to_string(), mappings }
}

fn wled(url: &str, mappings: Vec<LedMapping>, number_of_leds: u16) -> Wled {
    Wled { url: url.to_string(), mappings, number_of_leds }
}

fn publish(topic: &str, payload: &str) -> Step {
    Step::Transmit(Transmission::Publish { topic: topic.to_string(), payload: payload.to_string() })
}

fn datagram(address: &str, packet: Vec<u8>) -> Step {
    Step::Transmit(Transmission::Datagram { address: address.to_string(), packet })
}

fn all_steps(mut dispatch: FrameDispatch) -> Vec<Step> {
    let mut steps = Vec::new();
    while let Some(step) = dispatch.next_step() {
        steps.push(step);
    }
    assert_eq!(dispatch.phase(), Phase::Idle);
    steps
}

fn two_devices(change_gate: bool) -> Dispatcher {
    let text_device = Device::text(&text("strip/", vec![run(0, 2, 2)])).unwrap();
    let binary_device = Device::binary(&wled("10.0.0.2:21324", vec![run(1, 0, 1)], 2)).unwrap();
    Dispatcher::new(vec![text_device, binary_device], change_gate)
}

#[test]
fn text_device_gets_its_span_on_its_channel() {
    let device = Device::text(&text("strip/", vec![run(1, 5, 1), run(0, 2, 1)])).unwrap();
    let sent = device.transmissions(&[1, 2, 3, 0xa, 0xb, 0xc]).unwrap();
    assert_eq!(
        sent,
        vec![Transmission::Publish {
            topic: "strip/3".to_string(),
            payload: "#010203 #000000 #000000 #0a0b0c ".to_string(),
        }]
    );
}

#[test]
fn binary_device_gets_its_whole_strip() {
    let device = Device::binary(&wled("10.0.0.2:21324", vec![run(0, 1, 1)], 3)).unwrap();
    let sent = device.transmissions(&[7, 8, 9]).unwrap();
    assert_eq!(
        sent,
        vec![Transmission::Datagram {
            address: "10.0.0.2:21324".to_string(),
            packet: vec![2, 1, 0, 0, 0, 7, 8, 9, 0, 0, 0],
        }]
    );
}

#[test]
fn long_strip_goes_out_as_chunks_in_order() {
    let device = Device::binary(&wled("w", vec![run(0, 0, 1000)], 1000)).unwrap();
    let mut frame = Vec::new();
    for i in 0..3000 {
        frame.push((i % 253) as u8);
    }
    let sent = device.transmissions(&frame).unwrap();
    let packets = encode_binary(&frame);
    assert_eq!(packets.len(), 3);
    assert_eq!(sent.len(), 3);
    for k in 0..3 {
        assert_eq!(
            sent[k],
            Transmission::Datagram { address: "w".to_string(), packet: packets[k].clone() }
        );
    }
    assert_eq!(&packets[2][..4], &[4, 1, 0x03, 0xd2]);
}

#[test]
fn device_with_bad_mappings_is_refused() {
    assert_eq!(
        Device::text(&text("t", Vec::new())).err(),
        Some(ConfigurationError::EmptyMappingSet)
    );
    assert_eq!(
        Device::binary(&wled("w", vec![run(0, 0, 5), run(0, 3, 2)], 10)).err(),
        Some(ConfigurationError::OverlappingTargetRanges)
    );
}

#[test]
fn device_reports_what_keeps_a_frame_from_it() {
    let device = Device::binary(&wled("w", vec![run(0, 0, 2)], 1)).unwrap();
    assert_eq!(device.transmissions(&[0; 3]).err(), Some(RemapError::SourceRangeOutOfBounds));
    assert_eq!(device.transmissions(&[0; 6]).err(), Some(RemapError::TargetRangeOutOfBounds));
    let device = Device::text(&text("t", vec![run(3, 0, 1)])).unwrap();
    assert_eq!(device.transmissions(&[0; 9]).err(), Some(RemapError::SourceRangeOutOfBounds));
}

#[test]
fn configuration_becomes_text_devices_then_binary_ones() {
    let settings = Settings {
        udp_bind_address: "0.0.0.0:1".to_string(),
        receive_buffer_size: None,
        text_devices: vec![text("a", vec![run(0, 0, 1)])],
        wleds: vec![wled("b", vec![run(0, 0, 1)], 1), wled("c", vec![run(0, 0, 1)], 1)],
    };
    let devices = configured_devices(&settings).unwrap();
    assert_eq!(devices.len(), 3);
    let mut dispatcher = Dispatcher::new(devices, false);
    assert_eq!(
        all_steps(dispatcher.frame_arrived(&[1, 2, 3])),
        vec![
            publish("a1", "#010203 "),
            datagram("b", vec![2, 1, 1, 2, 3]),
            datagram("c", vec![2, 1, 1, 2, 3]),
        ]
    );
}

#[test]
fn configuration_with_a_bad_device_becomes_nothing() {
    let settings = Settings {
        udp_bind_address: "0.0.0.0:1".to_string(),
        receive_buffer_size: None,
        text_devices: vec![text("a", vec![run(0, 0, 1)])],
        wleds: vec![wled("b", Vec::new(), 1), wled("c", vec![run(0, 0, 2), run(0, 1, 1)], 1)],
    };
    assert_eq!(configured_devices(&settings).err(), Some(ConfigurationError::EmptyMappingSet));
}

#[test]
fn every_device_is_served_in_turn() {
    let mut dispatcher = two_devices(false);
    let mut dispatch = dispatcher.frame_arrived(&[1, 2, 3, 4, 5, 6]);
    assert_eq!(dispatch.phase(), Phase::Dispatching);
    assert_eq!(dispatch.next_step(), Some(publish("strip/3", "#010203 #040506 ")));
    assert_eq!(dispatch.phase(), Phase::Dispatching);
    assert_eq!(
        dispatch.next_step(),
        Some(datagram("10.0.0.2:21324", vec![2, 1, 4, 5, 6, 0, 0, 0]))
    );
    assert_eq!(dispatch.phase(), Phase::Idle);
    assert_eq!(dispatch.next_step(), None);
    assert_eq!(dispatch.next_step(), None);
}

#[test]
fn repeated_frame_is_not_published_again() {
    let mut dispatcher = two_devices(true);
    let frame = [1, 2, 3, 4, 5, 6];
    let binary_step = datagram("10.0.0.2:21324", vec![2, 1, 4, 5, 6, 0, 0, 0]);
    assert_eq!(
        all_steps(dispatcher.frame_arrived(&frame)),
        vec![publish("strip/3", "#010203 #040506 "), binary_step.clone()]
    );
    assert_eq!(all_steps(dispatcher.frame_arrived(&frame)), vec![binary_step.clone()]);
    assert_eq!(all_steps(dispatcher.frame_arrived(&frame)), vec![binary_step.clone()]);
    let changed = [1, 2, 3, 4, 5, 7];
    assert_eq!(
        all_steps(dispatcher.frame_arrived(&changed)),
        vec![
            publish("strip/3", "#010203 #040507 "),
            datagram("10.0.0.2:21324", vec![2, 1, 4, 5, 7, 0, 0, 0]),
        ]
    );
    assert_eq!(
        all_steps(dispatcher.frame_arrived(&frame)),
        vec![publish("strip/3", "#010203 #040506 "), binary_step]
    );
}

#[test]
fn repeated_frame_is_published_again_where_nothing_holds_it_back() {
    let mut dispatcher = two_devices(false);
    let frame = [1, 2, 3, 4, 5, 6];
    let first = all_steps(dispatcher.frame_arrived(&frame));
    let second = all_steps(dispatcher.frame_arrived(&frame));
    assert_eq!(first.len(), 2);
    assert_eq!(first, second);
}

#[test]
fn frame_of_another_length_is_another_frame() {
    let mut dispatcher = two_devices(true);
    assert_eq!(all_steps(dispatcher.frame_arrived(&[1, 2, 3, 4, 5, 6])).len(), 2);
    assert_eq!(all_steps(dispatcher.frame_arrived(&[1, 2, 3, 4, 5, 6, 0])).len(), 2);
    assert_eq!(all_steps(dispatcher.frame_arrived(&[1, 2, 3, 4, 5, 6, 0])).len(), 1);
}

#[test]
fn device_that_cannot_be_served_is_skipped_and_the_rest_goes_on() {
    let far = Device::binary(&wled("far", vec![run(5, 0, 1)], 1)).unwrap();
    let near = Device::binary(&wled("near", vec![run(0, 0, 1)], 1)).unwrap();
    let wide = Device::binary(&wled("wide", vec![run(0, 3, 1)], 2)).unwrap();
    let mut dispatcher = Dispatcher::new(vec![far, near, wide], false);
    assert_eq!(
        all_steps(dispatcher.frame_arrived(&[9, 8, 7])),
        vec![
            Step::Skip { device: 0, error: RemapError::SourceRangeOutOfBounds },
            datagram("near", vec![2, 1, 9, 8, 7]),
            Step::Skip { device: 2, error: RemapError::TargetRangeOutOfBounds },
        ]
    );
}

#[test]
fn failed_transport_ends_the_frame_but_not_the_next() {
    let first = Device::binary(&wled("first", vec![run(0, 0, 1)], 1)).unwrap();
    let second = Device::binary(&wled("second", vec![run(0, 0, 1)], 1)).unwrap();
    let mut dispatcher = Dispatcher::new(vec![first, second], false);
    let mut dispatch = dispatcher.frame_arrived(&[1, 1, 1]);
    assert_eq!(dispatch.next_step(), Some(datagram("first", vec![2, 1, 1, 1, 1])));
    dispatch.transport_failed();
    assert_eq!(dispatch.phase(), Phase::Idle);
    assert_eq!(dispatch.next_step(), None);
    assert_eq!(
        all_steps(dispatcher.frame_arrived(&[2, 2, 2])),
        vec![datagram("first", vec![2, 1, 2, 2, 2]), datagram("second", vec![2, 1, 2, 2, 2])]
    );
}

#[test]
fn no_device_means_no_step() {
    let mut dispatcher = Dispatcher::new(Vec::new(), true);
    let dispatch = dispatcher.frame_arrived(&[1, 2, 3]);
    assert_eq!(dispatch.phase(), Phase::Idle);
    assert_eq!(all_steps(dispatch), Vec::new());
}

#[test]
fn full_receive_buffer_is_noticed() {
    assert!(at_capacity(2048, 2048));
    assert!(at_capacity(2049, 2048));
    assert!(!at_capacity(2047, 2048));
    assert!(at_capacity(0, 0));
}
