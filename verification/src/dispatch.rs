//! Per-frame orchestration: which devices a frame goes to, in what order, and
//! what becomes of the rest of a frame once a transport fails.

use crate::device::{device_messages, Device, DeviceModel, Message, Transmission};
use crate::remap::RemapError;
use vstd::prelude::*;
use vstd::slice::slice_to_vec;

verus! {

/// One thing to do for a frame.
#[derive(Clone, Debug, PartialEq, Eq)]
pub enum Step {
    /// Hand the transmission to its transport.
    Transmit(Transmission),
    /// The frame could not be laid out for the device at this position; it
    /// gets nothing for this frame.
    Skip { device: usize, error: RemapError },
}

/// What a step is, as plain values.
pub enum StepModel {
    Transmit(Message),
    Skip { device: int, error: RemapError },
}

impl View for Step {
    type V = StepModel;

    open spec fn view(&self) -> StepModel {
        match self {
            Step::Transmit(transmission) => StepModel::Transmit(transmission@),
            Step::Skip { device, error } => StepModel::Skip {
                device: *device as int,
                error: *error,
            },
        }
    }
}

/// Whether a frame is being worked on.
#[derive(Clone, Copy, Debug, PartialEq, Eq, Structural)]
pub enum Phase {
    /// Nothing is left to do until the next frame arrives.
    Idle,
    /// Steps of the current frame are still to be taken.
    Dispatching,
}

/// The steps that the device at position `index` contributes to a frame: its
/// transmissions in order, or the note that it is skipped. A text device
/// contributes nothing while publishing is held back.
pub open spec fn device_steps(
    device: DeviceModel,
    index: int,
    frame: Seq<u8>,
    publish: bool,
) -> Seq<StepModel> {
    if device is Text && !publish {
        Seq::empty()
    } else {
        match device_messages(device, frame) {
            Ok(messages) => messages.map_values(|m: Message| StepModel::Transmit(m)),
            Err(error) => seq![StepModel::Skip { device: index, error }],
        }
    }
}

/// The steps of the devices at positions `from` up to `to`, one device after
/// the other.
pub open spec fn steps_between(
    devices: Seq<DeviceModel>,
    frame: Seq<u8>,
    publish: bool,
    from: int,
    to: int,
) -> Seq<StepModel>
    decreases to - from,
{
    if from >= to {
        Seq::empty()
    } else {
        device_steps(devices[from], from, frame, publish) + steps_between(
            devices,
            frame,
            publish,
            from + 1,
            to,
        )
    }
}

/// All steps of a frame: every device in turn.
pub open spec fn frame_steps(devices: Seq<DeviceModel>, frame: Seq<u8>, publish: bool) -> Seq<
    StepModel,
> {
    steps_between(devices, frame, publish, 0, devices.len() as int)
}

/// What a dispatcher is, as plain values.
pub struct DispatcherModel {
    pub devices: Seq<DeviceModel>,
    pub change_gate: bool,
    pub previous: Option<Seq<u8>>,
}

/// Whether text devices are published to for `frame`: always without the
/// change gate, and with it unless the frame repeats the one before.
pub open spec fn publishes(state: DispatcherModel, frame: Seq<u8>) -> bool {
    !state.change_gate || state.previous != Some(frame)
}

/// The frame that the next one is compared with, once `frame` has arrived.
pub open spec fn snapshot_after(state: DispatcherModel, frame: Seq<u8>) -> Option<Seq<u8>> {
    if state.change_gate {
        Some(frame)
    } else {
        state.previous
    }
}

/// Whether a step publishes to a text device.
pub open spec fn is_publish(step: StepModel) -> bool {
    step matches StepModel::Transmit(Message::Publish { .. })
}

/// Whether a step sends a datagram to a binary device.
pub open spec fn is_datagram(step: StepModel) -> bool {
    step matches StepModel::Transmit(Message::Datagram { .. })
}

/// The publish steps among `steps`, in their order.
pub open spec fn publish_steps(steps: Seq<StepModel>) -> Seq<StepModel> {
    steps.filter(|s: StepModel| is_publish(s))
}

/// The datagram steps among `steps`, in their order.
pub open spec fn datagram_steps(steps: Seq<StepModel>) -> Seq<StepModel> {
    steps.filter(|s: StepModel| is_datagram(s))
}

/// Filtering leaves nothing of a sequence in which no element is wanted.
proof fn lemma_filter_keeps_none(steps: Seq<StepModel>, wanted: spec_fn(StepModel) -> bool)
    requires
        forall|i: int| 0 <= i < steps.len() ==> !wanted(#[trigger] steps[i]),
    ensures
        steps.filter(wanted) == Seq::<StepModel>::empty(),
    decreases steps.len(),
{
    reveal(Seq::filter);
    if steps.len() > 0 {
        let front = steps.drop_last();
        assert forall|i: int| 0 <= i < front.len() implies !wanted(#[trigger] front[i]) by {
            assert(front[i] == steps[i]);
        }
        lemma_filter_keeps_none(front, wanted);
    }
}

/// While publishing is held back, the devices contribute no publish step and
/// the same datagram steps as they do otherwise.
proof fn lemma_held_back_steps(devices: Seq<DeviceModel>, frame: Seq<u8>, from: int, to: int)
    requires
        0 <= from <= to <= devices.len(),
    ensures
        publish_steps(steps_between(devices, frame, false, from, to)) == Seq::<StepModel>::empty(),
        datagram_steps(steps_between(devices, frame, false, from, to)) == datagram_steps(
            steps_between(devices, frame, true, from, to),
        ),
    decreases to - from,
{
    let publishing = |s: StepModel| is_publish(s);
    let sending = |s: StepModel| is_datagram(s);
    if from < to {
        lemma_held_back_steps(devices, frame, from + 1, to);
        let held = device_steps(devices[from], from, frame, false);
        let open = device_steps(devices[from], from, frame, true);
        let held_rest = steps_between(devices, frame, false, from + 1, to);
        let open_rest = steps_between(devices, frame, true, from + 1, to);
        Seq::filter_distributes_over_add(held, held_rest, publishing);
        Seq::filter_distributes_over_add(held, held_rest, sending);
        Seq::filter_distributes_over_add(open, open_rest, sending);
        assert forall|i: int| 0 <= i < held.len() implies !publishing(#[trigger] held[i]) by {}
        lemma_filter_keeps_none(held, publishing);
        if devices[from] is Text {
            assert forall|i: int| 0 <= i < open.len() implies !sending(#[trigger] open[i]) by {}
            lemma_filter_keeps_none(open, sending);
            lemma_filter_keeps_none(held, sending);
        }
    } else {
        lemma_filter_keeps_none(steps_between(devices, frame, false, from, to), publishing);
    }
}

/// A frame that repeats the one before it, with the change gate on, is not
/// published: the steps for it hold no publish step, and its datagram steps
/// are those of a frame that is published. The frame stays the one to
/// compare with, so this holds for every further repeat.
pub proof fn lemma_repeated_frame_is_not_published(state: DispatcherModel, frame: Seq<u8>)
    requires
        state.change_gate,
    ensures
        ({
            let after = DispatcherModel { previous: snapshot_after(state, frame), ..state };
            let steps = frame_steps(after.devices, frame, publishes(after, frame));
            &&& !publishes(after, frame)
            &&& snapshot_after(after, frame) == after.previous
            &&& publish_steps(steps) == Seq::<StepModel>::empty()
            &&& datagram_steps(steps) == datagram_steps(frame_steps(state.devices, frame, true))
        }),
{
    lemma_held_back_steps(state.devices, frame, 0, state.devices.len() as int);
}

/// The steps of the frame in progress that are still to be taken.
#[derive(Debug)]
pub struct FrameDispatch {
    pending: Vec<Step>,
}

impl View for FrameDispatch {
    type V = Seq<StepModel>;

    closed spec fn view(&self) -> Seq<StepModel> {
        in_taking_order(self.pending@)
    }
}

/// The steps held in `pending`, next one first: the vector is taken from its
/// end.
pub open spec fn in_taking_order(pending: Seq<Step>) -> Seq<StepModel> {
    Seq::new(pending.len(), |k: int| pending[pending.len() - 1 - k]@)
}

impl FrameDispatch {
    /// Idle once no step is left, dispatching until then.
    pub fn phase(&self) -> (phase: Phase)
        ensures
            phase == (if self@.len() == 0 {
                Phase::Idle
            } else {
                Phase::Dispatching
            }),
    {
        if self.pending.len() == 0 {
            Phase::Idle
        } else {
            Phase::Dispatching
        }
    }

    /// Takes the next step of the frame, if one is left.
    pub fn next_step(&mut self) -> (step: Option<Step>)
        ensures
            match step {
                Some(taken) => old(self)@.len() > 0 && taken@ == old(self)@[0] && final(self)@
                    == old(self)@.skip(1),
                None => old(self)@.len() == 0 && final(self)@.len() == 0,
            },
    {
        let step = self.pending.pop();
        proof {
            if old(self)@.len() > 0 {
                assert(self@ =~= old(self)@.skip(1));
            }
        }
        step
    }

    /// Gives up what is left of the frame after a transport has failed: no
    /// further step is taken for it.
    pub fn transport_failed(&mut self)
        ensures
            final(self)@.len() == 0,
    {
        self.pending.clear();
    }
}

/// Frames arrive here and leave as steps. Holds the devices and, where the
/// change gate is on, the last frame that was published.
#[derive(Debug)]
pub struct Dispatcher {
    devices: Vec<Device>,
    change_gate: bool,
    previous: Option<Vec<u8>>,
}

impl View for Dispatcher {
    type V = DispatcherModel;

    closed spec fn view(&self) -> DispatcherModel {
        DispatcherModel {
            devices: self.devices@.map_values(|d: Device| d@),
            change_gate: self.change_gate,
            previous: match self.previous {
                Some(bytes) => Some(bytes@),
                None => None,
            },
        }
    }
}

/// Whether two byte strings are the same, byte for byte.
fn same_bytes(a: &[u8], b: &[u8]) -> (same: bool)
    ensures
        same == (a@ == b@),
{
    if a.len() != b.len() {
        return false;
    }
    let mut i: usize = 0;
    while i < a.len()
        invariant
            i <= a@.len(),
            a@.len() == b@.len(),
            forall|j: int| 0 <= j < i ==> a@[j] == b@[j],
        decreases a@.len() - i,
    {
        if a[i] != b[i] {
            return false;
        }
        i += 1;
    }
    proof {
        assert(a@ =~= b@);
    }
    true
}

impl Dispatcher {
    /// A dispatcher for `devices`, served in the order given. With the change
    /// gate on, text devices are left alone while frames repeat.
    pub fn new(devices: Vec<Device>, change_gate: bool) -> (dispatcher: Dispatcher)
        ensures
            dispatcher@ == (DispatcherModel {
                devices: devices@.map_values(|d: Device| d@),
                change_gate,
                previous: None,
            }),
    {
        Dispatcher { devices, change_gate, previous: None }
    }

    /// Takes in one frame and lays out the steps for it: for each device in
    /// turn its transmissions, or the note that it is skipped.
    pub fn frame_arrived(&mut self, frame: &[u8]) -> (dispatch: FrameDispatch)
        ensures
            final(self)@ == (DispatcherModel {
                previous: snapshot_after(old(self)@, frame@),
                ..old(self)@
            }),
            dispatch@ == frame_steps(old(self)@.devices, frame@, publishes(old(self)@, frame@)),
    {
        let repeats = match &self.previous {
            Some(bytes) => same_bytes(bytes.as_slice(), frame),
            None => false,
        };
        let publish = !self.change_gate || !repeats;
        if self.change_gate && !repeats {
            self.previous = Some(slice_to_vec(frame));
        }
        let ghost devices = old(self)@.devices;
        let count = self.devices.len();
        let mut pending: Vec<Step> = Vec::new();
        let mut k: usize = count;
        proof {
            assert(in_taking_order(pending@) =~= steps_between(
                devices,
                frame@,
                publish,
                count as int,
                count as int,
            ));
        }
        while k > 0
            invariant
                k <= count,
                count == self.devices@.len(),
                devices == self.devices@.map_values(|d: Device| d@),
                in_taking_order(pending@) == steps_between(
                    devices,
                    frame@,
                    publish,
                    k as int,
                    count as int,
                ),
            decreases k,
        {
            k -= 1;
            let device = &self.devices[k];
            let ghost after = in_taking_order(pending@);
            let held_back = !publish && match device {
                Device::Text { .. } => true,
                Device::Binary { .. } => false,
            };
            proof {
                assert(devices[k as int] == device@);
            }
            if !held_back {
                match device.transmissions(frame) {
                    Ok(sent) => {
                        let mut sent = sent;
                        let ghost messages = device_messages(device@, frame@)->Ok_0;
                        while sent.len() > 0
                            invariant
                                sent@.len() <= messages.len(),
                                forall|j: int|
                                    0 <= j < sent@.len() ==> (#[trigger] sent@[j])@ == messages[j],
                                in_taking_order(pending@) == messages.skip(
                                    sent@.len() as int,
                                ).map_values(|m: Message| StepModel::Transmit(m)) + after,
                            decreases sent@.len(),
                        {
                            let ghost taken = in_taking_order(pending@);
                            let transmission = sent.pop().unwrap();
                            pending.push(Step::Transmit(transmission));
                            proof {
                                assert(in_taking_order(pending@) =~= seq![
                                    StepModel::Transmit(transmission@),
                                ] + taken);
                                assert(in_taking_order(pending@) =~= messages.skip(
                                    sent@.len() as int,
                                ).map_values(|m: Message| StepModel::Transmit(m)) + after);
                            }
                        }
                        proof {
                            assert(messages.skip(0) =~= messages);
                        }
                    },
                    Err(error) => {
                        pending.push(Step::Skip { device: k, error });
                        proof {
                            assert(in_taking_order(pending@) =~= seq![
                                StepModel::Skip { device: k as int, error },
                            ] + after);
                        }
                    },
                }
            } else {
                proof {
                    assert(Seq::<StepModel>::empty() + after =~= after);
                }
            }
        }
        FrameDispatch { pending }
    }
}

/// Whether a datagram filled the receive buffer to its end, so that part of
/// the frame may have been cut off.
pub fn at_capacity(received: usize, capacity: usize) -> (full: bool)
    ensures
        full == (received >= capacity),
{
    received >= capacity
}

} // verus!
