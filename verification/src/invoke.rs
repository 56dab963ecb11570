//! Inference: walking an executable's DMA hints.
use vstd::prelude::*;

use crate::bringup;
use crate::driver::{DescriptorTag, Driver, Event, Timeouts, EVENT_ENDPOINT, EVENT_SIZE};
use crate::error::Error;
use crate::executable;
use crate::executable::{Description, Executable, Hint, HintView};
use crate::fb::TableView;
use crate::layer;
use crate::layer::Layer;
use crate::stream;
use crate::transport;
use crate::transport::{Transfer, Transport};

verus! {

// ---------------------------------------------------------------------------
// Model
// ---------------------------------------------------------------------------

/// What a list of buffers holds.
pub open spec fn contents(bufs: Seq<&mut [u8]>) -> Seq<Seq<u8>> {
    Seq::new(bufs.len(), |i: int| (*bufs[i])@)
}

/// What an inference works on.
pub struct State<E> {
    /// The transport's history.
    pub trace: Seq<Transfer<E>>,
    /// The input tensor.
    pub input: Seq<u8>,
    /// The staging buffers, by output layer.
    pub outputs: Seq<Seq<u8>>,
}

/// The input tensor as it is sent for a hint that names `name`: with its sign
/// bits flipped where that input layer exists and has a signed type.
pub open spec fn fixed_up(exe: TableView, name: Seq<u8>, input: Seq<u8>) -> Seq<u8> {
    let inputs = executable::layers(exe, false);
    match executable::find_named(inputs, name, 0) {
        None => input,
        Some(i) => match executable::element(inputs, i) {
            None => input,
            Some(t) => if layer::type_of(t).signed() {
                layer::signs_flipped(
                    input,
                    layer::type_of(t).size(),
                    layer::x_of(t) * layer::y_of(t) * layer::z_of(t),
                )
            } else {
                input
            },
        },
    }
}

/// `data[offset..offset + size]` was sent on stream `tag`, where `data` has
/// that range; else nothing was, and the result names `what`.
pub open spec fn did_send_range<E>(
    t0: Seq<Transfer<E>>,
    t1: Seq<Transfer<E>>,
    tag: DescriptorTag,
    data: Seq<u8>,
    offset: int,
    size: int,
    what: &'static str,
    us: u32,
    res: Result<(), Error<E>>,
) -> bool {
    if offset + size <= data.len() {
        stream::did_send(t0, t1, tag, data.subrange(offset, offset + size), us, res)
    } else {
        t1 == t0 && res == Err::<(), Error<E>>(Error::Malformed(what))
    }
}

/// `size` bytes were read to the front of staging buffer `idx`; the rest of it
/// and the other buffers are as they were.
pub open spec fn did_fill<E>(
    s0: State<E>,
    s1: State<E>,
    idx: int,
    size: int,
    us: u32,
    res: Result<(), Error<E>>,
) -> bool {
    &&& s1.outputs.len() == s0.outputs.len()
    &&& forall|j: int|
        0 <= j < s0.outputs.len() && j != idx ==> #[trigger] s1.outputs[j] == s0.outputs[j]
    &&& s1.outputs[idx].len() == s0.outputs[idx].len()
    &&& s1.outputs[idx].skip(size) == s0.outputs[idx].skip(size)
    &&& stream::did_bulk_in(
        s0.trace,
        s1.trace,
        s0.outputs[idx].take(size),
        s1.outputs[idx].take(size),
        us,
        res,
    )
}

/// The state went from `s0` to `s1` by an output hint.
pub open spec fn did_output_hint<E>(
    exe: TableView,
    name: Seq<u8>,
    size: int,
    s0: State<E>,
    s1: State<E>,
    us: u32,
    res: Result<(), Error<E>>,
) -> bool {
    match executable::find_named(executable::layers(exe, true), name, 0) {
        None => s1 == s0 && res == Err::<(), Error<E>>(Error::UnknownLayer),
        Some(idx) => if idx >= s0.outputs.len() {
            s1 == s0 && res == Err::<(), Error<E>>(Error::UnknownLayer)
        } else if s0.outputs[idx].len() < size {
            s1 == s0 && res == Err::<(), Error<E>>(
                Error::BufferTooSmall {
                    needed: size as usize,
                    given: s0.outputs[idx].len() as usize,
                },
            )
        } else {
            s1.input == s0.input && did_fill(s0, s1, idx, size, us, res)
        },
    }
}

/// The state went from `s0` to `s1` by one DMA hint of `exe`.
pub open spec fn did_hint<E>(
    exe: TableView,
    hint: HintView,
    s0: State<E>,
    s1: State<E>,
    us: u32,
    res: Result<(), Error<E>>,
) -> bool {
    match hint {
        HintView::Dma { desc: Description::Parameter, offset, size, .. } => {
            &&& s1.input == s0.input
            &&& s1.outputs == s0.outputs
            &&& did_send_range(
                s0.trace,
                s1.trace,
                DescriptorTag::Parameters,
                executable::parameter_blob(exe),
                offset,
                size,
                "parameter hint out of range",
                us,
                res,
            )
        },
        HintView::Dma { desc: Description::InputActivation, name, offset, size } => {
            &&& s1.input == fixed_up(exe, name, s0.input)
            &&& s1.outputs == s0.outputs
            &&& did_send_range(
                s0.trace,
                s1.trace,
                DescriptorTag::InputActivations,
                s1.input,
                offset,
                size,
                "input hint out of range",
                us,
                res,
            )
        },
        HintView::Dma { desc: Description::OutputActivation, name, size, .. } => did_output_hint(
            exe,
            name,
            size,
            s0,
            s1,
            us,
            res,
        ),
        HintView::Instruction { chunk_index } => {
            &&& s1.input == s0.input
            &&& s1.outputs == s0.outputs
            &&& match executable::bitstream(exe, chunk_index) {
                Some(b) => stream::did_send(
                    s0.trace,
                    s1.trace,
                    DescriptorTag::Instructions,
                    b,
                    us,
                    res,
                ),
                None => s1.trace == s0.trace && res == Err::<(), Error<E>>(
                    Error::Malformed("instruction chunk index out of range"),
                ),
            }
        },
        _ => s1 == s0 && res == Ok::<(), Error<E>>(()),
    }
}

/// The state went from `s0` to `s` by the first `k` DMA hints, in order and
/// all of them successful.
pub open spec fn ran_hints<E>(
    exe: TableView,
    k: int,
    s0: State<E>,
    s: State<E>,
    us: u32,
) -> bool
    decreases k,
{
    if k <= 0 {
        s == s0
    } else {
        exists|sm: State<E>|
            ran_hints(exe, k - 1, s0, sm, us) && #[trigger] did_hint(
                exe,
                executable::hint_at(exe, k - 1),
                sm,
                s,
                us,
                Ok(()),
            )
    }
}

/// The state went from `s0` to `s1` by one inference: all DMA hints in order
/// and then the completion event, up to the first failure.
pub open spec fn did_invoke<E>(
    exe: TableView,
    s0: State<E>,
    s1: State<E>,
    lim: Timeouts,
    res: Result<(), Error<E>>,
) -> bool {
    let n = executable::held(executable::hint_list(exe));
    ||| exists|sm: State<E>, r: Result<Event, Error<E>>|
        {
            &&& #[trigger] ran_hints(exe, n, s0, sm, lim.bulk_us)
            &&& s1.input == sm.input
            &&& s1.outputs == sm.outputs
            &&& #[trigger] stream::did_read_event(sm.trace, s1.trace, lim.event_us, r)
            &&& res == bringup::outcome(r)
        }
    ||| res is Err && exists|k: int, sm: State<E>|
        {
            &&& 0 <= k < n
            &&& #[trigger] ran_hints(exe, k, s0, sm, lim.bulk_us)
            &&& did_hint(exe, executable::hint_at(exe, k), sm, s1, lim.bulk_us, res)
        }
}

proof fn lemma_hint<E>(
    exe: TableView,
    k: int,
    s0: State<E>,
    sm: State<E>,
    s1: State<E>,
    us: u32,
)
    requires
        0 <= k,
        ran_hints(exe, k, s0, sm, us),
        did_hint(exe, executable::hint_at(exe, k), sm, s1, us, Ok(())),
    ensures
        ran_hints(exe, k + 1, s0, s1, us),
{
    assert(did_hint(exe, executable::hint_at(exe, (k + 1) - 1), sm, s1, us, Ok(())));
}

// ---------------------------------------------------------------------------
// Laws
// ---------------------------------------------------------------------------

/// `x` is a bulk transfer with this timeout.
pub open spec fn is_bulk<E>(x: Transfer<E>, us: u32) -> bool {
    match x {
        Transfer::BulkOut { timeout_us, .. } => timeout_us == us,
        Transfer::BulkIn { timeout_us, .. } => timeout_us == us,
        _ => false,
    }
}

/// The history grew, and by bulk transfers with this timeout alone.
pub open spec fn only_bulk<E>(t0: Seq<Transfer<E>>, t1: Seq<Transfer<E>>, us: u32) -> bool {
    &&& transport::grown(t0, t1, t1.len() - t0.len())
    &&& forall|i: int| t0.len() <= i < t1.len() ==> is_bulk(#[trigger] t1[i], us)
}

/// Buffer counts and lengths are the same.
pub open spec fn same_shape<E>(s0: State<E>, s1: State<E>) -> bool {
    &&& s1.input.len() == s0.input.len()
    &&& s1.outputs.len() == s0.outputs.len()
    &&& forall|j: int|
        0 <= j < s0.outputs.len() ==> (#[trigger] s1.outputs[j]).len() == s0.outputs[j].len()
}

proof fn lemma_only_bulk_twice<E>(
    t0: Seq<Transfer<E>>,
    t1: Seq<Transfer<E>>,
    t2: Seq<Transfer<E>>,
    us: u32,
)
    requires
        only_bulk(t0, t1, us),
        only_bulk(t1, t2, us),
    ensures
        only_bulk(t0, t2, us),
{
    transport::lemma_grown_twice(t0, t1, t2);
    assert forall|i: int| t0.len() <= i < t2.len() implies is_bulk(#[trigger] t2[i], us) by {
        if i < t1.len() {
            assert(t2[i] == t1[i]);
        }
    }
}

proof fn lemma_bulk_out<E>(
    t0: Seq<Transfer<E>>,
    t1: Seq<Transfer<E>>,
    data: Seq<u8>,
    us: u32,
    res: Result<(), Error<E>>,
)
    requires
        stream::did_bulk_out(t0, t1, data, us, res),
    ensures
        only_bulk(t0, t1, us),
{
    assert forall|i: int| t0.len() <= i < t1.len() implies is_bulk(#[trigger] t1[i], us) by {
        assert(stream::is_bulk_out(t1[i], stream::chunk(data, i - t0.len()), us));
    }
}

proof fn lemma_send<E>(
    t0: Seq<Transfer<E>>,
    t1: Seq<Transfer<E>>,
    tag: DescriptorTag,
    data: Seq<u8>,
    us: u32,
    res: Result<(), Error<E>>,
)
    requires
        stream::did_send(t0, t1, tag, data, us, res),
    ensures
        only_bulk(t0, t1, us),
{
    let h = stream::header(tag, (data.len() % 0x1_0000_0000) as u32);
    let (tm, r) = choose|tm: Seq<Transfer<E>>, r: Result<(), Error<E>>|
        #[trigger] stream::did_bulk_out(t0, tm, h, us, r) && match r {
            Ok(()) => stream::did_bulk_out(tm, t1, data, us, res),
            Err(_) => t1 == tm && res == r,
        };
    lemma_bulk_out(t0, tm, h, us, r);
    if r is Ok {
        lemma_bulk_out(tm, t1, data, us, res);
        lemma_only_bulk_twice(t0, tm, t1, us);
    }
}

proof fn lemma_hint_traffic<E>(
    exe: TableView,
    hint: HintView,
    s0: State<E>,
    s1: State<E>,
    us: u32,
    res: Result<(), Error<E>>,
)
    requires
        did_hint(exe, hint, s0, s1, us, res),
    ensures
        only_bulk(s0.trace, s1.trace, us),
        same_shape(s0, s1),
{
    let (t0, t1) = (s0.trace, s1.trace);
    assert(t0.take(t0.len() as int) =~= t0);
    match hint {
        HintView::Dma { desc: Description::Parameter, offset, size, .. } => {
            let data = executable::parameter_blob(exe);
            if offset + size <= data.len() {
                lemma_send(
                    t0,
                    t1,
                    DescriptorTag::Parameters,
                    data.subrange(offset, offset + size),
                    us,
                    res,
                );
            }
        },
        HintView::Dma { desc: Description::InputActivation, offset, size, .. } => {
            if offset + size <= s1.input.len() {
                lemma_send(
                    t0,
                    t1,
                    DescriptorTag::InputActivations,
                    s1.input.subrange(offset, offset + size),
                    us,
                    res,
                );
            }
        },
        HintView::Dma { desc: Description::OutputActivation, name, size, .. } => {
            executable::law_find_is_first(executable::layers(exe, true), name, 0);
            if let Some(idx) = executable::find_named(executable::layers(exe, true), name, 0) {
                if idx < s0.outputs.len() && s0.outputs[idx].len() >= size {
                    stream::law_reads_are_bounded(
                        t0,
                        t1,
                        s0.outputs[idx].take(size),
                        s1.outputs[idx].take(size),
                        us,
                        res,
                    );
                }
            }
        },
        HintView::Instruction { chunk_index } => {
            if let Some(b) = executable::bitstream(exe, chunk_index) {
                lemma_send(t0, t1, DescriptorTag::Instructions, b, us, res);
            }
        },
        _ => {},
    }
}

proof fn lemma_hints_traffic<E>(exe: TableView, k: int, s0: State<E>, s: State<E>, us: u32)
    requires
        ran_hints(exe, k, s0, s, us),
    ensures
        only_bulk(s0.trace, s.trace, us),
        same_shape(s0, s),
    decreases k,
{
    if k > 0 {
        let hint = executable::hint_at(exe, k - 1);
        let sm = choose|sm: State<E>|
            ran_hints(exe, k - 1, s0, sm, us) && #[trigger] did_hint(exe, hint, sm, s, us, Ok(()));
        lemma_hints_traffic(exe, k - 1, s0, sm, us);
        lemma_hint_traffic(exe, hint, sm, s, us, Ok(()));
        lemma_only_bulk_twice(s0.trace, sm.trace, s.trace, us);
        assert forall|j: int| 0 <= j < s0.outputs.len() implies (#[trigger] s.outputs[j]).len()
            == s0.outputs[j].len() by {
            assert(sm.outputs[j].len() == s0.outputs[j].len());
        }
    } else {
        assert(s.trace.take(s.trace.len() as int) =~= s.trace);
    }
}

/// Law: an inference makes bulk transfers only. All carry the bulk timeout,
/// except that the last one may be the wait for the completion event with its
/// own. No buffer changes its length.
pub proof fn law_inference_traffic<E>(
    exe: TableView,
    s0: State<E>,
    s1: State<E>,
    lim: Timeouts,
    res: Result<(), Error<E>>,
)
    requires
        did_invoke(exe, s0, s1, lim, res),
    ensures
        transport::grown(s0.trace, s1.trace, s1.trace.len() - s0.trace.len()),
        forall|i: int|
            s0.trace.len() <= i < s1.trace.len() - 1 ==> is_bulk(
                #[trigger] s1.trace[i],
                lim.bulk_us,
            ),
        s1.trace.len() > s0.trace.len() ==> is_bulk(s1.trace.last(), lim.bulk_us) || is_bulk(
            s1.trace.last(),
            lim.event_us,
        ),
        same_shape(s0, s1),
{
    let us = lim.bulk_us;
    let n = executable::held(executable::hint_list(exe));
    if exists|sm: State<E>, r: Result<Event, Error<E>>|
        {
            &&& #[trigger] ran_hints(exe, n, s0, sm, us)
            &&& s1.input == sm.input
            &&& s1.outputs == sm.outputs
            &&& #[trigger] stream::did_read_event(sm.trace, s1.trace, lim.event_us, r)
            &&& res == bringup::outcome(r)
        } {
        let (sm, r) = choose|sm: State<E>, r: Result<Event, Error<E>>|
            {
                &&& #[trigger] ran_hints(exe, n, s0, sm, us)
                &&& s1.input == sm.input
                &&& s1.outputs == sm.outputs
                &&& #[trigger] stream::did_read_event(sm.trace, s1.trace, lim.event_us, r)
                &&& res == bringup::outcome(r)
            };
        lemma_hints_traffic(exe, n, s0, sm, us);
        transport::lemma_one_more(sm.trace, s1.trace);
        assert(s1.trace.take(sm.trace.len() as int) =~= sm.trace);
        transport::lemma_grown_twice(s0.trace, sm.trace, s1.trace);
        assert forall|i: int| s0.trace.len() <= i < s1.trace.len() - 1 implies is_bulk(
            #[trigger] s1.trace[i],
            us,
        ) by {
            assert(s1.trace[i] == sm.trace[i]);
        }
    } else {
        let (k, sm) = choose|k: int, sm: State<E>|
            {
                &&& 0 <= k < n
                &&& #[trigger] ran_hints(exe, k, s0, sm, us)
                &&& did_hint(exe, executable::hint_at(exe, k), sm, s1, us, res)
            };
        lemma_hints_traffic(exe, k, s0, sm, us);
        lemma_hint_traffic(exe, executable::hint_at(exe, k), sm, s1, us, res);
        lemma_only_bulk_twice(s0.trace, sm.trace, s1.trace, us);
        if s1.trace.len() > s0.trace.len() {
            assert(s1.trace[s1.trace.len() - 1] == s1.trace.last());
        }
        assert forall|j: int| 0 <= j < s0.outputs.len() implies (#[trigger] s1.outputs[j]).len()
            == s0.outputs[j].len() by {
            assert(sm.outputs[j].len() == s0.outputs[j].len());
        }
    }
}

/// Law: an inference that succeeded has handled every hint, and the last thing
/// it did was to read a whole completion event.
pub proof fn law_completion_comes_last<E>(
    exe: TableView,
    s0: State<E>,
    s1: State<E>,
    lim: Timeouts,
)
    requires
        did_invoke(exe, s0, s1, lim, Ok(())),
    ensures
        s1.trace.len() > s0.trace.len(),
        s1.trace.last() matches Transfer::BulkIn { ep, data, timeout_us, result } && ep
            == EVENT_ENDPOINT && data.len() == EVENT_SIZE && timeout_us == lim.event_us && result
            == Ok::<usize, E>(EVENT_SIZE),
        exists|sm: State<E>|
            #[trigger] ran_hints(
                exe,
                executable::held(executable::hint_list(exe)),
                s0,
                sm,
                lim.bulk_us,
            ) && sm.trace == s1.trace.drop_last() && sm.input == s1.input && sm.outputs
                == s1.outputs,
{
    let n = executable::held(executable::hint_list(exe));
    let (sm, r) = choose|sm: State<E>, r: Result<Event, Error<E>>|
        {
            &&& #[trigger] ran_hints(exe, n, s0, sm, lim.bulk_us)
            &&& s1.input == sm.input
            &&& s1.outputs == sm.outputs
            &&& #[trigger] stream::did_read_event(sm.trace, s1.trace, lim.event_us, r)
            &&& Ok::<(), Error<E>>(()) == bringup::outcome(r)
        };
    lemma_hints_traffic(exe, n, s0, sm, lim.bulk_us);
}

/// Law: the input fixup is applied per hint, so two hints that name the same
/// layer leave the input tensor as it was.
pub proof fn law_second_hint_undoes_the_fixup(exe: TableView, name: Seq<u8>, input: Seq<u8>)
    ensures
        fixed_up(exe, name, fixed_up(exe, name, input)) == input,
{
    let inputs = executable::layers(exe, false);
    if let Some(i) = executable::find_named(inputs, name, 0) {
        if let Some(t) = executable::element(inputs, i) {
            layer::law_fixup_is_an_involution(
                input,
                layer::type_of(t).size(),
                layer::x_of(t) * layer::y_of(t) * layer::z_of(t),
            );
        }
    }
}

/// Law: scratch, unknown, interrupt and fence hints cause no traffic and
/// change nothing.
pub proof fn law_skipped_hints_are_silent<E>(
    exe: TableView,
    hint: HintView,
    s0: State<E>,
    s1: State<E>,
    us: u32,
    res: Result<(), Error<E>>,
)
    requires
        did_hint(exe, hint, s0, s1, us, res),
        match hint {
            HintView::Ignored => true,
            HintView::Dma { desc: Description::Scratch, .. } => true,
            HintView::Dma { desc: Description::Unknown(_), .. } => true,
            _ => false,
        },
    ensures
        s1 == s0,
        res is Ok,
{
}

// ---------------------------------------------------------------------------
// Inference
// ---------------------------------------------------------------------------

/// The state of an inference.
pub open spec fn state<T: Transport>(
    driver: Driver<T>,
    input: Seq<u8>,
    outputs: Seq<&mut [u8]>,
) -> State<T::Error> {
    State { trace: driver.trace(), input, outputs: contents(outputs) }
}

impl<T: Transport> Driver<T> {
    /// Handles one DMA hint.
    fn run_hint(
        &mut self,
        exe: &Executable<'_>,
        hint: Hint<'_>,
        input: &mut [u8],
        outputs: &mut [&mut [u8]],
    ) -> (r: Result<(), Error<T::Error>>)
        ensures
            final(self).limits() == old(self).limits(),
            final(input)@.len() == old(input)@.len(),
            final(outputs)@.len() == old(outputs)@.len(),
            forall|j: int|
                0 <= j < old(outputs)@.len() ==> final(#[trigger] final(outputs)@[j])@
                    == final(old(outputs)@[j])@,
            did_hint(
                exe@,
                hint@,
                state(*old(self), old(input)@, old(outputs)@),
                state(*final(self), final(input)@, final(outputs)@),
                old(self).limits().bulk_us,
                r,
            ),
    {
        match hint {
            Hint::Dma { desc: Description::Parameter, name: _, offset, size } => {
                let params = exe.parameters();
                if offset > params.len() || size > params.len() - offset {
                    return Err(Error::Malformed("parameter hint out of range"));
                }
                let slice = vstd::slice::slice_subrange(params, offset, offset + size);
                self.send_parameters(slice)
            },
            Hint::Dma { desc: Description::InputActivation, name, offset, size } => {
                self.run_input(exe, name, offset, size, input)
            },
            Hint::Dma { desc: Description::OutputActivation, name, offset: _, size } => {
                // offset_in_bytes is ignored: reads always land at the
                // start of the layer's staging buffer.
                self.run_output(exe, name, size, outputs, Ghost(input@))
            },
            Hint::Instruction { chunk_index } => {
                match exe.instruction_bitstream(chunk_index) {
                    Some(bitstream) => self.send_instructions(bitstream),
                    None => Err(Error::Malformed("instruction chunk index out of range")),
                }
            },
            // Scratch, unknown descriptions, interrupt and fence hints.
            _ => Ok(()),
        }
    }

    /// Handles an input hint.
    fn run_input(
        &mut self,
        exe: &Executable<'_>,
        name: &[u8],
        offset: usize,
        size: usize,
        input: &mut [u8],
    ) -> (r: Result<(), Error<T::Error>>)
        ensures
            final(self).limits() == old(self).limits(),
            final(input)@.len() == old(input)@.len(),
            final(input)@ == fixed_up(exe@, name@, old(input)@),
            did_send_range(
                old(self).trace(),
                final(self).trace(),
                DescriptorTag::InputActivations,
                final(input)@,
                offset as int,
                size as int,
                "input hint out of range",
                old(self).limits().bulk_us,
                r,
            ),
    {
        // Applied to the whole tensor, per matching hint.
        if let Some(idx) = exe.find_input_layer(name) {
            if let Some(layer) = exe.input_layer(idx) {
                if layer.data_type().is_signed() {
                    Layer::transform_signed_data_type_raw(
                        input,
                        layer.data_type().size_bytes(),
                        layer.x_dim(),
                        layer.y_dim(),
                        layer.z_dim(),
                    );
                }
            }
        }
        if offset > input.len() || size > input.len() - offset {
            return Err(Error::Malformed("input hint out of range"));
        }
        let slice = vstd::slice::slice_subrange(input, offset, offset + size);
        self.send_inputs(slice)
    }

    /// Handles an output hint.
    fn run_output(
        &mut self,
        exe: &Executable<'_>,
        name: &[u8],
        size: usize,
        outputs: &mut [&mut [u8]],
        Ghost(input): Ghost<Seq<u8>>,
    ) -> (r: Result<(), Error<T::Error>>)
        ensures
            final(self).limits() == old(self).limits(),
            final(outputs)@.len() == old(outputs)@.len(),
            forall|j: int|
                0 <= j < old(outputs)@.len() ==> final(#[trigger] final(outputs)@[j])@
                    == final(old(outputs)@[j])@,
            did_output_hint(
                exe@,
                name@,
                size as int,
                state(*old(self), input, old(outputs)@),
                state(*final(self), input, final(outputs)@),
                old(self).limits().bulk_us,
                r,
            ),
    {
        let idx: usize = match exe.find_output_layer(name) {
            Some(i) => i,
            None => {
                return Err(Error::UnknownLayer);
            },
        };
        if idx >= outputs.len() {
            return Err(Error::UnknownLayer);
        }
        let given: usize = outputs[idx].len();
        if given < size {
            return Err(Error::BufferTooSmall { needed: size, given });
        }
        self.read_output(outputs, idx, size)
    }

    /// Runs one inference.
    ///
    /// Walks the executable's DMA hints in array order and, for each one:
    ///
    /// * `BASE_ADDRESS_PARAMETER`: sends `parameters[offset..offset + size]`.
    /// * `BASE_ADDRESS_INPUT_ACTIVATION`: if the named input layer has a
    ///   signed fixed-point type, flips the sign bit of every element of
    ///   `input` first, then sends `input[offset..offset + size]`.
    /// * `BASE_ADDRESS_OUTPUT_ACTIVATION`: reads `size` bytes into the staging
    ///   buffer of the named output layer.
    /// * an instruction hint: sends that instruction bitstream chunk.
    /// * `BASE_ADDRESS_SCRATCH`, interrupt and fence hints: skipped.
    ///
    /// Once the last hint has been handled it waits for the completion event.
    ///
    /// `outputs` is indexed by output-layer index. Each buffer receives the
    /// device's *padded, tile-scattered* bytes and must be at least
    /// [`crate::Layer::padded_size_bytes`] long; run
    /// [`crate::Layer::relayout_into`] and
    /// [`crate::Layer::transform_signed_data_type`] afterwards for the flat
    /// tensor.
    ///
    /// `input` is `&mut` because the sign-bit fixup is applied in place. It is
    /// applied once per matching hint, so an executable that split one input
    /// layer across several hints would transform it more than once.
    ///
    /// A parameter-caching sibling executable is run through this same method
    /// first; the token bookkeeping is caller policy.
    pub fn invoke(
        &mut self,
        exe: &Executable<'_>,
        input: &mut [u8],
        outputs: &mut [&mut [u8]],
    ) -> (r: Result<(), Error<T::Error>>)
        ensures
            final(self).limits() == old(self).limits(),
            final(input)@.len() == old(input)@.len(),
            final(outputs)@.len() == old(outputs)@.len(),
            forall|j: int|
                0 <= j < old(outputs)@.len() ==> final(#[trigger] final(outputs)@[j])@
                    == final(old(outputs)@[j])@,
            did_invoke(
                exe@,
                state(*old(self), old(input)@, old(outputs)@),
                state(*final(self), final(input)@, final(outputs)@),
                old(self).limits(),
                r,
            ),
    {
        let ghost s0 = state(*self, input@, outputs@);
        let ghost us = self.limits().bulk_us;
        let n: usize = exe.hint_count();
        let mut i: usize = 0;
        while i < n
            invariant
                i <= n,
                n == executable::held(executable::hint_list(exe@)),
                s0 == state(*old(self), old(input)@, old(outputs)@),
                us == old(self).limits().bulk_us,
                self.limits() == old(self).limits(),
                input@.len() == old(input)@.len(),
                outputs@.len() == old(outputs)@.len(),
                forall|j: int|
                    0 <= j < old(outputs)@.len() ==> final(#[trigger] outputs@[j])@
                        == final(old(outputs)@[j])@,
                ran_hints(exe@, i as int, s0, state(*self, input@, outputs@), us),
            decreases n - i,
        {
            let ghost sm = state(*self, input@, outputs@);
            let hint = exe.hint(i);
            match self.run_hint(exe, hint, input, outputs) {
                Ok(()) => {},
                Err(e) => {
                    return Err(e);
                },
            }
            proof {
                lemma_hint(exe@, i as int, s0, sm, state(*self, input@, outputs@), us);
            }
            i = i + 1;
        }
        let ghost sm = state(*self, input@, outputs@);
        let r = self.read_event();
        proof {
            let s1 = state(*self, input@, outputs@);
            assert(ran_hints(exe@, n as int, s0, sm, us));
            assert(stream::did_read_event(sm.trace, s1.trace, self.limits().event_us, r));
            assert(did_invoke(exe@, s0, s1, self.limits(), bringup::outcome(r)));
        }
        match r {
            Ok(_) => Ok(()),
            Err(e) => Err(e),
        }
    }

    /// Reads `size` bytes into buffer `idx`.
    fn read_output(&mut self, outputs: &mut [&mut [u8]], idx: usize, size: usize) -> (r: Result<
        (),
        Error<T::Error>,
    >)
        requires
            idx < old(outputs)@.len(),
            size <= (*old(outputs)@[idx as int])@.len(),
        ensures
            final(self).limits() == old(self).limits(),
            final(outputs)@.len() == old(outputs)@.len(),
            forall|j: int|
                0 <= j < old(outputs)@.len() ==> final(#[trigger] final(outputs)@[j])@
                    == final(old(outputs)@[j])@,
            forall|j: int|
                0 <= j < old(outputs)@.len() && j != idx ==> #[trigger] contents(
                    final(outputs)@,
                )[j] == contents(old(outputs)@)[j],
            stream::did_bulk_in(
                old(self).trace(),
                final(self).trace(),
                contents(old(outputs)@)[idx as int].take(size as int),
                contents(final(outputs)@)[idx as int].take(size as int),
                old(self).limits().bulk_us,
                r,
            ),
            contents(final(outputs)@)[idx as int].len() == contents(
                old(outputs)@,
            )[idx as int].len(),
            contents(final(outputs)@)[idx as int].skip(size as int) == contents(
                old(outputs)@,
            )[idx as int].skip(size as int),
    {
        let buf = &mut *outputs[idx];
        let (head, _) = buf.split_at_mut(size);
        self.get_outputs(head)
    }
}

} // verus!
