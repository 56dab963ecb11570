//! Edge cases of the driver, the readers and the error messages.
#![allow(dead_code)]

use darwinn::csr::{self, RunControl};
use darwinn::fb;
use darwinn::{
    bytes, DataType, Description, DescriptorTag, Dfu, DfuReport, DfuStatus, Driver, Error, Event,
    Executable, ExecutableType, Hint, Layer, LayoutError, Numerics, Package, PerformanceMode,
    Timeouts, Transport, BULK_IN_ENDPOINT, EVENT_ENDPOINT, MAX_BULK_CHUNK, SENSOR_SETTLE_US,
};

// ---------------------------------------------------------------------------
// A transport that answers from a list
// ---------------------------------------------------------------------------

#[derive(Debug, Clone, Copy, PartialEq, Eq)]
struct Broken(u8);

/// What an inbound transfer is answered with: the bytes put at the front of
/// the buffer and the count that is reported.
#[derive(Debug, Clone, PartialEq, Eq)]
enum Answer {
    Bytes(Vec<u8>, usize),
    Fail(u8),
}

#[derive(Debug, Clone, PartialEq, Eq)]
enum Call {
    ControlIn(u8, u8, u16, u16, usize, u32),
    ControlOut(u8, u8, u16, u16, Vec<u8>, u32),
    BulkOut(u8, Vec<u8>, u32),
    BulkIn(u8, usize, u32),
    InterruptIn(u8, usize, u32),
}

/// Records every call. Inbound calls take the next answer, or one that fills
/// the buffer with zeros; outbound calls succeed, except for the one counted
/// down to by `fail_out_after`.
#[derive(Default)]
struct Desk {
    calls: Vec<Call>,
    answers: Vec<Answer>,
    fail_out_after: Option<usize>,
}

impl Desk {
    fn with(answers: Vec<Answer>) -> Self {
        Desk {
            calls: Vec::new(),
            answers,
            fail_out_after: None,
        }
    }

    fn answer(&mut self, buf: &mut [u8]) -> Result<usize, Broken> {
        if self.answers.is_empty() {
            for b in buf.iter_mut() {
                *b = 0;
            }
            return Ok(buf.len());
        }
        match self.answers.remove(0) {
            Answer::Bytes(data, n) => {
                let len = data.len().min(buf.len());
                buf[..len].copy_from_slice(&data[..len]);
                Ok(n)
            }
            Answer::Fail(code) => Err(Broken(code)),
        }
    }

    fn accept(&mut self) -> Result<(), Broken> {
        match self.fail_out_after {
            Some(0) => Err(Broken(0xEE)),
            Some(n) => {
                self.fail_out_after = Some(n - 1);
                Ok(())
            }
            None => Ok(()),
        }
    }
}

impl Transport for Desk {
    type Error = Broken;

    fn control_in(
        &mut self,
        req_type: u8,
        request: u8,
        value: u16,
        index: u16,
        buf: &mut [u8],
        timeout_us: u32,
    ) -> Result<usize, Broken> {
        self.calls.push(Call::ControlIn(
            req_type,
            request,
            value,
            index,
            buf.len(),
            timeout_us,
        ));
        self.answer(buf)
    }

    fn control_out(
        &mut self,
        req_type: u8,
        request: u8,
        value: u16,
        index: u16,
        data: &[u8],
        timeout_us: u32,
    ) -> Result<(), Broken> {
        self.calls.push(Call::ControlOut(
            req_type,
            request,
            value,
            index,
            data.to_vec(),
            timeout_us,
        ));
        self.accept()
    }

    fn bulk_out(&mut self, ep: u8, data: &[u8], timeout_us: u32) -> Result<(), Broken> {
        self.calls.push(Call::BulkOut(ep, data.to_vec(), timeout_us));
        self.accept()
    }

    fn bulk_in(&mut self, ep: u8, buf: &mut [u8], timeout_us: u32) -> Result<usize, Broken> {
        self.calls.push(Call::BulkIn(ep, buf.len(), timeout_us));
        self.answer(buf)
    }

    fn interrupt_in(
        &mut self,
        ep: u8,
        buf: &mut [u8],
        timeout_us: u32,
    ) -> Result<Option<usize>, Broken> {
        self.calls.push(Call::InterruptIn(ep, buf.len(), timeout_us));
        self.answer(buf).map(Some)
    }
}

fn limits() -> Timeouts {
    Timeouts {
        control_us: 11,
        bulk_us: 22,
        event_us: 33,
        poll_attempts: 3,
    }
}

fn driver(answers: Vec<Answer>) -> Driver<Desk> {
    Driver::new(Desk::with(answers), limits())
}

fn word(v: u32) -> Answer {
    Answer::Bytes(v.to_le_bytes().to_vec(), 4)
}

fn wide(v: u64) -> Answer {
    Answer::Bytes(v.to_le_bytes().to_vec(), 8)
}

// ---------------------------------------------------------------------------
// A minimal FlatBuffers writer
// ---------------------------------------------------------------------------

/// One table field value.
enum F {
    U8(u8),
    I16(i16),
    I32(i32),
    U64(u64),
    F32(f32),
    /// A `uoffset32` to another object, patched once its position is known.
    Off(usize),
}

impl F {
    fn size(&self) -> usize {
        match self {
            F::U8(_) => 1,
            F::I16(_) => 2,
            F::I32(_) | F::F32(_) | F::Off(_) => 4,
            F::U64(_) => 8,
        }
    }
}

/// A forward-writing FlatBuffers builder.
///
/// Real FlatBuffers builders write back to front so that every offset points
/// forward. This one writes front to back and patches offsets at the end, which
/// produces an equally valid buffer as long as every object is emitted before
/// the objects it points at, which is how the fixtures below are ordered.
#[derive(Default)]
struct Fb {
    buf: Vec<u8>,
    /// `(position of an offset field, id of its target)`.
    patches: Vec<(usize, usize)>,
    /// Absolute position of each reserved id.
    targets: Vec<usize>,
}

impl Fb {
    fn new() -> Self {
        Fb {
            // Reserve the root uoffset32.
            buf: vec![0; 4],
            ..Default::default()
        }
    }

    /// Reserves an id for an object that will be emitted later.
    fn id(&mut self) -> usize {
        self.targets.push(usize::MAX);
        self.targets.len() - 1
    }

    fn u16(&mut self, v: u16) {
        self.buf.extend_from_slice(&v.to_le_bytes());
    }

    fn u32(&mut self, v: u32) {
        self.buf.extend_from_slice(&v.to_le_bytes());
    }

    /// Emits a table with the given `(VT offset, value)` fields.
    fn table(&mut self, id: usize, fields: Vec<(u16, F)>) {
        let max_vt = fields.iter().map(|(o, _)| *o).max().unwrap_or(2);
        let vt_bytes = usize::from(max_vt) + 2;
        let mut slots = vec![0u16; (vt_bytes - 4) / 2];
        let mut inline = 4usize;
        for (vt, f) in &fields {
            slots[usize::from((*vt - 4) / 2)] = inline as u16;
            inline += f.size();
        }
        let vp = self.buf.len();
        self.u16(vt_bytes as u16);
        self.u16(inline as u16);
        for s in slots {
            self.u16(s);
        }
        let tp = self.buf.len();
        self.targets[id] = tp;
        self.u32((tp - vp) as u32);
        for (_, f) in fields {
            match f {
                F::U8(v) => self.buf.push(v),
                F::I16(v) => self.u16(v as u16),
                F::I32(v) => self.u32(v as u32),
                F::F32(v) => self.u32(v.to_bits()),
                F::U64(v) => self.buf.extend_from_slice(&v.to_le_bytes()),
                F::Off(target) => {
                    let pos = self.buf.len();
                    self.patches.push((pos, target));
                    self.u32(0);
                }
            }
        }
    }

    /// Emits a `[ubyte]` vector.
    fn vector_u8(&mut self, id: usize, data: &[u8]) {
        self.targets[id] = self.buf.len();
        self.u32(data.len() as u32);
        self.buf.extend_from_slice(data);
    }

    /// Emits a `string`, which is a `[ubyte]` vector with a NUL terminator.
    fn string(&mut self, id: usize, s: &[u8]) {
        self.vector_u8(id, s);
        self.buf.push(0);
    }

    /// Emits an `[int]` vector.
    fn vector_i32(&mut self, id: usize, data: &[i32]) {
        self.targets[id] = self.buf.len();
        self.u32(data.len() as u32);
        for v in data {
            self.u32(*v as u32);
        }
    }

    /// Emits a vector of offsets to tables or strings.
    fn vector_offsets(&mut self, id: usize, elements: &[usize]) {
        self.targets[id] = self.buf.len();
        self.u32(elements.len() as u32);
        for e in elements {
            let pos = self.buf.len();
            self.patches.push((pos, *e));
            self.u32(0);
        }
    }

    /// Resolves every offset and returns the finished buffer.
    fn finish(mut self, root: usize) -> Vec<u8> {
        let root_pos = self.targets[root];
        self.buf[..4].copy_from_slice(&(root_pos as u32).to_le_bytes());
        for (pos, target) in core::mem::take(&mut self.patches) {
            let t = self.targets[target];
            assert!(t != usize::MAX, "undefined target {target}");
            assert!(t >= pos, "offset must point forward: {pos} -> {t}");
            let rel = (t - pos) as u32;
            self.buf[pos..pos + 4].copy_from_slice(&rel.to_le_bytes());
        }
        self.buf
    }
}

/// Wraps `package` the way TFLite wraps an `edgetpu-custom-op`'s options: a
/// FlexBuffers map whose key `"4"` holds the serialised `Package`.
///
/// Every width is four bytes, which keeps the layout uniform and exercises the
/// same code path a real model does.
fn flex_wrap(package: &[u8]) -> Vec<u8> {
    let n = package.len();
    let mut b = Vec::new();
    b.extend_from_slice(b"4\0"); // key at 0, NUL-terminated
    b.extend_from_slice(&[0, 0]); // padding to a 4-byte boundary
    b.extend_from_slice(&(n as u32).to_le_bytes()); // string length at 4
    b.extend_from_slice(package); // string data at 8
    b.push(0); // string NUL terminator
    let keys_len_pos = b.len();
    b.extend_from_slice(&1u32.to_le_bytes()); // keys vector length
    let keys_data = b.len();
    // Key element: a *backward* offset from its own position to the key bytes.
    b.extend_from_slice(&(keys_data as u32).to_le_bytes());
    assert_eq!(keys_len_pos + 4, keys_data);

    let values = b.len() + 12;
    b.extend_from_slice(&((values - 12 - keys_data) as u32).to_le_bytes()); // keys offset
    b.extend_from_slice(&4u32.to_le_bytes()); // keys byte width
    b.extend_from_slice(&1u32.to_le_bytes()); // map length
    b.extend_from_slice(&((values - 8) as u32).to_le_bytes()); // value 0 -> string
    b.push((5 << 2) | 2); // packed type: FBT_STRING, 4-byte width

    let root = b.len();
    b.extend_from_slice(&((root - values) as u32).to_le_bytes());
    b.push((9 << 2) | 2); // packed root type: FBT_MAP, 4-byte width
    b.push(4); // root byte width
    b
}


// ---------------------------------------------------------------------------
// Bytes and bit fields
// ---------------------------------------------------------------------------

#[test]
fn little_endian_words_decode_and_encode() {
    assert_eq!(bytes::le_u16([0x34, 0x12]), 0x1234);
    assert_eq!(bytes::le_u32([0x78, 0x56, 0x34, 0x12]), 0x1234_5678);
    assert_eq!(
        bytes::le_u64([8, 7, 6, 5, 4, 3, 2, 1]),
        0x0102_0304_0506_0708
    );
    assert_eq!(bytes::u32_le_bytes(0xDEAD_BEEF), [0xEF, 0xBE, 0xAD, 0xDE]);
    assert_eq!(
        bytes::u64_le_bytes(0x0102_0304_0506_0708),
        [8, 7, 6, 5, 4, 3, 2, 1]
    );
    assert_eq!(bytes::le_u32(bytes::u32_le_bytes(0x8000_0001)), 0x8000_0001);
}

#[test]
fn words_read_as_twos_complement() {
    assert_eq!(bytes::word_to_i16(0x7FFF), 32767);
    assert_eq!(bytes::word_to_i16(0x8000), -32768);
    assert_eq!(bytes::word_to_i32(0xFFFF_FFFF), -1);
    assert_eq!(bytes::word_to_i32(0x8000_0000), i32::MIN);
}

#[test]
fn products_saturate() {
    assert_eq!(bytes::sat_mul(6, 7), 42);
    assert_eq!(bytes::sat_mul(usize::MAX, 2), usize::MAX);
    assert_eq!(bytes::sat_mul(usize::MAX, 0), 0);
}

#[test]
fn byte_strings_compare_by_content() {
    assert!(bytes::same_bytes(b"abc", b"abc"));
    assert!(!bytes::same_bytes(b"abc", b"abd"));
    assert!(!bytes::same_bytes(b"abc", b"ab"));
    assert_eq!(bytes::slice_or_empty(None), b"");
    assert_eq!(bytes::slice_or_empty(Some(b"x")), b"x");
}

#[test]
fn fields_at_and_past_the_edge_of_the_word() {
    assert_eq!(csr::get_field(u64::MAX, 64, 8), 0);
    assert_eq!(csr::get_field(u64::MAX, 0, 64), u64::MAX);
    assert_eq!(csr::get_field(u64::MAX, 60, 8), 0xF);
    assert_eq!(csr::set_field(0x1234, 64, 8, 0xFF), 0x1234);
    assert_eq!(csr::set_field(0x1234, 0, 64, 7), 7);
    assert_eq!(csr::set_field(0, 60, 8, 0xFF), 0xF000_0000_0000_0000);
    assert_eq!(csr::set_field(0xABCD, 4, 0, 0xFF), 0xABCD);
}

#[test]
fn the_sensor_clock_divider_is_three_bits_wide() {
    let (lsb, width) = csr::OMC0_D0_CLK_DIV;
    assert_eq!(csr::get_field(0xFF, lsb, width), 7);
}

#[test]
fn a_field_reads_back_what_was_set() {
    let raw = csr::set_field(0xFFFF_0000_FFFF_0000, 12, 9, 0x155);
    assert_eq!(csr::get_field(raw, 12, 9), 0x155);
    assert_eq!(csr::set_field(raw, 12, 9, 0x155), raw);
    assert_eq!(csr::set_field(raw, 12, 9, csr::get_field(raw, 12, 9)), raw);
    // Cut to the width of the field.
    assert_eq!(csr::get_field(csr::set_field(0, 4, 3, 0xFF), 4, 3), 7);
}

// ---------------------------------------------------------------------------
// Register access
// ---------------------------------------------------------------------------

#[test]
fn transport_failures_pass_through_register_access() {
    let mut d = driver(vec![Answer::Fail(7)]);
    assert_eq!(
        d.csr_read64(csr::DEEP_SLEEP),
        Err(Error::Transport(Broken(7)))
    );
    d.transport().fail_out_after = Some(0);
    assert_eq!(
        d.csr_write32(csr::SCU_CTRL_0, 1),
        Err(Error::Transport(Broken(0xEE)))
    );
    assert_eq!(d.transport().calls.len(), 2);
}

#[test]
fn a_count_larger_than_the_buffer_is_a_short_transfer_too() {
    let mut d = driver(vec![Answer::Bytes(vec![1, 2, 3, 4], 5)]);
    assert_eq!(
        d.csr_read32(csr::OMC0_00),
        Err(Error::ShortTransfer {
            expected: 4,
            actual: 5
        })
    );
}

#[test]
fn high_address_bits_do_not_reach_the_wire() {
    let mut d = driver(Vec::new());
    d.csr_write64(0x0004_8788, 1).unwrap();
    d.csr_write64(0xFFFF_FFFF_0004_8788, 1).unwrap();
    let calls = d.release().calls;
    assert_eq!(calls[0], calls[1]);
    assert_eq!(
        calls[0],
        Call::ControlOut(0x40, 0, 0x8788, 4, vec![1, 0, 0, 0, 0, 0, 0, 0], 11)
    );
}

#[test]
fn temperature_covers_the_whole_sensor_range() {
    let mut d = driver(vec![word(0), word(1023 << 16), word(0xFC00_FFFF)]);
    assert_eq!(d.temperature_millicelsius().unwrap(), 166_050);
    assert_eq!(d.temperature_millicelsius().unwrap(), -89_700);
    assert_eq!(d.temperature_millicelsius().unwrap(), 166_050);
}

// ---------------------------------------------------------------------------
// Bring-up
// ---------------------------------------------------------------------------

#[test]
fn performance_mode_defaults_to_high() {
    assert_eq!(PerformanceMode::default(), PerformanceMode::High);
}

#[test]
fn default_timeouts() {
    assert_eq!(
        Timeouts::default(),
        Timeouts {
            control_us: 200_000,
            bulk_us: 200_000,
            event_us: 200_000,
            poll_attempts: 1000,
        }
    );
}

#[test]
fn init_on_a_dead_bus_stops_at_the_first_read() {
    let mut d = driver(vec![Answer::Fail(1)]);
    assert_eq!(
        d.init(PerformanceMode::Low),
        Err(Error::Transport(Broken(1)))
    );
    assert_eq!(
        d.release().calls,
        vec![Call::ControlIn(0xC0, 1, 0xA000, 1, 4, 11)]
    );
}

#[test]
fn init_reports_how_long_to_wait() {
    // Chip ID, self-test, two read-modify-writes with their extra reads, then
    // a chip that is already in reset and wakes at once.
    let mut d = driver(vec![
        word(0x089A),
        word(0x00AA_089A),
        word(0),
        word(0),
        word(0),
        word(0),
        word(0x00C0_0000),
        word(0x00C0_0000),
        word(0),
        wide(0),
        wide(0x7F),
    ]);
    assert_eq!(d.init(PerformanceMode::High), Ok(SENSOR_SETTLE_US));
    assert_eq!(SENSOR_SETTLE_US, 100);
    let calls = d.release().calls;
    assert!(calls.iter().all(|c| matches!(
        c,
        Call::ControlIn(_, _, _, _, _, 11) | Call::ControlOut(_, _, _, _, _, 11)
    )));
    // 24 transfers outside the polls, and three polls that succeed at once.
    assert_eq!(calls.len(), 27);
}

#[test]
fn a_tile_broadcast_that_never_reads_back_times_out() {
    let mut d = driver(Vec::new());
    assert_eq!(
        d.run_control(RunControl::MoveToHalt),
        Err(Error::PollTimeout("tileconfig0 broadcast (run control)"))
    );
    let calls = d.release().calls;
    // Five scalar writes, the broadcast, and exactly the allowed reads.
    assert_eq!(calls.len(), 6 + 3);
    assert_eq!(
        calls[0],
        Call::ControlOut(0x40, 0, 0x4018, 4, vec![2, 0, 0, 0, 0, 0, 0, 0], 11)
    );
}

#[test]
fn run_control_writes_each_state_as_its_number() {
    for (state, number) in [
        (RunControl::MoveToIdle, 0u8),
        (RunControl::MoveToRun, 1),
        (RunControl::MoveToHalt, 2),
        (RunControl::MoveToSingleStep, 3),
    ] {
        let mut d = driver(vec![wide(0x7F)]);
        d.run_control(state).unwrap();
        let calls = d.release().calls;
        assert_eq!(calls.len(), 17);
        let last = match &calls[16] {
            Call::ControlOut(_, _, _, _, data, _) => data.clone(),
            other => panic!("{other:?}"),
        };
        assert_eq!(last, vec![number, 0, 0, 0, 0, 0, 0, 0]);
    }
}

#[test]
fn finish_init_enables_the_sensor_and_runs() {
    let mut d = driver(vec![word(0x40), wide(0x7F)]);
    d.finish_init().unwrap();
    let calls = d.release().calls;
    assert_eq!(calls.len(), 2 + 17);
    assert_eq!(
        calls[1],
        Call::ControlOut(0x40, 1, 0xA0DC, 1, vec![0x41, 0, 0, 0], 11)
    );
}

// ---------------------------------------------------------------------------
// Streams
// ---------------------------------------------------------------------------

#[test]
fn an_empty_stream_is_a_header_alone() {
    let mut d = driver(Vec::new());
    d.send_data(DescriptorTag::Interrupt2, &[]).unwrap();
    assert_eq!(
        d.release().calls,
        vec![Call::BulkOut(1, vec![0, 0, 0, 0, 6, 0, 0, 0], 22)]
    );
}

#[test]
fn chunks_at_the_limit_are_not_split_further() {
    let mut d = driver(Vec::new());
    let data: Vec<u8> = (0..2 * MAX_BULK_CHUNK).map(|i| (i % 253) as u8).collect();
    d.send_inputs(&data).unwrap();
    let calls = d.release().calls;
    assert_eq!(calls.len(), 3);
    let mut sent = Vec::new();
    for c in &calls[1..] {
        match c {
            Call::BulkOut(1, piece, 22) => {
                assert_eq!(piece.len(), MAX_BULK_CHUNK);
                sent.extend_from_slice(piece);
            }
            other => panic!("{other:?}"),
        }
    }
    assert_eq!(sent, data);
}

#[test]
fn a_failed_header_keeps_the_payload_back() {
    let mut d = driver(Vec::new());
    d.transport().fail_out_after = Some(0);
    assert_eq!(
        d.send_parameters(&[1, 2, 3]),
        Err(Error::Transport(Broken(0xEE)))
    );
    assert_eq!(d.release().calls.len(), 1);
}

#[test]
fn a_failed_chunk_stops_the_stream() {
    let mut d = driver(Vec::new());
    d.transport().fail_out_after = Some(1);
    let data = vec![0u8; 3 * MAX_BULK_CHUNK];
    assert_eq!(
        d.send_parameters(&data),
        Err(Error::Transport(Broken(0xEE)))
    );
    assert_eq!(d.release().calls.len(), 2);
}

#[test]
fn outputs_larger_than_a_chunk_are_read_in_chunks() {
    let mut d = driver(Vec::new());
    let mut buf = vec![0xFFu8; MAX_BULK_CHUNK + 5];
    d.get_outputs(&mut buf).unwrap();
    assert!(buf.iter().all(|b| *b == 0));
    assert_eq!(
        d.release().calls,
        vec![
            Call::BulkIn(BULK_IN_ENDPOINT, MAX_BULK_CHUNK, 22),
            Call::BulkIn(BULK_IN_ENDPOINT, 5, 22),
        ]
    );
}

#[test]
fn reading_into_nothing_makes_no_transfer() {
    let mut d = driver(Vec::new());
    d.get_outputs(&mut []).unwrap();
    assert!(d.release().calls.is_empty());
}

#[test]
fn a_read_that_reports_too_much_is_rejected() {
    let mut d = driver(vec![
        Answer::Bytes(vec![1, 2], 2),
        Answer::Bytes(vec![3, 4], 3),
    ]);
    let mut buf = [9u8; 4];
    assert_eq!(
        d.get_outputs(&mut buf),
        Err(Error::ShortTransfer {
            expected: 2,
            actual: 3
        })
    );
    assert_eq!(buf, [1, 2, 3, 4]);
}

#[test]
fn a_failed_read_leaves_what_came_before() {
    let mut d = driver(vec![Answer::Bytes(vec![5], 1), Answer::Fail(2)]);
    let mut buf = [9u8; 3];
    assert_eq!(
        d.get_outputs(&mut buf),
        Err(Error::Transport(Broken(2)))
    );
    assert_eq!(buf, [5, 9, 9]);
}

#[test]
fn byte_by_byte_reads_take_as_many_transfers_as_bytes() {
    let mut d = driver((0..4u8).map(|b| Answer::Bytes(vec![b], 1)).collect());
    let mut buf = [0xFFu8; 4];
    d.get_outputs(&mut buf).unwrap();
    assert_eq!(buf, [0, 1, 2, 3]);
    assert_eq!(d.release().calls.len(), 4);
}

#[test]
fn events_default_to_zero_and_fail_with_the_bus() {
    assert_eq!(
        Event::default(),
        Event {
            address: 0,
            length: 0,
            tag: 0
        }
    );
    let mut d = driver(vec![Answer::Fail(3)]);
    assert_eq!(d.read_event(), Err(Error::Transport(Broken(3))));
    assert_eq!(
        d.release().calls,
        vec![Call::BulkIn(EVENT_ENDPOINT, 16, 33)]
    );
}

#[test]
fn interrupt_polls_hand_the_bytes_over() {
    let mut d = driver(vec![Answer::Bytes(vec![1, 2, 3], 3), Answer::Fail(4)]);
    let mut buf = [0u8; 8];
    assert_eq!(d.poll_interrupt(&mut buf, 5), Ok(Some(3)));
    assert_eq!(buf, [1, 2, 3, 0, 0, 0, 0, 0]);
    assert_eq!(
        d.poll_interrupt(&mut buf, 6),
        Err(Error::Transport(Broken(4)))
    );
    assert_eq!(
        d.release().calls,
        vec![Call::InterruptIn(3, 8, 5), Call::InterruptIn(3, 8, 6)]
    );
}

// ---------------------------------------------------------------------------
// DFU
// ---------------------------------------------------------------------------

#[test]
fn an_empty_image_is_terminated_and_detached() {
    let mut desk = Desk::default();
    let report = Dfu::new(&mut desk, 4).download(&[], &mut []).unwrap();
    assert_eq!(
        report,
        DfuReport {
            download_blocks: 0,
            upload_blocks: 0,
            status_requests: 1,
            bytes: 0
        }
    );
    assert_eq!(
        desk.calls,
        vec![
            Call::ControlOut(0x01, 0x0B, 0, 4, vec![], 200_000),
            Call::ControlIn(0xA1, 3, 0, 4, 6, 200_000),
            Call::ControlOut(0x21, 1, 0, 4, vec![], 200_000),
            Call::ControlOut(0x21, 0, 1000, 4, vec![], 200_000),
        ]
    );
}

#[test]
fn a_block_size_of_zero_counts_as_one() {
    let mut desk = Desk::default();
    let report = Dfu::new(&mut desk, 0)
        .with_block_size(0)
        .download(&[0, 0, 0], &mut [9, 9, 9, 7])
        .unwrap();
    assert_eq!(report.download_blocks, 3);
    assert_eq!(report.status_requests, 7);
    assert_eq!(desk.calls.len(), 4 * 3 + 4);
}

#[test]
fn the_rest_of_the_readback_buffer_is_left_alone() {
    let mut desk = Desk::default();
    let mut readback = [7u8; 5];
    Dfu::new(&mut desk, 0)
        .with_block_size(2)
        .download(&[0, 0, 0], &mut readback)
        .unwrap();
    assert_eq!(readback, [0, 0, 0, 7, 7]);
}

#[test]
fn a_mismatch_keeps_the_device_attached() {
    let mut desk = Desk::default();
    let err = Dfu::new(&mut desk, 0)
        .download(&[0, 5], &mut [0, 0])
        .unwrap_err();
    assert_eq!(err, Error::ReadbackMismatch { offset: 1 });
    assert!(!desk
        .calls
        .iter()
        .any(|c| matches!(c, Call::ControlOut(0x21, 0, ..))));
}

#[test]
fn a_short_status_or_upload_is_rejected() {
    let mut desk = Desk::with(vec![Answer::Bytes(vec![0; 6], 5)]);
    assert_eq!(
        Dfu::new(&mut desk, 0).download(&[1], &mut [0]),
        Err(Error::ShortTransfer {
            expected: 6,
            actual: 5
        })
    );
    let ok = Answer::Bytes(vec![0; 6], 6);
    let mut desk = Desk::with(vec![ok.clone(), ok, Answer::Bytes(vec![1], 0)]);
    assert_eq!(
        Dfu::new(&mut desk, 0).download(&[1], &mut [0]),
        Err(Error::ShortTransfer {
            expected: 1,
            actual: 0
        })
    );
}

#[test]
fn a_failed_set_interface_ends_the_download() {
    let mut desk = Desk::default();
    desk.fail_out_after = Some(0);
    assert_eq!(
        Dfu::new(&mut desk, 0).download(&[1], &mut [0]),
        Err(Error::Transport(Broken(0xEE)))
    );
    assert_eq!(desk.calls.len(), 1);
}

#[test]
fn status_codes() {
    let status = DfuStatus {
        status: 0,
        poll_timeout_ms: 0x03_0201,
        state: 5,
        string_index: 6,
    };
    assert!(status.is_ok());
    assert!(!DfuStatus { status: 3, ..status }.is_ok());
    assert_eq!(DfuReport::default().bytes, 0);
}

// ---------------------------------------------------------------------------
// Readers
// ---------------------------------------------------------------------------

#[test]
fn absent_fields_take_their_defaults() {
    let mut b = Fb::new();
    let root = b.id();
    b.table(root, vec![(6, F::I32(-5))]);
    let buf = b.finish(root);
    let t = fb::root(&buf).unwrap();
    assert_eq!(t.i32(6, 1), -5);
    assert_eq!(t.i32(4, 1), 1);
    assert_eq!(t.u8(8, 2), 2);
    assert_eq!(t.i16(100, -3), -3);
    assert_eq!(t.u64(10, 4), 4);
    assert_eq!(t.float_bits(12, 0x3F80_0000), 0x3F80_0000);
    assert!(t.table(4).is_none());
    assert!(t.union(4).is_none());
    assert!(t.vector(4).is_none());
    assert!(t.bytes(4).is_none());
    assert!(t.str_bytes(4).is_none());
}

#[test]
fn fields_of_every_width() {
    let mut b = Fb::new();
    let root = b.id();
    let data = b.id();
    let numbers = b.id();
    b.table(
        root,
        vec![
            (4, F::U8(0xFE)),
            (6, F::I16(-2)),
            (8, F::U64(0xFFEE_DDCC_BBAA_9988)),
            (10, F::F32(-1.5)),
            (12, F::Off(data)),
            (14, F::Off(numbers)),
        ],
    );
    b.string(data, b"xyz");
    b.vector_i32(numbers, &[7, -8]);
    let buf = b.finish(root);
    let t = fb::root(&buf).unwrap();
    assert_eq!(t.u8(4, 0), 0xFE);
    assert_eq!(t.i16(6, 0), -2);
    assert_eq!(t.u64(8, 0), 0xFFEE_DDCC_BBAA_9988);
    assert_eq!(f32::from_bits(t.float_bits(10, 0)), -1.5);
    assert_eq!(t.str_bytes(12), Some(&b"xyz"[..]));
    let v = t.vector(14).unwrap();
    assert_eq!(v.len(), 2);
    assert_eq!(v.i32(0), Some(7));
    assert_eq!(v.i32(1), Some(-8));
    assert_eq!(v.i32(2), None);
    assert_eq!(t.vector(12).unwrap().as_bytes(), Some(&b"xyz"[..]));
}

#[test]
fn vectors_that_claim_too_much_are_cut_off_by_the_buffer() {
    // Length prefix of four elements, but only one behind it.
    let mut b = Fb::new();
    let root = b.id();
    let v = b.id();
    b.table(root, vec![(4, F::Off(v))]);
    b.vector_i32(v, &[1, 2, 3, 4]);
    let mut buf = b.finish(root);
    buf.truncate(buf.len() - 12);
    let v = fb::root(&buf).unwrap().vector(4).unwrap();
    assert_eq!(v.len(), 4);
    assert_eq!(v.i32(0), Some(1));
    assert_eq!(v.i32(1), None);
    assert!(v.table(1).is_none());
    assert!(v.str_bytes(1).is_none());
}

#[test]
fn flexbuffer_maps_find_their_key() {
    let wrapped = flex_wrap(b"payload");
    let map = fb::FlexMap::root(&wrapped).unwrap();
    assert_eq!(map.bytes(b"4"), Some(&b"payload"[..]));
    assert_eq!(map.bytes(b"5"), None);
    assert_eq!(map.bytes(b""), None);
    // A root that is not a map.
    let mut other = wrapped.clone();
    let n = other.len();
    other[n - 2] = 4 << 2;
    assert!(fb::FlexMap::root(&other).is_none());
    // A root width that does not exist.
    let mut odd = wrapped;
    odd[n - 1] = 3;
    assert!(fb::FlexMap::root(&odd).is_none());
}

/// An executable with a role and nothing else.
fn bare_executable(role: i16) -> Vec<u8> {
    let mut b = Fb::new();
    let root = b.id();
    b.table(root, vec![(30, F::I16(role)), (32, F::U64(role as u64))]);
    b.finish(root)
}

/// A package of executables.
fn package_of(executables: &[Vec<u8>]) -> Vec<u8> {
    let mut m = Fb::new();
    let multi = m.id();
    let list = m.id();
    m.table(multi, vec![(4, F::Off(list))]);
    let ids: Vec<usize> = executables.iter().map(|_| m.id()).collect();
    m.vector_offsets(list, &ids);
    for (id, bytes) in ids.iter().zip(executables) {
        m.string(*id, bytes);
    }
    let multi_bytes = m.finish(multi);
    let mut p = Fb::new();
    let package = p.id();
    let payload = p.id();
    p.table(package, vec![(6, F::Off(payload))]);
    p.vector_u8(payload, &multi_bytes);
    p.finish(package)
}

#[test]
fn the_last_matching_executable_wins() {
    let mut first = bare_executable(0);
    let end = first.len();
    first[end - 8] = 77; // another token
    let bytes = package_of(&[
        first,
        bare_executable(1),
        bare_executable(0),
        bare_executable(9),
    ]);
    let package = Package::from_bytes(&bytes).unwrap();
    let multi = package.multi_executable().unwrap();
    assert_eq!(multi.len(), 4);
    assert!(!multi.is_empty());
    assert_eq!(
        multi.get(3).unwrap().executable_type(),
        ExecutableType::Unknown(9)
    );
    assert!(multi.get(4).is_none());
    let exe = package.inference_executable().unwrap();
    assert_eq!(exe.executable_type(), ExecutableType::StandAlone);
    assert_eq!(exe.parameter_caching_token(), 0);
    let caching = package.parameter_caching_executable().unwrap();
    assert_eq!(caching.executable_type(), ExecutableType::ParameterCaching);
    assert_eq!(caching.parameter_caching_token(), 1);
}

#[test]
fn an_unreadable_executable_spoils_the_package() {
    let bytes = package_of(&[bare_executable(0), vec![1, 2]]);
    let package = Package::from_bytes(&bytes).unwrap();
    assert!(package.multi_executable().unwrap().get(0).is_some());
    assert!(package.inference_executable().is_none());
    assert!(package.parameter_caching_executable().is_none());
}

#[test]
fn an_empty_package_offers_nothing() {
    let bytes = package_of(&[]);
    let package = Package::from_bytes(&bytes).unwrap();
    assert!(package.multi_executable().unwrap().is_empty());
    assert!(package.inference_executable().is_none());
    let bytes = bare_executable(0);
    assert!(Package::from_bytes(&bytes)
        .unwrap()
        .multi_executable()
        .is_none());
}

/// One layer's fields, for [`executable_with`].
struct LayerFields {
    name: &'static [u8],
    fields: Vec<(u16, i32)>,
    data_type: i16,
    maps: Option<[Vec<i32>; 6]>,
}

/// One hint, for [`executable_with`].
enum HintFields {
    Descriptor(i16, &'static [u8], i32, i32),
    Chunk(i32),
    Other(u8),
}

/// An executable with the given input layers, output layers and hints, one
/// instruction chunk `[1, 2]` with one relocation, and the parameters
/// `[10, 11, 12]`.
fn executable_with(
    inputs: Vec<LayerFields>,
    outputs: Vec<LayerFields>,
    hints: Vec<HintFields>,
) -> Vec<u8> {
    let mut b = Fb::new();
    let exe = b.id();
    let chunks = b.id();
    let params = b.id();
    let hint_table = b.id();
    let ins = b.id();
    let outs = b.id();
    b.table(
        exe,
        vec![
            (14, F::Off(chunks)),
            (16, F::Off(params)),
            (18, F::Off(hint_table)),
            (20, F::Off(ins)),
            (22, F::Off(outs)),
        ],
    );
    let chunk = b.id();
    b.vector_offsets(chunks, &[chunk]);
    let code = b.id();
    let relocations = b.id();
    b.table(chunk, vec![(4, F::Off(code)), (6, F::Off(relocations))]);
    b.vector_u8(code, &[1, 2]);
    let relocation = b.id();
    b.vector_offsets(relocations, &[relocation]);
    let meta = b.id();
    b.table(relocation, vec![(4, F::Off(meta)), (6, F::I32(96))]);
    let meta_name = b.id();
    b.table(meta, vec![(4, F::I16(2)), (8, F::Off(meta_name))]);
    b.string(meta_name, b"weights");
    b.vector_u8(params, &[10, 11, 12]);

    let list = b.id();
    b.table(hint_table, vec![(4, F::Off(list))]);
    let ids: Vec<usize> = hints.iter().map(|_| b.id()).collect();
    b.vector_offsets(list, &ids);
    for (id, hint) in ids.iter().zip(hints) {
        let body = b.id();
        match hint {
            HintFields::Descriptor(desc, name, offset, size) => {
                b.table(*id, vec![(4, F::U8(1)), (6, F::Off(body))]);
                let meta = b.id();
                b.table(
                    body,
                    vec![(4, F::Off(meta)), (6, F::I32(offset)), (8, F::I32(size))],
                );
                let text = b.id();
                b.table(meta, vec![(4, F::I16(desc)), (8, F::Off(text))]);
                b.string(text, name);
            }
            HintFields::Chunk(index) => {
                b.table(*id, vec![(4, F::U8(2)), (6, F::Off(body))]);
                b.table(body, vec![(4, F::I32(index))]);
            }
            HintFields::Other(kind) => {
                b.table(*id, vec![(4, F::U8(kind)), (6, F::Off(body))]);
                b.table(body, vec![(4, F::I32(0))]);
            }
        }
    }
    for (list, layers) in [(ins, inputs), (outs, outputs)] {
        let ids: Vec<usize> = layers.iter().map(|_| b.id()).collect();
        b.vector_offsets(list, &ids);
        for (id, layer) in ids.iter().zip(layers) {
            let name = b.id();
            let union = b.id();
            let mut fields: Vec<(u16, F)> = vec![(4, F::Off(name)), (16, F::I16(layer.data_type))];
            for (vt, v) in layer.fields {
                fields.push((vt, F::I32(v)));
            }
            if layer.maps.is_some() {
                fields.push((18, F::U8(1)));
                fields.push((20, F::Off(union)));
            }
            b.table(*id, fields);
            b.string(name, layer.name);
            if let Some(maps) = layer.maps {
                let layout = b.id();
                b.table(union, vec![(4, F::Off(layout))]);
                let ids: Vec<usize> = maps.iter().map(|_| b.id()).collect();
                b.table(
                    layout,
                    ids.iter()
                        .enumerate()
                        .map(|(i, id)| (4 + 2 * i as u16, F::Off(*id)))
                        .collect(),
                );
                for (id, map) in ids.iter().zip(&maps) {
                    b.vector_i32(*id, map);
                }
            }
        }
    }
    b.finish(exe)
}

/// A layer of the given size and type.
fn plain_layer(name: &'static [u8], y: i32, x: i32, z: i32, data_type: i16) -> LayerFields {
    LayerFields {
        name,
        fields: vec![(8, y), (10, x), (12, z)],
        data_type,
        maps: None,
    }
}

/// A layer with tile maps.
fn tiled_layer(y: i32, x: i32, z: i32, data_type: i16, maps: [&[i32]; 6]) -> LayerFields {
    LayerFields {
        maps: Some(maps.map(|m| m.to_vec())),
        ..plain_layer(b"out", y, x, z, data_type)
    }
}

#[test]
fn layers_are_found_by_the_first_of_a_name() {
    let bytes = executable_with(
        vec![
            plain_layer(b"a", 1, 1, 1, 0),
            plain_layer(b"b", 1, 1, 1, 0),
            plain_layer(b"b", 1, 1, 1, 0),
        ],
        vec![],
        vec![],
    );
    let exe = Executable::from_bytes(&bytes).unwrap();
    assert_eq!(exe.input_layer_count(), 3);
    assert_eq!(exe.find_input_layer(b"b"), Some(1));
    assert_eq!(exe.find_input_layer(b"c"), None);
    assert_eq!(exe.output_layer_count(), 0);
    assert_eq!(exe.find_output_layer(b"a"), None);
    assert!(exe.output_layer(0).is_none());
}

#[test]
fn relocation_entries_are_exposed() {
    let bytes = executable_with(vec![], vec![], vec![]);
    let exe = Executable::from_bytes(&bytes).unwrap();
    assert_eq!(exe.field_offset_count(0), 1);
    assert_eq!(
        exe.field_offset(0, 0),
        Some((96, Description::Parameter, &b"weights"[..]))
    );
    assert_eq!(exe.field_offset(0, 1), None);
    assert_eq!(exe.field_offset(1, 0), None);
    assert_eq!(exe.field_offset_count(1), 0);
}

#[test]
fn malformed_hints_are_ignored() {
    let bytes = executable_with(
        vec![],
        vec![],
        vec![
            HintFields::Descriptor(2, b"p", -1, 4),
            HintFields::Descriptor(2, b"p", 0, -4),
            HintFields::Chunk(-1),
            HintFields::Other(3),
            HintFields::Descriptor(7, b"q", 1, 2),
        ],
    );
    let exe = Executable::from_bytes(&bytes).unwrap();
    assert_eq!(exe.hint_count(), 5);
    assert_eq!(
        exe.hints(),
        vec![
            Hint::Ignored,
            Hint::Ignored,
            Hint::Ignored,
            Hint::Ignored,
            Hint::Dma {
                desc: Description::Unknown(7),
                name: b"q",
                offset: 1,
                size: 2
            },
        ]
    );
    assert_eq!(exe.hint(5), Hint::Ignored);
}

/// `bytes` with every stored length prefix `from` turned into the largest one.
fn inflate(mut bytes: Vec<u8>, from: u32) -> Vec<u8> {
    let mut i = 0;
    while i + 4 <= bytes.len() {
        if bytes[i..i + 4] == from.to_le_bytes() {
            bytes[i..i + 4].copy_from_slice(&u32::MAX.to_le_bytes());
        }
        i += 1;
    }
    bytes
}

#[test]
fn stored_counts_are_held_against_the_buffer() {
    // A list of one hint, and lists of one layer each, that claim to be huge.
    let mut b = Fb::new();
    let exe = b.id();
    let hint_table = b.id();
    let ins = b.id();
    let outs = b.id();
    b.table(
        exe,
        vec![
            (18, F::Off(hint_table)),
            (20, F::Off(ins)),
            (22, F::Off(outs)),
        ],
    );
    let list = b.id();
    b.table(hint_table, vec![(4, F::Off(list))]);
    b.vector_i32(list, &[0x7FFF_0001]);
    b.vector_i32(ins, &[0x7FFF_0002]);
    b.vector_i32(outs, &[0x7FFF_0003]);
    let bytes = inflate(b.finish(exe), 1);
    let exe = Executable::from_bytes(&bytes).unwrap();
    assert_eq!(exe.input_layer_count(), u32::MAX as usize);
    assert_eq!(exe.output_layer_count(), u32::MAX as usize);
    assert!(exe.hint_count() <= bytes.len() / 4);
    assert!(exe.hint_count() >= 1);
    assert_eq!(exe.hints().len(), exe.hint_count());
    assert!(exe.hints().iter().all(|h| *h == Hint::Ignored));
    assert_eq!(exe.hint(exe.hint_count()), Hint::Ignored);
    assert_eq!(exe.find_input_layer(b"x"), None);
    assert_eq!(exe.find_output_layer(b"x"), None);
    let mut d = driver(Vec::new());
    assert_eq!(d.invoke(&exe, &mut [], &mut []), Ok(()));
    assert_eq!(d.release().calls.len(), 1);
}

#[test]
fn negative_dimensions_count_as_zero_and_sizes_saturate() {
    let bytes = executable_with(
        vec![
            plain_layer(b"n", -1, 2, 3, 0),
            LayerFields {
                name: b"huge",
                fields: vec![
                    (6, i32::MAX),
                    (8, i32::MAX),
                    (10, i32::MAX),
                    (12, i32::MAX),
                    (22, i32::MAX),
                ],
                data_type: 5,
                maps: None,
            },
        ],
        vec![],
        vec![],
    );
    let exe = Executable::from_bytes(&bytes).unwrap();
    let n = exe.input_layer(0).unwrap();
    assert_eq!((n.y_dim(), n.x_dim(), n.z_dim()), (0, 2, 3));
    assert_eq!(n.actual_size_bytes(), 0);
    assert_eq!(n.numerics(), None::<Numerics>);
    let huge = exe.input_layer(1).unwrap();
    assert_eq!(huge.actual_size_bytes(), usize::MAX);
    assert_eq!(
        huge.padded_size_bytes(),
        (i32::MAX as usize).saturating_mul(i32::MAX as usize)
    );
}

#[test]
fn element_types_by_number() {
    let expected = [
        DataType::FixedPoint8,
        DataType::FixedPoint16,
        DataType::SignedFixedPoint32,
        DataType::BFloat,
        DataType::Half,
        DataType::Single,
        DataType::Unknown(6),
        DataType::Unknown(7),
        DataType::SignedFixedPoint8,
        DataType::SignedFixedPoint16,
        DataType::Unknown(10),
    ];
    for (number, expected) in expected.iter().enumerate() {
        let bytes = executable_with(
            vec![plain_layer(b"t", 1, 1, 1, number as i16)],
            vec![],
            vec![],
        );
        let exe = Executable::from_bytes(&bytes).unwrap();
        assert_eq!(exe.input_layer(0).unwrap().data_type(), *expected);
    }
}

#[test]
fn the_sign_fixup_stops_at_the_element_count_and_at_the_buffer() {
    let mut buf = [0u8; 6];
    Layer::transform_signed_data_type_raw(&mut buf, 1, 2, 2, 1);
    assert_eq!(buf, [128, 128, 128, 128, 0, 0]);
    let mut buf = [0u8; 5];
    Layer::transform_signed_data_type_raw(&mut buf, 2, 100, 100, 100);
    assert_eq!(buf, [0, 128, 0, 128, 0]);
    let mut buf = [0u8; 2];
    Layer::transform_signed_data_type_raw(&mut buf, 0, 1, 1, 1);
    assert_eq!(buf, [0, 0]);
    Layer::transform_signed_data_type_raw(&mut buf, usize::MAX, usize::MAX, 2, 2);
    assert_eq!(buf, [0, 0]);
}

// ---------------------------------------------------------------------------
// Relayout
// ---------------------------------------------------------------------------

fn relayout(layer: LayerFields, src: &[u8], dst: &mut [u8]) -> Result<(), LayoutError> {
    let bytes = executable_with(vec![], vec![layer], vec![]);
    let exe = Executable::from_bytes(&bytes).unwrap();
    exe.output_layer(0).unwrap().relayout_into(src, dst)
}

fn ramp(n: usize) -> Vec<u8> {
    (0..n).map(|i| i as u8).collect()
}

#[test]
fn relayout_derives_the_stride_from_two_columns() {
    // One tile of three columns, four elements apart, two of them real.
    let mut dst = [0xEEu8; 8];
    relayout(
        tiled_layer(
            1,
            3,
            2,
            0,
            [&[0], &[0, 0, 0], &[1], &[0, 4, 8], &[0], &[12, 12, 12]],
        ),
        &ramp(32),
        &mut dst,
    )
    .unwrap();
    assert_eq!(dst, [1, 2, 5, 6, 9, 10, 0xEE, 0xEE]);
}

#[test]
fn relayout_derives_the_stride_from_two_rows_in_a_single_column() {
    let mut dst = [0u8; 4];
    relayout(
        tiled_layer(2, 1, 2, 0, [&[0, 0], &[0], &[0], &[0], &[0, 1], &[6]]),
        &ramp(32),
        &mut dst,
    )
    .unwrap();
    assert_eq!(dst, [0, 1, 6, 7]);
}

#[test]
fn relayout_of_rgb_always_steps_by_four() {
    // The maps say five apart; three-byte pixels are read four apart.
    let mut dst = [0u8; 6];
    relayout(
        tiled_layer(1, 2, 3, 0, [&[0], &[0, 0], &[0], &[0, 5], &[0], &[10, 10]]),
        &ramp(16),
        &mut dst,
    )
    .unwrap();
    assert_eq!(dst, [0, 1, 2, 4, 5, 6]);
}

#[test]
fn relayout_counts_the_maps_in_elements() {
    let mut dst = [0u8; 4];
    relayout(
        tiled_layer(1, 2, 1, 1, [&[0], &[0, 1], &[0, 5], &[0, 0], &[0], &[1, 1]]),
        &ramp(16),
        &mut dst,
    )
    .unwrap();
    assert_eq!(dst, [0, 1, 10, 11]);
}

#[test]
fn relayout_failures_name_what_is_missing() {
    let full: [&[i32]; 6] = [&[0, 0], &[0, 1], &[0, 8], &[0, 0], &[0, 1], &[4, 4]];
    let cases: [(usize, &[i32], &str); 6] = [
        (0, &[], "y_coordinate_to_linear_tile_id_map"),
        (1, &[0], "x_coordinate_to_linear_tile_id_map"),
        (2, &[0], "linearized_tile_byte_offset"),
        (3, &[0], "x_coordinate_to_local_byte_offset"),
        (4, &[], "y_coordinate_to_local_y_offset"),
        (5, &[4], "x_coordinate_to_local_y_row_size"),
    ];
    for (which, map, what) in cases {
        let mut maps = full;
        maps[which] = map;
        let mut dst = [0u8; 8];
        assert_eq!(
            relayout(tiled_layer(2, 2, 2, 0, maps), &ramp(64), &mut dst),
            Err(LayoutError::Malformed(what))
        );
        assert_eq!(dst, [0; 8]);
    }
}

#[test]
fn relayout_rejects_negative_places() {
    let mut dst = [0u8; 4];
    assert_eq!(
        relayout(
            tiled_layer(1, 2, 2, 0, [&[-1], &[0, 0], &[0], &[0, 2], &[0], &[4, 4]]),
            &ramp(64),
            &mut dst
        ),
        Err(LayoutError::Malformed("negative tile id"))
    );
    assert_eq!(
        relayout(
            tiled_layer(1, 2, 2, 0, [&[0], &[0, 0], &[-9], &[0, 2], &[0], &[4, 4]]),
            &ramp(64),
            &mut dst
        ),
        Err(LayoutError::Malformed("negative buffer index"))
    );
    assert_eq!(
        relayout(
            tiled_layer(1, 2, 2, 0, [&[0], &[0, 0], &[0], &[2, 0], &[0], &[4, 4]]),
            &ramp(64),
            &mut dst
        ),
        Err(LayoutError::Malformed("negative z stride"))
    );
}

#[test]
fn relayout_keeps_what_it_copied_before_it_failed() {
    let mut dst = [0xEEu8; 4];
    assert_eq!(
        relayout(
            tiled_layer(1, 2, 2, 0, [&[0], &[0, 1], &[1, 50], &[0, 0], &[0], &[4, 4]]),
            &ramp(10),
            &mut dst
        ),
        Err(LayoutError::Malformed("relayout source out of range"))
    );
    assert_eq!(dst, [1, 2, 0xEE, 0xEE]);
}

/// Two rows of one column, four bytes apart, run `executions` times with
/// `size_bytes` between them.
fn repeated_layer(executions: i32, size_bytes: i32, z: i32) -> LayerFields {
    let mut layer = tiled_layer(2, 1, z, 0, [&[0, 0], &[0], &[0], &[0], &[0, 1], &[4]]);
    layer.fields.push((6, size_bytes));
    layer.fields.push((22, executions));
    layer
}

#[test]
fn relayout_walks_every_execution_of_a_tiled_output() {
    let mut dst = [0xEEu8; 6];
    relayout(repeated_layer(2, 8, 1), &ramp(16), &mut dst).unwrap();
    assert_eq!(dst, [0, 4, 8, 12, 0xEE, 0xEE]);
    let mut dst = [0xEEu8; 12];
    relayout(repeated_layer(3, 10, 2), &ramp(40), &mut dst).unwrap();
    assert_eq!(dst, [0, 1, 4, 5, 10, 11, 14, 15, 20, 21, 24, 25]);
}

#[test]
fn relayout_needs_room_and_data_for_every_execution() {
    let mut dst = [0xEEu8; 3];
    assert_eq!(
        relayout(repeated_layer(2, 8, 1), &ramp(16), &mut dst),
        Err(LayoutError::BufferTooSmall {
            needed: 4,
            given: 3
        })
    );
    // The second execution runs out of source after its first row.
    let mut dst = [0xEEu8; 4];
    assert_eq!(
        relayout(repeated_layer(2, 8, 1), &ramp(12), &mut dst),
        Err(LayoutError::Malformed("relayout source out of range"))
    );
    assert_eq!(dst, [0, 4, 8, 0xEE]);
}

#[test]
fn relayout_of_no_execution_copies_nothing() {
    let mut dst = [7u8; 2];
    relayout(repeated_layer(0, 8, 1), &ramp(16), &mut dst).unwrap();
    assert_eq!(dst, [7, 7]);
    let mut dst = [];
    relayout(repeated_layer(0, 8, 1), &ramp(16), &mut dst).unwrap();
}

#[test]
fn relayout_of_no_execution_still_looks_the_coordinates_up() {
    let mut layer = tiled_layer(2, 1, 1, 0, [&[0], &[0], &[0], &[0], &[0, 1], &[4]]);
    layer.fields.push((22, 0));
    let mut dst = [7u8; 2];
    assert_eq!(
        relayout(layer, &ramp(16), &mut dst),
        Err(LayoutError::Malformed("y_coordinate_to_linear_tile_id_map"))
    );
    assert_eq!(
        relayout(repeated_layer(0, 8, 1), &ramp(4), &mut dst),
        Err(LayoutError::Malformed("relayout source out of range"))
    );
    assert_eq!(dst, [7, 7]);
}

#[test]
fn relayout_of_empty_pieces_ends_however_often_it_runs() {
    let mut dst = [7u8; 2];
    relayout(repeated_layer(i32::MAX, 0, 0), &ramp(16), &mut dst).unwrap();
    relayout(repeated_layer(i32::MAX, 1, 0), &ramp(16), &mut dst).unwrap();
    relayout(repeated_layer(2, 100, 0), &ramp(4), &mut dst).unwrap();
    assert_eq!(
        relayout(repeated_layer(2, 0, 0), &ramp(3), &mut dst),
        Err(LayoutError::Malformed("relayout source out of range"))
    );
    assert_eq!(dst, [7, 7]);
}

#[test]
fn relayout_ends_where_the_maps_or_the_buffers_do() {
    let mut dst = [7u8; 2];
    // Rows without columns, more than the maps hold.
    assert_eq!(
        relayout(
            tiled_layer(i32::MAX, 0, 3, 0, [&[0, 0], &[], &[], &[], &[0, 0], &[]]),
            &ramp(4),
            &mut dst
        ),
        Err(LayoutError::Malformed("y_coordinate_to_linear_tile_id_map"))
    );
    // Columns, more than the maps hold.
    assert_eq!(
        relayout(
            tiled_layer(1, i32::MAX, 0, 0, [&[0], &[0, 0], &[0], &[0, 0], &[0], &[1, 1]]),
            &ramp(4),
            &mut dst
        ),
        Err(LayoutError::Malformed("x_coordinate_to_linear_tile_id_map"))
    );
    // Executions of an empty vector, more than the source has padding for.
    let mut layer = plain_layer(b"v", 1, 1, 0, 0);
    layer.fields.push((6, 1));
    layer.fields.push((22, i32::MAX));
    assert_eq!(
        relayout(layer, &ramp(16), &mut dst),
        Err(LayoutError::Malformed("relayout source too short"))
    );
    assert_eq!(dst, [7, 7]);
}

#[test]
fn relayout_needs_a_known_type_and_maps() {
    let mut dst = [0u8; 4];
    assert_eq!(
        relayout(plain_layer(b"u", 1, 1, 4, 77), &ramp(4), &mut dst),
        Err(LayoutError::Malformed("unknown layer data type"))
    );
    assert_eq!(
        relayout(plain_layer(b"m", 2, 2, 1, 0), &ramp(4), &mut dst),
        Err(LayoutError::Malformed("output layer has no layout maps"))
    );
}

#[test]
fn relayout_of_a_single_vector_is_a_copy() {
    let mut dst = [0xEEu8; 6];
    relayout(plain_layer(b"v", 1, 1, 4, 0), &ramp(9), &mut dst).unwrap();
    assert_eq!(dst, [0, 1, 2, 3, 0xEE, 0xEE]);
    assert_eq!(
        relayout(plain_layer(b"v", 1, 1, 4, 0), &ramp(3), &mut dst),
        Err(LayoutError::Malformed("relayout source too short"))
    );
    assert_eq!(
        relayout(plain_layer(b"v", 1, 1, 8, 0), &ramp(9), &mut dst),
        Err(LayoutError::BufferTooSmall {
            needed: 8,
            given: 6
        })
    );
}

#[test]
fn relayout_of_rows_without_columns_copies_nothing() {
    let mut dst = [7u8; 2];
    relayout(
        tiled_layer(2, 0, 3, 0, [&[0, 0], &[], &[], &[], &[0, 0], &[]]),
        &ramp(4),
        &mut dst,
    )
    .unwrap();
    assert_eq!(dst, [7, 7]);
    assert_eq!(
        relayout(
            tiled_layer(2, 0, 3, 0, [&[0], &[], &[], &[], &[0], &[]]),
            &ramp(4),
            &mut dst
        ),
        Err(LayoutError::Malformed("y_coordinate_to_linear_tile_id_map"))
    );
}

#[test]
fn layout_errors_convert() {
    let e: Error<Broken> = LayoutError::Malformed("tile").into();
    assert_eq!(e, Error::Malformed("tile"));
}

// ---------------------------------------------------------------------------
// Inference
// ---------------------------------------------------------------------------

fn invoke(
    bytes: &[u8],
    input: &mut [u8],
    outputs: &mut [&mut [u8]],
) -> (Result<(), Error<Broken>>, Vec<Call>) {
    let exe = Executable::from_bytes(bytes).unwrap();
    let mut d = driver(Vec::new());
    let r = d.invoke(&exe, input, outputs);
    (r, d.release().calls)
}

#[test]
fn an_inference_without_hints_only_waits_for_the_event() {
    let bytes = executable_with(vec![], vec![], vec![]);
    let (r, calls) = invoke(&bytes, &mut [], &mut []);
    assert_eq!(r, Ok(()));
    assert_eq!(calls, vec![Call::BulkIn(2, 16, 33)]);
}

#[test]
fn hints_out_of_range_are_malformed() {
    for (hint, what) in [
        (
            HintFields::Descriptor(2, b"", 1, 3),
            "parameter hint out of range",
        ),
        (
            HintFields::Descriptor(1, b"", 2, 1),
            "input hint out of range",
        ),
        (
            HintFields::Chunk(1),
            "instruction chunk index out of range",
        ),
    ] {
        let bytes = executable_with(vec![], vec![], vec![hint]);
        let (r, calls) = invoke(&bytes, &mut [1, 2], &mut []);
        assert_eq!(r, Err(Error::Malformed(what)));
        assert!(calls.is_empty());
    }
}

#[test]
fn outputs_need_a_layer_and_a_buffer() {
    let hint = || vec![HintFields::Descriptor(0, b"out", 0, 2)];
    let (r, calls) = invoke(&executable_with(vec![], vec![], hint()), &mut [], &mut []);
    assert_eq!(r, Err(Error::UnknownLayer));
    assert!(calls.is_empty());
    let layer = || vec![plain_layer(b"out", 1, 1, 2, 0)];
    let (r, _) = invoke(
        &executable_with(vec![], layer(), hint()),
        &mut [],
        &mut [],
    );
    assert_eq!(r, Err(Error::UnknownLayer));
    let mut small = [9u8; 1];
    let (r, _) = invoke(
        &executable_with(vec![], layer(), hint()),
        &mut [],
        &mut [&mut small],
    );
    assert_eq!(
        r,
        Err(Error::BufferTooSmall {
            needed: 2,
            given: 1
        })
    );
    let mut staging = [9u8; 4];
    let (r, calls) = invoke(
        &executable_with(vec![], layer(), hint()),
        &mut [],
        &mut [&mut staging],
    );
    assert_eq!(r, Ok(()));
    // Only the front of the buffer is written.
    assert_eq!(staging, [0, 0, 9, 9]);
    assert_eq!(calls.len(), 2);
}

#[test]
fn skipped_hints_cause_no_traffic() {
    let bytes = executable_with(
        vec![],
        vec![],
        vec![
            HintFields::Descriptor(3, b"scratch", 0, 64),
            HintFields::Descriptor(9, b"?", 0, 64),
            HintFields::Other(4),
        ],
    );
    let (r, calls) = invoke(&bytes, &mut [], &mut []);
    assert_eq!(r, Ok(()));
    assert_eq!(calls.len(), 1);
}

#[test]
fn two_input_hints_flip_the_signs_twice() {
    let bytes = executable_with(
        vec![plain_layer(b"in", 1, 1, 2, 8)],
        vec![],
        vec![
            HintFields::Descriptor(1, b"in", 0, 1),
            HintFields::Descriptor(1, b"in", 1, 1),
        ],
    );
    let mut input = [0x01, 0x02];
    let (r, calls) = invoke(&bytes, &mut input, &mut []);
    assert_eq!(r, Ok(()));
    assert_eq!(input, [0x01, 0x02]);
    assert_eq!(calls[1], Call::BulkOut(1, vec![0x81], 22));
    assert_eq!(calls[3], Call::BulkOut(1, vec![0x02], 22));
}

#[test]
fn unsigned_and_unnamed_inputs_are_sent_as_they_are() {
    let bytes = executable_with(
        vec![plain_layer(b"in", 1, 1, 2, 0)],
        vec![],
        vec![
            HintFields::Descriptor(1, b"in", 0, 2),
            HintFields::Descriptor(1, b"other", 0, 2),
        ],
    );
    let mut input = [0x01, 0x02];
    let (r, calls) = invoke(&bytes, &mut input, &mut []);
    assert_eq!(r, Ok(()));
    assert_eq!(calls[1], Call::BulkOut(1, vec![1, 2], 22));
    assert_eq!(calls[3], Call::BulkOut(1, vec![1, 2], 22));
}

#[test]
fn a_missing_event_fails_the_inference() {
    let bytes = executable_with(vec![], vec![], vec![HintFields::Chunk(0)]);
    let exe = Executable::from_bytes(&bytes).unwrap();
    let mut d = driver(vec![Answer::Bytes(vec![], 0)]);
    assert_eq!(
        d.invoke(&exe, &mut [], &mut []),
        Err(Error::ShortTransfer {
            expected: 16,
            actual: 0
        })
    );
    assert_eq!(d.release().calls.len(), 3);
}

// ---------------------------------------------------------------------------
// Messages
// ---------------------------------------------------------------------------

#[test]
fn messages_of_every_error() {
    let cases: [(Error<Broken>, &str); 10] = [
        (
            Error::Transport(Broken(5)),
            "USB transport error: Broken(5)",
        ),
        (
            Error::ShortTransfer {
                expected: 10,
                actual: 0,
            },
            "short transfer: wanted 10 bytes, got 0",
        ),
        (
            Error::ChipId { found: 0x123 },
            "not an Edge TPU: chip ID is 0x123, expected 0x89a",
        ),
        (
            Error::SelfTest { found: 0 },
            "CSR self-test read back 0x0, expected 0xaa",
        ),
        (
            Error::PollTimeout("a register"),
            "timed out waiting for a register",
        ),
        (
            Error::DfuStatus {
                status: 0x0F,
                state: 0xA0,
            },
            "DFU error: bStatus=0x0f, bState=0xa0",
        ),
        (
            Error::ReadbackMismatch { offset: 300 },
            "firmware read-back differs at offset 300",
        ),
        (
            Error::Malformed("a field"),
            "malformed executable: a field",
        ),
        (
            Error::BufferTooSmall {
                needed: 1234567890,
                given: 98,
            },
            "buffer too small: need 1234567890 bytes, have 98",
        ),
        (
            Error::UnknownLayer,
            "DMA hint names a layer the executable does not have",
        ),
    ];
    for (e, text) in cases {
        assert_eq!(e.message(), text);
        assert_eq!(e.message_with("Broken(5)"), text);
    }
}

#[test]
fn messages_format_like_the_standard_library() {
    for v in [0u64, 7, 9, 10, 15, 16, 255, 4096, 0xDEAD_BEEF, u64::MAX] {
        let e: Error<Broken> = Error::SelfTest { found: v };
        assert_eq!(
            e.message(),
            format!("CSR self-test read back {v:#x}, expected 0xaa")
        );
        let e: Error<Broken> = Error::ReadbackMismatch { offset: v as usize };
        assert_eq!(
            e.message(),
            format!("firmware read-back differs at offset {}", v as usize)
        );
    }
    for b in [0u8, 9, 15, 16, 0x7F, 0xFF] {
        let e: Error<Broken> = Error::DfuStatus {
            status: b,
            state: 255 - b,
        };
        assert_eq!(
            e.message(),
            format!("DFU error: bStatus={:#04x}, bState={:#04x}", b, 255 - b)
        );
    }
}
