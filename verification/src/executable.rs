//! Zero-copy reader for the DarwiNN executable FlatBuffer.
//!
//! Nothing is copied out of the model buffer: every type here is a borrowed
//! view, so a model can live in flash and be run from there.
//!
//! # Container chain
//!
//! What TFLite hands the custom op is a FlexBuffer map, not a FlatBuffer.
//! Unwrapping it takes three steps:
//!
//! ```text
//! flexbuffer map["4"]
//!   -> Package.serialized_multi_executable     -- VT 6
//!     -> MultiExecutable.serialized_executables -- VT 4, vector<string>
//!       -> Executable                           -- one per string
//! ```
//!
//! There is no verifier pass over the buffer. Every accessor is bounds-checked
//! against the backing slice and returns `None` rather than reading out of
//! range.
//!
//! # What is deliberately not implemented
//!
//! `InstructionBitstream.field_offsets`, the relocation entries for addresses
//! baked into instructions. Bitstreams are sent verbatim;
//! [`Executable::field_offset_count`] exists so a caller can detect an
//! executable that would need relocation.
//!
//! `InterruptHint`, `FenceHint`, `TensorShape`, `TensorLayout` and
//! `OutputShapeInfo` are unused. `NumericsConstants` is exposed, because
//! quantisation parameters are cheap to read and a caller that wants to
//! dequantise otherwise has to re-parse the model.
use vstd::prelude::*;

use crate::bytes;
use crate::error::Error;
use crate::fb;
use crate::fb::{FlexMap, FlexMapView, Table, TableView, Vector, VectorView};
use crate::layer;
use crate::layer::Layer;

verus! {

// --- vtable offsets ---------------------------------------------------------

/// `Package.serialized_multi_executable`.
pub const PACKAGE_SERIALIZED_MULTI_EXECUTABLE: u16 = 6;

/// `MultiExecutable.serialized_executables`.
pub const MULTI_SERIALIZED_EXECUTABLES: u16 = 4;

/// `Executable.instruction_bitstreams`.
pub const EXE_INSTRUCTION_BITSTREAMS: u16 = 14;

/// `Executable.parameters`.
pub const EXE_PARAMETERS: u16 = 16;

/// `Executable.dma_hints`.
pub const EXE_DMA_HINTS: u16 = 18;

/// `Executable.input_layers`.
pub const EXE_INPUT_LAYERS: u16 = 20;

/// `Executable.output_layers`.
pub const EXE_OUTPUT_LAYERS: u16 = 22;

/// `Executable.type`.
pub const EXE_TYPE: u16 = 30;

/// `Executable.parameter_caching_token`.
pub const EXE_PARAMETER_CACHING_TOKEN: u16 = 32;

/// `InstructionBitstream.bitstream`.
pub const BITSTREAM_BITSTREAM: u16 = 4;

/// `InstructionBitstream.field_offsets`.
pub const BITSTREAM_FIELD_OFFSETS: u16 = 6;

/// `FieldOffset.meta`.
pub const FIELD_OFFSET_META: u16 = 4;

/// `FieldOffset.offset_bit`.
pub const FIELD_OFFSET_OFFSET_BIT: u16 = 6;

/// `DmaHints.hints`.
pub const DMA_HINTS_HINTS: u16 = 4;

/// `DmaHint.any_hint_type`.
pub const HINT_ANY_HINT_TYPE: u16 = 4;

/// `DmaHint.any_hint`.
pub const HINT_ANY_HINT: u16 = 6;

/// `DmaDescriptorHint.meta`.
pub const DESC_HINT_META: u16 = 4;

/// `DmaDescriptorHint.offset_in_bytes`.
pub const DESC_HINT_OFFSET_IN_BYTES: u16 = 6;

/// `DmaDescriptorHint.size_in_bytes`.
pub const DESC_HINT_SIZE_IN_BYTES: u16 = 8;

/// `InstructionHint.instruction_chunk_index`.
pub const INSTR_HINT_CHUNK_INDEX: u16 = 4;

/// `Meta.desc`.
pub const META_DESC: u16 = 4;

/// `Meta.name`.
pub const META_NAME: u16 = 8;

/// `AnyHint` discriminant of a `DmaDescriptorHint`.
pub const ANY_HINT_DMA_DESCRIPTOR: u8 = 1;

/// `AnyHint` discriminant of an `InstructionHint`.
pub const ANY_HINT_INSTRUCTION: u8 = 2;

/// FlexBuffer map key under which the serialised `Package` lives: `"4"`.
pub const CUSTOM_OP_EXECUTABLE_KEY: [u8; 1] = [0x34];

// ---------------------------------------------------------------------------
// Enums
// ---------------------------------------------------------------------------

/// What a `DmaDescriptorHint` refers to.
#[derive(Debug, Clone, Copy, PartialEq, Eq)]
pub enum Description {
    /// Output activations, read back from the device.
    OutputActivation,
    /// Input activations, sent to the device.
    InputActivation,
    /// A slice of the executable's parameter blob.
    Parameter,
    /// Scratch memory. Skipped.
    Scratch,
    /// A value the schema does not define.
    Unknown(i16),
}

impl Description {
    /// The description that a schema value stands for.
    pub open spec fn of(v: i16) -> Description {
        if v == 0 {
            Description::OutputActivation
        } else if v == 1 {
            Description::InputActivation
        } else if v == 2 {
            Description::Parameter
        } else if v == 3 {
            Description::Scratch
        } else {
            Description::Unknown(v)
        }
    }

    fn from_raw(v: i16) -> (r: Self)
        ensures
            r == Description::of(v),
    {
        match v {
            0 => Description::OutputActivation,
            1 => Description::InputActivation,
            2 => Description::Parameter,
            3 => Description::Scratch,
            other => Description::Unknown(other),
        }
    }
}

/// Role of an executable inside a package.
#[derive(Debug, Clone, Copy, PartialEq, Eq)]
pub enum ExecutableType {
    /// Runs on its own; treated as the inference executable.
    StandAlone,
    /// Uploads parameters only, run when the caching token changes.
    ParameterCaching,
    /// Runs against already-cached parameters; treated as the inference
    /// executable.
    ExecutionOnly,
    /// A value the schema does not define.
    Unknown(i16),
}

impl ExecutableType {
    /// The role that a schema value stands for.
    pub open spec fn of(v: i16) -> ExecutableType {
        if v == 0 {
            ExecutableType::StandAlone
        } else if v == 1 {
            ExecutableType::ParameterCaching
        } else if v == 2 {
            ExecutableType::ExecutionOnly
        } else {
            ExecutableType::Unknown(v)
        }
    }

    fn from_raw(v: i16) -> (r: Self)
        ensures
            r == ExecutableType::of(v),
    {
        match v {
            0 => ExecutableType::StandAlone,
            1 => ExecutableType::ParameterCaching,
            2 => ExecutableType::ExecutionOnly,
            other => ExecutableType::Unknown(other),
        }
    }
}

/// One entry of the executable's DMA hint list.
#[derive(Debug, Clone, Copy, PartialEq, Eq)]
pub enum Hint<'a> {
    /// A DMA descriptor: move `size` bytes at `offset` in the buffer named by
    /// `desc`.
    Dma {
        /// Which buffer the descriptor refers to.
        desc: Description,
        /// The layer name from `Meta.name`, empty when absent.
        name: &'a [u8],
        /// Byte offset into that buffer.
        offset: usize,
        /// Byte length to move.
        size: usize,
    },
    /// Send instruction bitstream chunk `chunk_index`.
    Instruction {
        /// Index into [`Executable::instruction_bitstream`].
        chunk_index: usize,
    },
    /// An `InterruptHint`, `FenceHint`, `NONE`, or a malformed entry.
    Ignored,
}

/// What a [`Hint`] stands for.
pub enum HintView {
    /// Move bytes.
    Dma {
        /// Which buffer.
        desc: Description,
        /// The layer name.
        name: Seq<u8>,
        /// Where in the buffer.
        offset: int,
        /// How many bytes.
        size: int,
    },
    /// Send an instruction chunk.
    Instruction {
        /// Which chunk.
        chunk_index: int,
    },
    /// Nothing to do.
    Ignored,
}

impl<'a> View for Hint<'a> {
    type V = HintView;

    open spec fn view(&self) -> HintView {
        match *self {
            Hint::Dma { desc, name, offset, size } => HintView::Dma {
                desc,
                name: name@,
                offset: offset as int,
                size: size as int,
            },
            Hint::Instruction { chunk_index } => HintView::Instruction {
                chunk_index: chunk_index as int,
            },
            Hint::Ignored => HintView::Ignored,
        }
    }
}

/// Errors from the layout helpers, which do not touch the USB transport and so
/// cannot produce a [`crate::Error::Transport`].
#[derive(Debug, Clone, Copy, PartialEq, Eq)]
#[non_exhaustive]
pub enum LayoutError {
    /// The layer's `OutputLayout` maps were missing or indexed out of range.
    Malformed(&'static str),
    /// A caller-provided buffer was too small.
    BufferTooSmall {
        /// Bytes required.
        needed: usize,
        /// Bytes provided.
        given: usize,
    },
}

impl<E> From<LayoutError> for Error<E> {
    fn from(e: LayoutError) -> (r: Self) {
        match e {
            LayoutError::Malformed(m) => Error::Malformed(m),
            LayoutError::BufferTooSmall { needed, given } => Error::BufferTooSmall {
                needed,
                given,
            },
        }
    }
}

impl<E> vstd::std_specs::convert::FromSpecImpl<LayoutError> for Error<E> {
    open spec fn obeys_from_spec() -> bool {
        true
    }

    open spec fn from_spec(e: LayoutError) -> Self {
        match e {
            LayoutError::Malformed(m) => Error::Malformed(m),
            LayoutError::BufferTooSmall { needed, given } => Error::BufferTooSmall {
                needed,
                given,
            },
        }
    }
}

// ---------------------------------------------------------------------------
// Model
// ---------------------------------------------------------------------------

/// The FlatBuffer that a byte string holds, where there is one.
pub open spec fn nested(b: Option<Seq<u8>>) -> Option<TableView> {
    match b {
        Some(b) => fb::root_table(b),
        None => None,
    }
}

/// The number of elements of a vector, none where there is no vector.
pub open spec fn count(v: Option<VectorView>) -> int {
    match v {
        Some(v) => v.len,
        None => 0,
    }
}

/// The number of elements of a vector that its buffer has room for, none where
/// there is no vector.
pub open spec fn held(v: Option<VectorView>) -> int {
    match v {
        Some(v) => v.held(),
        None => 0,
    }
}

/// Table `i` of a vector of tables.
pub open spec fn element(v: Option<VectorView>, i: int) -> Option<TableView> {
    match v {
        Some(v) => v.table(i),
        None => None,
    }
}

/// A byte string, or the empty one.
pub open spec fn or_empty(b: Option<Seq<u8>>) -> Seq<u8> {
    match b {
        Some(b) => b,
        None => Seq::empty(),
    }
}

/// The package inside a custom-op payload.
pub open spec fn custom_op_package(options: Seq<u8>) -> Option<TableView> {
    match FlexMapView::root(options) {
        Some(map) => nested(map.lookup(CUSTOM_OP_EXECUTABLE_KEY@, 0)),
        None => None,
    }
}

/// The list of executables inside a package.
pub open spec fn package_multi(package: TableView) -> Option<TableView> {
    nested(package.bytes(PACKAGE_SERIALIZED_MULTI_EXECUTABLE as int))
}

/// The number of executables in a list.
pub open spec fn multi_len(multi: TableView) -> int {
    count(multi.vector(MULTI_SERIALIZED_EXECUTABLES as int))
}

/// Executable `i` of a list.
pub open spec fn multi_get(multi: TableView, i: int) -> Option<TableView> {
    match multi.vector(MULTI_SERIALIZED_EXECUTABLES as int) {
        Some(v) => nested(v.str_bytes(i)),
        None => None,
    }
}

/// An executable's role.
pub open spec fn role(exe: TableView) -> ExecutableType {
    ExecutableType::of(exe.i16_or(EXE_TYPE as int, 0))
}

/// Whether an executable is one that caches parameters, or, the other way
/// round, one that performs inference.
pub open spec fn suits(exe: TableView, caching: bool) -> bool {
    if caching {
        role(exe) is ParameterCaching
    } else {
        role(exe) is ExecutionOnly || role(exe) is StandAlone
    }
}

/// Every executable of a list can be read.
pub open spec fn all_readable(multi: TableView) -> bool {
    forall|i: int| 0 <= i < multi_len(multi) ==> #[trigger] multi_get(multi, i) is Some
}

/// Executable `i` is the last suitable one of a list.
pub open spec fn is_last_suitable(multi: TableView, i: int, caching: bool) -> bool {
    &&& 0 <= i < multi_len(multi)
    &&& suits(multi_get(multi, i)->0, caching)
    &&& forall|j: int|
        i < j < multi_len(multi) ==> !suits((#[trigger] multi_get(multi, j))->0, caching)
}

/// `r` is the last suitable executable of a package, which is given up as a
/// whole where any executable in it cannot be read.
pub open spec fn is_choice(package: TableView, caching: bool, r: Option<TableView>) -> bool {
    match package_multi(package) {
        None => r is None,
        Some(multi) => match r {
            Some(e) => all_readable(multi) && exists|i: int|
                is_last_suitable(multi, i, caching) && #[trigger] multi_get(multi, i) == Some(e),
            None => !all_readable(multi) || forall|i: int|
                0 <= i < multi_len(multi) ==> !suits((#[trigger] multi_get(multi, i))->0, caching),
        },
    }
}

/// The bytes of instruction chunk `i`.
pub open spec fn bitstream(exe: TableView, i: int) -> Option<Seq<u8>> {
    match element(exe.vector(EXE_INSTRUCTION_BITSTREAMS as int), i) {
        Some(t) => t.bytes(BITSTREAM_BITSTREAM as int),
        None => None,
    }
}

/// The relocation entries of instruction chunk `i`.
pub open spec fn relocations(exe: TableView, i: int) -> Option<VectorView> {
    match element(exe.vector(EXE_INSTRUCTION_BITSTREAMS as int), i) {
        Some(t) => t.vector(BITSTREAM_FIELD_OFFSETS as int),
        None => None,
    }
}

/// What a `Meta` table describes; an absent one describes output activations.
pub open spec fn meta_desc(meta: Option<TableView>) -> Description {
    Description::of(
        match meta {
            Some(m) => m.i16_or(META_DESC as int, 0),
            None => 0,
        },
    )
}

/// The name in a `Meta` table, empty when absent.
pub open spec fn meta_name(meta: Option<TableView>) -> Seq<u8> {
    or_empty(
        match meta {
            Some(m) => m.bytes(META_NAME as int),
            None => None,
        },
    )
}

/// An executable's parameter blob.
pub open spec fn parameter_blob(exe: TableView) -> Seq<u8> {
    or_empty(exe.bytes(EXE_PARAMETERS as int))
}

/// An executable's input layers, or its output layers.
pub open spec fn layers(exe: TableView, output: bool) -> Option<VectorView> {
    exe.vector(
        if output {
            EXE_OUTPUT_LAYERS as int
        } else {
            EXE_INPUT_LAYERS as int
        },
    )
}

/// Layer `i` exists and is called `name`.
pub open spec fn is_named(v: Option<VectorView>, i: int, name: Seq<u8>) -> bool {
    match element(v, i) {
        Some(t) => layer::layer_name(t) == name,
        None => false,
    }
}

/// The first layer at or after `i` that is called `name`.
pub open spec fn find_named(v: Option<VectorView>, name: Seq<u8>, i: int) -> Option<int>
    decreases held(v) - i,
{
    if i >= held(v) {
        None
    } else if is_named(v, i, name) {
        Some(i)
    } else {
        find_named(v, name, i + 1)
    }
}

/// An executable's hint list.
pub open spec fn hint_list(exe: TableView) -> Option<VectorView> {
    match exe.table(EXE_DMA_HINTS as int) {
        Some(t) => t.vector(DMA_HINTS_HINTS as int),
        None => None,
    }
}

/// The hint that a `DmaDescriptorHint` stands for.
pub open spec fn descriptor_hint(d: TableView) -> HintView {
    let offset = d.i32_or(DESC_HINT_OFFSET_IN_BYTES as int, 0);
    let size = d.i32_or(DESC_HINT_SIZE_IN_BYTES as int, 0);
    if offset < 0 || size < 0 {
        HintView::Ignored
    } else {
        HintView::Dma {
            desc: meta_desc(d.table(DESC_HINT_META as int)),
            name: meta_name(d.table(DESC_HINT_META as int)),
            offset: offset as int,
            size: size as int,
        }
    }
}

/// The hint that an `InstructionHint` stands for.
pub open spec fn instruction_hint(d: TableView) -> HintView {
    let index = d.i32_or(INSTR_HINT_CHUNK_INDEX as int, 0);
    if index < 0 {
        HintView::Ignored
    } else {
        HintView::Instruction { chunk_index: index as int }
    }
}

/// DMA hint `i` of an executable.
pub open spec fn hint_at(exe: TableView, i: int) -> HintView {
    match element(hint_list(exe), i) {
        None => HintView::Ignored,
        Some(t) => {
            let kind = t.u8_or(HINT_ANY_HINT_TYPE as int, 0);
            match t.table(HINT_ANY_HINT as int) {
                None => HintView::Ignored,
                Some(d) => if kind == ANY_HINT_DMA_DESCRIPTOR {
                    descriptor_hint(d)
                } else if kind == ANY_HINT_INSTRUCTION {
                    instruction_hint(d)
                } else {
                    HintView::Ignored
                },
            }
        },
    }
}

// ---------------------------------------------------------------------------
// Laws
// ---------------------------------------------------------------------------

/// Law: a layer that is found by name is the first of that name, and one that
/// is not found is not there.
pub proof fn law_find_is_first(v: Option<VectorView>, name: Seq<u8>, from: int)
    requires
        v matches Some(list) ==> 0 <= list.data,
    ensures
        match find_named(v, name, from) {
            Some(i) => from <= i < held(v) && is_named(v, i, name) && forall|j: int|
                from <= j < i ==> !is_named(v, j, name),
            None => forall|j: int| from <= j ==> !is_named(v, j, name),
        },
    decreases held(v) - from,
{
    if from < held(v) {
        if !is_named(v, from, name) {
            law_find_is_first(v, name, from + 1);
        }
    } else {
        assert forall|j: int| from <= j implies !is_named(v, j, name) by {
            if let Some(list) = v {
                fb::law_elements_past_the_buffer_are_absent(list, j);
            }
        }
    }
}

/// Law: whatever counts an executable stores, the walks over its hints, its
/// input layers and its output layers are bounded by the length of the
/// executable, and leave nothing out: what is not walked is no hint and no
/// layer.
pub proof fn law_lists_are_bounded_by_the_buffer(exe: TableView, i: int)
    ensures
        0 <= held(hint_list(exe)) <= exe.buf.len(),
        0 <= held(layers(exe, false)) <= exe.buf.len(),
        0 <= held(layers(exe, true)) <= exe.buf.len(),
        held(hint_list(exe)) <= i ==> hint_at(exe, i) is Ignored,
        held(layers(exe, false)) <= i ==> element(layers(exe, false), i) is None,
        held(layers(exe, true)) <= i ==> element(layers(exe, true), i) is None,
{
}

/// Law: the walk over a package's executables, which stops at the first that
/// cannot be read, is bounded by the length of the package's list.
pub proof fn law_executables_are_bounded_by_the_buffer(multi: TableView, i: int)
    ensures
        ({
            let list = multi.vector(MULTI_SERIALIZED_EXECUTABLES as int);
            &&& 0 <= held(list) <= multi.buf.len()
            &&& held(list) <= i ==> multi_get(multi, i) is None
        }),
{
}

/// Law: where a package offers several suitable executables, the one chosen is
/// determined: no two different executables can both be the choice.
pub proof fn law_choice_is_unique(
    package: TableView,
    caching: bool,
    a: Option<TableView>,
    b: Option<TableView>,
)
    requires
        is_choice(package, caching, a),
        is_choice(package, caching, b),
    ensures
        a == b,
{
    if let Some(multi) = package_multi(package) {
        if a is Some && b is Some {
            let i = choose|i: int|
                is_last_suitable(multi, i, caching) && #[trigger] multi_get(multi, i) == a;
            let j = choose|j: int|
                is_last_suitable(multi, j, caching) && #[trigger] multi_get(multi, j) == b;
            assert(i == j);
        }
    }
}

// ---------------------------------------------------------------------------
// Package / MultiExecutable
// ---------------------------------------------------------------------------

/// The outermost DarwiNN container.
///
/// `min_runtime_version`, `signature`, `keypair_version`, `compiler_version`,
/// `virtual_chip_id`, `multi_chip_package` and `model_identifier` are in the
/// schema but unread: no signature or version check is performed.
#[derive(Clone, Copy, Debug)]
pub struct Package<'a> {
    table: Table<'a>,
}

impl<'a> View for Package<'a> {
    type V = TableView;

    closed spec fn view(&self) -> TableView {
        self.table@
    }
}

impl<'a> Package<'a> {
    /// Parses the FlexBuffer payload TFLite hands an `edgetpu-custom-op`.
    ///
    /// Reads the root FlexBuffer map, takes key `"4"`, and treats its bytes
    /// as a `Package` FlatBuffer.
    #[must_use]
    pub fn from_custom_op(custom_options: &'a [u8]) -> (r: Option<Self>)
        ensures
            bytes::agrees(r, custom_op_package(custom_options@)),
    {
        let map = FlexMap::root(custom_options)?;
        let key: [u8; 1] = CUSTOM_OP_EXECUTABLE_KEY;
        let bytes = map.bytes(&key)?;
        Self::from_bytes(bytes)
    }

    /// Parses an already-unwrapped `Package` FlatBuffer.
    #[must_use]
    pub fn from_bytes(bytes: &'a [u8]) -> (r: Option<Self>)
        ensures
            bytes::agrees(r, fb::root_table(bytes@)),
    {
        let table = fb::root(bytes)?;
        Some(Package { table })
    }

    /// The nested `MultiExecutable`.
    #[must_use]
    pub fn multi_executable(&self) -> (r: Option<MultiExecutable<'a>>)
        ensures
            bytes::agrees(r, package_multi(self@)),
    {
        let bytes = self.table.bytes(PACKAGE_SERIALIZED_MULTI_EXECUTABLE)?;
        let table = fb::root(bytes)?;
        Some(MultiExecutable { table })
    }

    /// The executable that performs inference.
    ///
    /// `EXECUTION_ONLY` and `STAND_ALONE` both qualify; the last matching
    /// entry wins.
    #[must_use]
    pub fn inference_executable(&self) -> (r: Option<Executable<'a>>)
        ensures
            is_choice(
                self@,
                false,
                match r {
                    Some(e) => Some(e@),
                    None => None,
                },
            ),
    {
        self.last_suitable(false)
    }

    /// The optional parameter-caching executable.
    #[must_use]
    pub fn parameter_caching_executable(&self) -> (r: Option<Executable<'a>>)
        ensures
            is_choice(
                self@,
                true,
                match r {
                    Some(e) => Some(e@),
                    None => None,
                },
            ),
    {
        self.last_suitable(true)
    }

    /// The last executable that caches parameters, or that performs inference.
    fn last_suitable(&self, caching: bool) -> (r: Option<Executable<'a>>)
        ensures
            is_choice(
                self@,
                caching,
                match r {
                    Some(e) => Some(e@),
                    None => None,
                },
            ),
    {
        let multi = self.multi_executable()?;
        let mut found: Option<Executable<'a>> = None;
        let ghost mut at: int = 0;
        let n: usize = multi.len();
        let mut i: usize = 0;
        while i < n
            invariant
                i <= n,
                n == multi_len(multi@),
                package_multi(self@) == Some(multi@),
                forall|j: int| 0 <= j < i ==> #[trigger] multi_get(multi@, j) is Some,
                match found {
                    Some(e) => {
                        &&& 0 <= at < i
                        &&& multi_get(multi@, at) == Some(e@)
                        &&& suits(e@, caching)
                        &&& forall|j: int|
                            at < j < i ==> !suits((#[trigger] multi_get(multi@, j))->0, caching)
                    },
                    None => forall|j: int|
                        0 <= j < i ==> !suits((#[trigger] multi_get(multi@, j))->0, caching),
                },
            decreases n - i,
        {
            let exe = match multi.get(i) {
                Some(exe) => exe,
                None => {
                    assert(multi_get(multi@, i as int) is None);
                    return None;
                },
            };
            let fits: bool = match exe.executable_type() {
                ExecutableType::ParameterCaching => caching,
                ExecutableType::ExecutionOnly => !caching,
                ExecutableType::StandAlone => !caching,
                ExecutableType::Unknown(_) => false,
            };
            if fits {
                found = Some(exe);
                proof {
                    at = i as int;
                }
            }
            i = i + 1;
        }
        proof {
            if found is Some {
                assert(is_last_suitable(multi@, at, caching));
            }
        }
        found
    }
}

/// A list of serialised executables.
#[derive(Clone, Copy, Debug)]
pub struct MultiExecutable<'a> {
    table: Table<'a>,
}

impl<'a> View for MultiExecutable<'a> {
    type V = TableView;

    closed spec fn view(&self) -> TableView {
        self.table@
    }
}

impl<'a> MultiExecutable<'a> {
    /// Number of executables.
    #[must_use]
    pub fn len(&self) -> (r: usize)
        ensures
            r == multi_len(self@),
    {
        match self.table.vector(MULTI_SERIALIZED_EXECUTABLES) {
            Some(v) => v.len(),
            None => 0,
        }
    }

    /// Whether the list is empty.
    #[must_use]
    pub fn is_empty(&self) -> (r: bool)
        ensures
            r == (multi_len(self@) == 0),
    {
        self.len() == 0
    }

    /// Executable `i`.
    #[must_use]
    pub fn get(&self, i: usize) -> (r: Option<Executable<'a>>)
        ensures
            bytes::agrees(r, multi_get(self@, i as int)),
    {
        let v = self.table.vector(MULTI_SERIALIZED_EXECUTABLES)?;
        let bytes = v.str_bytes(i)?;
        let table = fb::root(bytes)?;
        Some(Executable { table })
    }
}

// ---------------------------------------------------------------------------
// Executable
// ---------------------------------------------------------------------------

/// One DarwiNN executable.
#[derive(Clone, Copy, Debug)]
pub struct Executable<'a> {
    table: Table<'a>,
}

impl<'a> View for Executable<'a> {
    type V = TableView;

    closed spec fn view(&self) -> TableView {
        self.table@
    }
}

/// What a `Meta` table describes.
fn read_meta_desc<'a>(meta: &Option<Table<'a>>) -> (r: Description)
    ensures
        r == meta_desc(
            match *meta {
                Some(m) => Some(m@),
                None => None,
            },
        ),
{
    match meta {
        Some(m) => Description::from_raw(m.i16(META_DESC, 0)),
        None => Description::from_raw(0),
    }
}

/// The name in a `Meta` table, empty when absent.
fn read_meta_name<'a>(meta: &Option<Table<'a>>) -> (r: &'a [u8])
    ensures
        r@ == meta_name(
            match *meta {
                Some(m) => Some(m@),
                None => None,
            },
        ),
{
    match meta {
        Some(m) => bytes::slice_or_empty(m.str_bytes(META_NAME)),
        None => bytes::slice_or_empty(None),
    }
}

impl<'a> Executable<'a> {
    /// Parses an executable FlatBuffer directly, bypassing the package wrapper.
    #[must_use]
    pub fn from_bytes(bytes: &'a [u8]) -> (r: Option<Self>)
        ensures
            bytes::agrees(r, fb::root_table(bytes@)),
    {
        let table = fb::root(bytes)?;
        Some(Executable { table })
    }

    /// `type`, the executable's role (VT 30).
    #[must_use]
    pub fn executable_type(&self) -> (r: ExecutableType)
        ensures
            r == role(self@),
    {
        ExecutableType::from_raw(self.table.i16(EXE_TYPE, 0))
    }

    /// `parameter_caching_token` (VT 32).
    ///
    /// The manager re-runs the parameter-caching executable whenever this
    /// changes.
    #[must_use]
    pub fn parameter_caching_token(&self) -> (r: u64)
        ensures
            r == self@.u64_or(EXE_PARAMETER_CACHING_TOKEN as int, 0),
    {
        self.table.u64(EXE_PARAMETER_CACHING_TOKEN, 0)
    }

    /// `parameters`, the whole parameter blob (VT 16).
    ///
    /// DMA hints address slices of it by byte offset.
    #[must_use]
    pub fn parameters(&self) -> (r: &'a [u8])
        ensures
            r@ == parameter_blob(self@),
    {
        bytes::slice_or_empty(self.table.bytes(EXE_PARAMETERS))
    }

    /// Number of instruction bitstream chunks (VT 14).
    #[must_use]
    pub fn instruction_bitstream_count(&self) -> (r: usize)
        ensures
            r == count(self@.vector(EXE_INSTRUCTION_BITSTREAMS as int)),
    {
        match self.table.vector(EXE_INSTRUCTION_BITSTREAMS) {
            Some(v) => v.len(),
            None => 0,
        }
    }

    /// Instruction bitstream chunk `i`, sent verbatim to the device.
    #[must_use]
    pub fn instruction_bitstream(&self, i: usize) -> (r: Option<&'a [u8]>)
        ensures
            bytes::agrees(r, bitstream(self@, i as int)),
    {
        let v = self.table.vector(EXE_INSTRUCTION_BITSTREAMS)?;
        let t = v.table(i)?;
        t.bytes(BITSTREAM_BITSTREAM)
    }

    /// Number of relocation entries attached to bitstream chunk `i`.
    ///
    /// Nothing here acts on them; bitstreams are sent unmodified. Real models
    /// do carry them, so a non-zero count means the model expects relocation
    /// that will not happen. See [`Self::field_offset`].
    #[must_use]
    pub fn field_offset_count(&self, i: usize) -> (r: usize)
        ensures
            r == count(relocations(self@, i as int)),
    {
        match self.field_offsets(i) {
            Some(v) => v.len(),
            None => 0,
        }
    }

    /// Relocation entry `j` of instruction chunk `i`, as
    /// `(bit offset into the bitstream, what it refers to, its name)`.
    ///
    /// Exposed so a caller can check what a model expects to be patched;
    /// nothing in this crate acts on it.
    #[must_use]
    pub fn field_offset(&self, i: usize, j: usize) -> (r: Option<(i32, Description, &'a [u8])>)
        ensures
            match element(relocations(self@, i as int), j as int) {
                Some(t) => r matches Some(e) && e.0 == t.i32_or(FIELD_OFFSET_OFFSET_BIT as int, 0)
                    && e.1 == meta_desc(t.table(FIELD_OFFSET_META as int)) && e.2@ == meta_name(
                    t.table(FIELD_OFFSET_META as int),
                ),
                None => r is None,
            },
    {
        let v = self.field_offsets(i)?;
        let entry = v.table(j)?;
        let meta = entry.table(FIELD_OFFSET_META);
        Some(
            (
                entry.i32(FIELD_OFFSET_OFFSET_BIT, 0),
                read_meta_desc(&meta),
                read_meta_name(&meta),
            ),
        )
    }

    fn field_offsets(&self, i: usize) -> (r: Option<Vector<'a>>)
        ensures
            bytes::agrees(r, relocations(self@, i as int)),
    {
        let v = self.table.vector(EXE_INSTRUCTION_BITSTREAMS)?;
        let t = v.table(i)?;
        t.vector(BITSTREAM_FIELD_OFFSETS)
    }

    /// Number of input layers (VT 20).
    #[must_use]
    pub fn input_layer_count(&self) -> (r: usize)
        ensures
            r == count(layers(self@, false)),
    {
        match self.table.vector(EXE_INPUT_LAYERS) {
            Some(v) => v.len(),
            None => 0,
        }
    }

    /// Input layer `i`.
    #[must_use]
    pub fn input_layer(&self, i: usize) -> (r: Option<Layer<'a>>)
        ensures
            bytes::agrees(r, element(layers(self@, false), i as int)),
    {
        let v = self.table.vector(EXE_INPUT_LAYERS)?;
        let t = v.table(i)?;
        Some(Layer::new(t))
    }

    /// Number of output layers (VT 22).
    ///
    /// TFLite output tensor `i` corresponds to output layer `i`.
    #[must_use]
    pub fn output_layer_count(&self) -> (r: usize)
        ensures
            r == count(layers(self@, true)),
    {
        match self.table.vector(EXE_OUTPUT_LAYERS) {
            Some(v) => v.len(),
            None => 0,
        }
    }

    /// Output layer `i`.
    #[must_use]
    pub fn output_layer(&self, i: usize) -> (r: Option<Layer<'a>>)
        ensures
            bytes::agrees(r, element(layers(self@, true), i as int)),
    {
        let v = self.table.vector(EXE_OUTPUT_LAYERS)?;
        let t = v.table(i)?;
        Some(Layer::new(t))
    }

    /// Index of the input layer called `name`.
    #[must_use]
    pub fn find_input_layer(&self, name: &[u8]) -> (r: Option<usize>)
        ensures
            match r {
                Some(i) => find_named(layers(self@, false), name@, 0) == Some(i as int),
                None => find_named(layers(self@, false), name@, 0) is None,
            },
    {
        let n: usize = match self.table.vector(EXE_INPUT_LAYERS) {
            Some(v) => v.held(),
            None => 0,
        };
        let mut i: usize = 0;
        while i < n
            invariant
                i <= n,
                n == held(layers(self@, false)),
                find_named(layers(self@, false), name@, 0) == find_named(
                    layers(self@, false),
                    name@,
                    i as int,
                ),
            decreases n - i,
        {
            if let Some(l) = self.input_layer(i) {
                if bytes::same_bytes(l.name(), name) {
                    return Some(i);
                }
            }
            i = i + 1;
        }
        None
    }

    /// Index of the output layer called `name`.
    #[must_use]
    pub fn find_output_layer(&self, name: &[u8]) -> (r: Option<usize>)
        ensures
            match r {
                Some(i) => find_named(layers(self@, true), name@, 0) == Some(i as int),
                None => find_named(layers(self@, true), name@, 0) is None,
            },
    {
        let n: usize = match self.table.vector(EXE_OUTPUT_LAYERS) {
            Some(v) => v.held(),
            None => 0,
        };
        let mut i: usize = 0;
        while i < n
            invariant
                i <= n,
                n == held(layers(self@, true)),
                find_named(layers(self@, true), name@, 0) == find_named(
                    layers(self@, true),
                    name@,
                    i as int,
                ),
            decreases n - i,
        {
            if let Some(l) = self.output_layer(i) {
                if bytes::same_bytes(l.name(), name) {
                    return Some(i);
                }
            }
            i = i + 1;
        }
        None
    }

    /// Number of DMA hints (VT 18 -> `DmaHints.hints`) that the buffer holds.
    ///
    /// The stored count is not taken at its word: however large it is, the
    /// result is no larger than the buffer is long.
    #[must_use]
    pub fn hint_count(&self) -> (r: usize)
        ensures
            r == held(hint_list(self@)),
            r <= self@.buf.len(),
    {
        match self.hints_vector() {
            Some(v) => v.held(),
            None => 0,
        }
    }

    /// DMA hint `i`.
    ///
    /// Hints are consumed strictly in array order: the compiler interleaved
    /// the instruction, parameter and activation chunks in the order the
    /// hardware expects, and nothing here reorders them.
    #[must_use]
    pub fn hint(&self, i: usize) -> (r: Hint<'a>)
        ensures
            r@ == hint_at(self@, i as int),
    {
        let hint = match self.hints_vector() {
            Some(v) => match v.table(i) {
                Some(t) => t,
                None => {
                    return Hint::Ignored;
                },
            },
            None => {
                return Hint::Ignored;
            },
        };
        match hint.u8(HINT_ANY_HINT_TYPE, 0) {
            ANY_HINT_DMA_DESCRIPTOR => {
                let d = match hint.union(HINT_ANY_HINT) {
                    Some(d) => d,
                    None => {
                        return Hint::Ignored;
                    },
                };
                let meta = d.table(DESC_HINT_META);
                let desc = read_meta_desc(&meta);
                let name = read_meta_name(&meta);
                let offset: i32 = d.i32(DESC_HINT_OFFSET_IN_BYTES, 0);
                let size: i32 = d.i32(DESC_HINT_SIZE_IN_BYTES, 0);
                if offset < 0 || size < 0 {
                    return Hint::Ignored;
                }
                Hint::Dma { desc, name, offset: offset as usize, size: size as usize }
            },
            ANY_HINT_INSTRUCTION => {
                let d = match hint.union(HINT_ANY_HINT) {
                    Some(d) => d,
                    None => {
                        return Hint::Ignored;
                    },
                };
                let idx: i32 = d.i32(INSTR_HINT_CHUNK_INDEX, 0);
                if idx < 0 {
                    return Hint::Ignored;
                }
                Hint::Instruction { chunk_index: idx as usize }
            },
            _ => Hint::Ignored,
        }
    }

    /// The DMA hints in order.
    pub fn hints(&self) -> (r: Vec<Hint<'a>>)
        ensures
            r@.len() == held(hint_list(self@)),
            forall|i: int| 0 <= i < r@.len() ==> (#[trigger] r@[i])@ == hint_at(self@, i),
    {
        let n: usize = self.hint_count();
        let mut out: Vec<Hint<'a>> = Vec::new();
        let mut i: usize = 0;
        while i < n
            invariant
                i <= n,
                n == held(hint_list(self@)),
                out@.len() == i,
                forall|j: int| 0 <= j < i ==> (#[trigger] out@[j])@ == hint_at(self@, j),
            decreases n - i,
        {
            out.push(self.hint(i));
            i = i + 1;
        }
        out
    }

    fn hints_vector(&self) -> (r: Option<Vector<'a>>)
        ensures
            bytes::agrees(r, hint_list(self@)),
    {
        let t = self.table.table(EXE_DMA_HINTS)?;
        t.vector(DMA_HINTS_HINTS)
    }
}

} // verus!
