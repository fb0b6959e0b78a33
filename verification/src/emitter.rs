//! Emits a container as a relocatable object file.
//!
//! Each of the four artifacts of a container becomes two data symbols in the
//! read-only data section: one that holds the artifact's bytes, and a
//! companion `*_SIZE` symbol that holds its size as eight little-endian
//! bytes. The symbol names are the contract with the resolver that is linked
//! against the object file.
//!
//! The object file itself is written by the `object` crate. What is proved
//! here is which symbols are handed to it, with which names and bytes, in
//! which order, for which target; what the crate makes of them is named by
//! `object_file` and believed.

use vstd::prelude::*;
use vstd::bytes::{spec_u64_to_le_bytes, u64_to_le_bytes};
use vstd::slice::slice_to_vec;
use vstd::string::StringSliceAdditionalSpecFns;
use crate::bytes::bytes_eq;
use crate::codec::{
    content_blob, content_offsets, lemma_offset_table_len, offset_table, path_table, NUL,
};
use crate::container::Container;

verus! {

/// The family of object-file conventions of the deployment target.
#[derive(Clone, Copy, Debug, PartialEq, Eq)]
pub enum Target {
    Unix,
    MachO,
    Windows,
}

/// A processor architecture that a container can be emitted for.
#[derive(Clone, Copy, Debug, PartialEq, Eq)]
pub enum Arch {
    /// 64-bit x86.
    X86_64,
    /// 64-bit x86 with 32-bit pointers.
    X86_64X32,
    /// 64-bit ARM.
    Aarch64,
}

/// Why no object file was emitted.
#[derive(Debug, PartialEq, Eq)]
pub enum EmitError {
    /// The platform is none of those a target is known for.
    UnsupportedTarget,
    /// The architecture is none of the supported ones.
    UnsupportedArchitecture,
    /// The object writer refused the object; the text is its message.
    Write(String),
}

/// A data symbol to emit: its name and the bytes it holds.
#[derive(Debug)]
pub struct DataSymbol {
    pub name: Vec<u8>,
    pub data: Vec<u8>,
}

/// Name of the symbol that holds the path table.
pub const PATH_ARRAY: &'static str = "PATH_ARRAY";

/// Name of the symbol that holds the byte length of the path table.
pub const PATH_ARRAY_SIZE: &'static str = "PATH_ARRAY_SIZE";

/// Name of the symbol that holds the offset table.
pub const START_AND_END: &'static str = "START_AND_END";

/// Name of the symbol that holds the number of entries of the offset table.
pub const START_AND_END_SIZE: &'static str = "START_AND_END_SIZE";

/// Name of the symbol that holds the content blob.
pub const FILES: &'static str = "FILES";

/// Name of the symbol that holds the byte length of the content blob.
pub const FILES_SIZE: &'static str = "FILES_SIZE";

/// Name of the symbol that holds the load-path string.
pub const LOAD_PATHS: &'static str = "LOAD_PATHS";

/// Name of the symbol that holds the byte length of the load-path string.
pub const LOAD_PATHS_SIZE: &'static str = "LOAD_PATHS_SIZE";

/// The alignment, in bytes, at which every symbol's data is placed.
pub const SYMBOL_ALIGN: u64 = 2;

/// The target of a platform, from what is known of it: Mach-O wherever the
/// platform is macOS, which is of the Unix family too; else Unix-style
/// conventions for the rest of that family; else Windows COFF.
pub open spec fn target_of(unix: bool, macos: bool, windows: bool) -> Option<Target> {
    if macos {
        Some(Target::MachO)
    } else if unix {
        Some(Target::Unix)
    } else if windows {
        Some(Target::Windows)
    } else {
        None
    }
}

/// The architecture that goes by `name`, if it is a supported one.
pub open spec fn arch_of(name: Seq<u8>) -> Option<Arch> {
    if name == "x86_64".spec_bytes() {
        Some(Arch::X86_64)
    } else if name == "x86".spec_bytes() {
        Some(Arch::X86_64X32)
    } else if name == "aarch64".spec_bytes() {
        Some(Arch::Aarch64)
    } else {
        None
    }
}

/// The eight symbols of a container, as pairs of name and bytes, in the
/// order in which they are emitted.
pub open spec fn symbol_layout(
    paths: Seq<u8>,
    offsets: Seq<u8>,
    blob: Seq<u8>,
    load_paths: Seq<u8>,
) -> Seq<(Seq<u8>, Seq<u8>)> {
    seq![
        (PATH_ARRAY.spec_bytes(), paths),
        (PATH_ARRAY_SIZE.spec_bytes(), spec_u64_to_le_bytes(paths.len() as u64)),
        (START_AND_END.spec_bytes(), offsets),
        (START_AND_END_SIZE.spec_bytes(), spec_u64_to_le_bytes((offsets.len() / 8) as u64)),
        (FILES.spec_bytes(), blob),
        (FILES_SIZE.spec_bytes(), spec_u64_to_le_bytes(blob.len() as u64)),
        (LOAD_PATHS.spec_bytes(), load_paths),
        (LOAD_PATHS_SIZE.spec_bytes(), spec_u64_to_le_bytes(load_paths.len() as u64)),
    ]
}

/// The symbols of a container and its load-path string.
pub open spec fn container_layout(container: Container, load_paths: Seq<u8>) -> Seq<
    (Seq<u8>, Seq<u8>),
> {
    symbol_layout(
        path_table(container.paths() + container.assets()),
        offset_table(content_offsets(container.contents())),
        content_blob(container.contents()),
        load_paths,
    )
}

/// What a list of symbols holds: names and bytes.
pub open spec fn symbol_views(symbols: Seq<DataSymbol>) -> Seq<(Seq<u8>, Seq<u8>)> {
    Seq::new(symbols.len(), |i: int| (symbols[i].name@, symbols[i].data@))
}

/// No symbol name holds a `NUL`.
spec fn names_nul_free(symbols: Seq<(Seq<u8>, Seq<u8>)>) -> bool {
    forall|i: int| 0 <= i < symbols.len() ==> !(#[trigger] symbols[i]).0.contains(NUL)
}

/// The default target of the platform the packager runs on: the one whose
/// object files the platform's own linker takes.
pub fn get_target(unix: bool, macos: bool, windows: bool) -> (target: Result<Target, EmitError>)
    ensures
        match target {
            Ok(t) => target_of(unix, macos, windows) == Some(t),
            Err(e) => target_of(unix, macos, windows) is None && e == EmitError::UnsupportedTarget,
        },
{
    if macos {
        Ok(Target::MachO)
    } else if unix {
        Ok(Target::Unix)
    } else if windows {
        Ok(Target::Windows)
    } else {
        Err(EmitError::UnsupportedTarget)
    }
}

/// The architecture to emit for, from the name the platform goes by.
pub fn get_architecture(name: &str) -> (arch: Result<Arch, EmitError>)
    ensures
        match arch {
            Ok(a) => arch_of(name.spec_bytes()) == Some(a),
            Err(e) => arch_of(name.spec_bytes()) is None && e
                == EmitError::UnsupportedArchitecture,
        },
{
    let bytes = name.as_bytes();
    if bytes_eq(bytes, "x86_64".as_bytes()) {
        Ok(Arch::X86_64)
    } else if bytes_eq(bytes, "x86".as_bytes()) {
        Ok(Arch::X86_64X32)
    } else if bytes_eq(bytes, "aarch64".as_bytes()) {
        Ok(Arch::Aarch64)
    } else {
        Err(EmitError::UnsupportedArchitecture)
    }
}

#[verifier::external_type_specification]
#[verifier::external_body]
pub struct ExObject<'a>(object::write::Object<'a>);

#[verifier::external_type_specification]
#[verifier::external_body]
pub struct ExSectionId(object::write::SectionId);

#[verifier::external_type_specification]
#[verifier::external_body]
pub struct ExSymbolId(object::write::SymbolId);

#[verifier::external_type_specification]
#[verifier::external_body]
pub struct ExWriteError(object::write::Error);

/// The target and the architecture that an object under construction was
/// created for.
///
/// This and the names that follow describe an object as far as this module
/// builds one: made by `new_object` and changed by nothing but the functions
/// below.
pub uninterp spec fn object_kind(obj: &object::write::Object<'_>) -> (Target, Arch);

/// The number of sections of an object under construction.
pub uninterp spec fn object_sections(obj: &object::write::Object<'_>) -> nat;

/// The symbols of an object under construction, in the order in which they
/// were added: each with its name and the bytes placed for it, which are
/// empty as long as none were placed.
pub uninterp spec fn object_symbols(obj: &object::write::Object<'_>) -> Seq<(Seq<u8>, Seq<u8>)>;

/// The number of symbols of an object under construction whose bytes were
/// placed; they are the first so many of `object_symbols`.
pub uninterp spec fn object_placed(obj: &object::write::Object<'_>) -> nat;

/// The position of a section among the sections of the object that handed
/// out its identifier.
pub uninterp spec fn section_slot(id: object::write::SectionId) -> nat;

/// The position of a symbol among the symbols of the object that handed out
/// its identifier.
pub uninterp spec fn symbol_slot(id: object::write::SymbolId) -> nat;

/// The bytes of the relocatable object file for `target` and `arch` that
/// defines `symbols`, in this order, one after the other in the read-only
/// data section, each aligned to `SYMBOL_ALIGN`; `None` where the object
/// writer has no such file to offer.
pub uninterp spec fn object_file(
    target: Target,
    arch: Arch,
    symbols: Seq<(Seq<u8>, Seq<u8>)>,
) -> Option<Seq<u8>>;

/// Calls `object::write::Object::new` with the binary format of `target`,
/// the architecture `arch` and little-endian byte order, and sets the
/// object's public fields: no symbol name mangling, no file flags.
///
/// Claimed: the new object has no section and no symbol.
#[verifier::external_body]
fn new_object(target: Target, arch: Arch) -> (obj: object::write::Object<'static>)
    ensures
        object_kind(&obj) == (target, arch),
        object_sections(&obj) == 0,
        object_symbols(&obj) == Seq::<(Seq<u8>, Seq<u8>)>::empty(),
        object_placed(&obj) == 0,
{
    let format = match target {
        Target::Unix => object::BinaryFormat::Elf,
        Target::MachO => object::BinaryFormat::MachO,
        Target::Windows => object::BinaryFormat::Coff,
    };
    let architecture = match arch {
        Arch::X86_64 => object::Architecture::X86_64,
        Arch::X86_64X32 => object::Architecture::X86_64_X32,
        Arch::Aarch64 => object::Architecture::Aarch64,
    };
    let mut obj = object::write::Object::new(format, architecture, object::Endianness::Little);
    obj.mangling = object::write::Mangling::None;
    obj.flags = object::FileFlags::None;
    obj
}

/// Calls `object::write::Object::section_id` for the standard read-only data
/// section, which creates that section unless the object has it already.
///
/// Claimed: the symbols are untouched; in an object without sections the
/// section is created and becomes the only one.
#[verifier::external_body]
fn read_only_section(obj: &mut object::write::Object<'_>) -> (id: object::write::SectionId)
    ensures
        object_kind(final(obj)) == object_kind(old(obj)),
        object_symbols(final(obj)) == object_symbols(old(obj)),
        object_placed(final(obj)) == object_placed(old(obj)),
        object_sections(old(obj)) == 0 ==> object_sections(final(obj)) == 1 && section_slot(id)
            == 0,
{
    obj.section_id(object::write::StandardSection::ReadOnlyData)
}

/// Calls `object::write::Object::add_symbol` with a data symbol of linkage
/// scope that is not yet defined in any section.
///
/// Claimed: the symbol is appended to the object's symbols under the name
/// given, and its identifier stands for that position.
#[verifier::external_body]
fn add_data_symbol(obj: &mut object::write::Object<'_>, name: &[u8], size: u64) -> (id:
    object::write::SymbolId)
    ensures
        object_kind(final(obj)) == object_kind(old(obj)),
        object_sections(final(obj)) == object_sections(old(obj)),
        object_symbols(final(obj)) == object_symbols(old(obj)).push((name@, Seq::<u8>::empty())),
        object_placed(final(obj)) == object_placed(old(obj)),
        symbol_slot(id) == object_symbols(old(obj)).len(),
{
    obj.add_symbol(object::write::Symbol {
        name: name.to_vec(),
        value: 0,
        size,
        kind: object::SymbolKind::Data,
        scope: object::SymbolScope::Linkage,
        weak: false,
        section: object::write::SymbolSection::None,
        flags: object::SymbolFlags::None,
    })
}

/// Calls `object::write::Object::add_symbol_data`, which appends `data` to
/// the section at the next multiple of `align` and defines the symbol there,
/// with the length of `data` as its size.
///
/// Asked: symbol and section belong to the object, the symbol is the first
/// one without bytes, and `align` is `SYMBOL_ALIGN`, a power of two.
/// Claimed: the symbol now holds `data`; nothing else changes.
#[verifier::external_body]
fn add_symbol_data(
    obj: &mut object::write::Object<'_>,
    symbol: object::write::SymbolId,
    section: object::write::SectionId,
    data: &[u8],
    align: u64,
)
    requires
        symbol_slot(symbol) == object_placed(old(obj)),
        symbol_slot(symbol) < object_symbols(old(obj)).len(),
        section_slot(section) < object_sections(old(obj)),
        align == SYMBOL_ALIGN,
    ensures
        object_kind(final(obj)) == object_kind(old(obj)),
        object_sections(final(obj)) == object_sections(old(obj)),
        object_symbols(final(obj)) == object_symbols(old(obj)).update(
            symbol_slot(symbol) as int,
            (object_symbols(old(obj))[symbol_slot(symbol) as int].0, data@),
        ),
        object_placed(final(obj)) == object_placed(old(obj)) + 1,
{
    obj.add_symbol_data(symbol, section, data, align);
}

/// Calls `object::write::Object::write`, which lays the object out as a
/// file of its format.
///
/// Asked: the object has exactly the read-only data section, every symbol
/// has its bytes, and no symbol name holds a `NUL`.
/// Claimed: the outcome is a function of the target, the architecture and
/// the symbols, the one that `object_file` names.
#[verifier::external_body]
fn write_object(obj: &object::write::Object<'_>) -> (written: Result<
    Vec<u8>,
    object::write::Error,
>)
    requires
        object_sections(obj) == 1,
        object_placed(obj) == object_symbols(obj).len(),
        names_nul_free(object_symbols(obj)),
    ensures
        match written {
            Ok(file) => object_file(object_kind(obj).0, object_kind(obj).1, object_symbols(obj))
                == Some(file@),
            Err(_) => object_file(object_kind(obj).0, object_kind(obj).1, object_symbols(obj))
                is None,
        },
{
    obj.write()
}

/// Calls the `to_string` that `object::write::Error` has from its `Display`:
/// the writer's message. Nothing is claimed of the text.
#[verifier::external_body]
fn write_error_text(error: &object::write::Error) -> String {
    error.to_string()
}

/// Emits `symbols` as a relocatable object file for `target` and `arch`.
///
/// The symbols are first declared, in order, and then given their bytes, in
/// the same order, all in the read-only data section.
fn emit_symbols(target: Target, arch: Arch, symbols: &Vec<DataSymbol>) -> (emitted: Result<
    Vec<u8>,
    EmitError,
>)
    requires
        names_nul_free(symbol_views(symbols@)),
    ensures
        match emitted {
            Ok(file) => object_file(target, arch, symbol_views(symbols@)) == Some(file@),
            Err(e) => object_file(target, arch, symbol_views(symbols@)) is None
                && e is Write,
        },
{
    let mut obj = new_object(target, arch);
    let section = read_only_section(&mut obj);
    let mut ids: Vec<object::write::SymbolId> = Vec::new();
    let mut i: usize = 0;
    while i < symbols.len()
        invariant
            i <= symbols@.len(),
            ids@.len() == i,
            forall|k: int| 0 <= k < i ==> symbol_slot(#[trigger] ids@[k]) == k,
            object_kind(&obj) == (target, arch),
            object_sections(&obj) == 1,
            section_slot(section) == 0,
            object_placed(&obj) == 0,
            object_symbols(&obj) == Seq::new(
                i as nat,
                |k: int| (symbols@[k].name@, Seq::<u8>::empty()),
            ),
        decreases symbols@.len() - i,
    {
        let symbol = &symbols[i];
        let id = add_data_symbol(&mut obj, symbol.name.as_slice(), symbol.data.len() as u64);
        ids.push(id);
        i += 1;
        assert(object_symbols(&obj) =~= Seq::new(
            i as nat,
            |k: int| (symbols@[k].name@, Seq::<u8>::empty()),
        ));
    }
    let mut j: usize = 0;
    while j < symbols.len()
        invariant
            j <= symbols@.len(),
            ids@.len() == symbols@.len(),
            forall|k: int| 0 <= k < ids@.len() ==> symbol_slot(#[trigger] ids@[k]) == k,
            object_kind(&obj) == (target, arch),
            object_sections(&obj) == 1,
            section_slot(section) == 0,
            object_placed(&obj) == j,
            object_symbols(&obj) == Seq::new(
                symbols@.len(),
                |k: int|
                    (
                        symbols@[k].name@,
                        if k < j {
                            symbols@[k].data@
                        } else {
                            Seq::<u8>::empty()
                        },
                    ),
            ),
        decreases symbols@.len() - j,
    {
        add_symbol_data(&mut obj, ids[j], section, symbols[j].data.as_slice(), SYMBOL_ALIGN);
        j += 1;
        assert(object_symbols(&obj) =~= Seq::new(
            symbols@.len(),
            |k: int|
                (
                    symbols@[k].name@,
                    if k < j {
                        symbols@[k].data@
                    } else {
                        Seq::<u8>::empty()
                    },
                ),
        ));
    }
    assert(object_symbols(&obj) =~= symbol_views(symbols@));
    match write_object(&obj) {
        Ok(file) => Ok(file),
        Err(error) => Err(EmitError::Write(write_error_text(&error))),
    }
}

/// The companions hold sizes: of the path table, the content blob and the
/// load-path string the length in bytes, of the offset table the number of
/// its entries, which is one more than there are files.
pub proof fn lemma_size_symbols(container: Container, load_paths: Seq<u8>)
    ensures
        container_layout(container, load_paths).len() == 8,
        container_layout(container, load_paths)[1].1 == spec_u64_to_le_bytes(
            path_table(container.paths() + container.assets()).len() as u64,
        ),
        container_layout(container, load_paths)[3].1 == spec_u64_to_le_bytes(
            (container.contents().len() + 1) as u64,
        ),
        container_layout(container, load_paths)[5].1 == spec_u64_to_le_bytes(
            content_blob(container.contents()).len() as u64,
        ),
        container_layout(container, load_paths)[7].1 == spec_u64_to_le_bytes(
            load_paths.len() as u64,
        ),
{
    lemma_offset_table_len(content_offsets(container.contents()));
}

/// An ASCII text without the character of code zero gives bytes without a
/// `NUL`.
proof fn lemma_text_nul_free(text: &str)
    requires
        text.is_ascii(),
        forall|i: int| 0 <= i < text@.len() ==> text@[i] != '\0',
    ensures
        !text.spec_bytes().contains(NUL),
{
    vstd::string::is_ascii_spec_bytes(text);
    let bytes = text.spec_bytes();
    if bytes.contains(NUL) {
        let k = choose|k: int| 0 <= k < bytes.len() && bytes[k] == NUL;
        assert(text@[k] as u8 == 0);
        assert(text@[k] != '\0');
    }
}

/// None of the eight symbol names holds a `NUL`.
proof fn lemma_names_nul_free()
    ensures
        !PATH_ARRAY.spec_bytes().contains(NUL),
        !PATH_ARRAY_SIZE.spec_bytes().contains(NUL),
        !START_AND_END.spec_bytes().contains(NUL),
        !START_AND_END_SIZE.spec_bytes().contains(NUL),
        !FILES.spec_bytes().contains(NUL),
        !FILES_SIZE.spec_bytes().contains(NUL),
        !LOAD_PATHS.spec_bytes().contains(NUL),
        !LOAD_PATHS_SIZE.spec_bytes().contains(NUL),
{
    reveal_strlit("PATH_ARRAY");
    reveal_strlit("PATH_ARRAY_SIZE");
    reveal_strlit("START_AND_END");
    reveal_strlit("START_AND_END_SIZE");
    reveal_strlit("FILES");
    reveal_strlit("FILES_SIZE");
    reveal_strlit("LOAD_PATHS");
    reveal_strlit("LOAD_PATHS_SIZE");
    lemma_text_nul_free(PATH_ARRAY);
    lemma_text_nul_free(PATH_ARRAY_SIZE);
    lemma_text_nul_free(START_AND_END);
    lemma_text_nul_free(START_AND_END_SIZE);
    lemma_text_nul_free(FILES);
    lemma_text_nul_free(FILES_SIZE);
    lemma_text_nul_free(LOAD_PATHS);
    lemma_text_nul_free(LOAD_PATHS_SIZE);
}

/// The eight symbols of a container: for each of the four streams the
/// symbol that holds its bytes, followed by the companion that holds its
/// size as eight little-endian bytes.
pub fn container_symbols(
    paths: Vec<u8>,
    offsets: Vec<u8>,
    blob: Vec<u8>,
    load_paths: Vec<u8>,
) -> (symbols: Vec<DataSymbol>)
    ensures
        symbol_views(symbols@) == symbol_layout(paths@, offsets@, blob@, load_paths@),
{
    let paths_size = u64_to_le_bytes(paths.len() as u64);
    let offsets_size = u64_to_le_bytes((offsets.len() / 8) as u64);
    let blob_size = u64_to_le_bytes(blob.len() as u64);
    let load_paths_size = u64_to_le_bytes(load_paths.len() as u64);
    let ghost layout = symbol_layout(paths@, offsets@, blob@, load_paths@);
    let mut symbols: Vec<DataSymbol> = Vec::new();
    symbols.push(DataSymbol { name: slice_to_vec(PATH_ARRAY.as_bytes()), data: paths });
    symbols.push(DataSymbol { name: slice_to_vec(PATH_ARRAY_SIZE.as_bytes()), data: paths_size });
    symbols.push(DataSymbol { name: slice_to_vec(START_AND_END.as_bytes()), data: offsets });
    symbols.push(
        DataSymbol { name: slice_to_vec(START_AND_END_SIZE.as_bytes()), data: offsets_size },
    );
    symbols.push(DataSymbol { name: slice_to_vec(FILES.as_bytes()), data: blob });
    symbols.push(DataSymbol { name: slice_to_vec(FILES_SIZE.as_bytes()), data: blob_size });
    symbols.push(DataSymbol { name: slice_to_vec(LOAD_PATHS.as_bytes()), data: load_paths });
    symbols.push(
        DataSymbol { name: slice_to_vec(LOAD_PATHS_SIZE.as_bytes()), data: load_paths_size },
    );
    assert(symbol_views(symbols@) =~= layout);
    symbols
}

/// Emits `container` and the load-path string as a relocatable object file
/// for `target` and the architecture that goes by `arch_name`.
///
/// An unsupported architecture is refused before anything is built. The
/// object holds the eight symbols of `container_layout`, in that order.
pub fn build_object(
    container: &Container,
    load_paths: &[u8],
    target: Target,
    arch_name: &str,
) -> (built: Result<Vec<u8>, EmitError>)
    requires
        container.wf(),
    ensures
        match built {
            Ok(file) => arch_of(arch_name.spec_bytes()) matches Some(arch) && object_file(
                target,
                arch,
                container_layout(*container, load_paths@),
            ) == Some(file@),
            Err(EmitError::UnsupportedArchitecture) => arch_of(arch_name.spec_bytes()) is None,
            Err(EmitError::Write(_)) => arch_of(arch_name.spec_bytes()) matches Some(arch)
                && object_file(target, arch, container_layout(*container, load_paths@)) is None,
            Err(EmitError::UnsupportedTarget) => false,
        },
{
    let arch = match get_architecture(arch_name) {
        Ok(arch) => arch,
        Err(error) => {
            return Err(error);
        },
    };
    let symbols = container_symbols(
        container.path_table(),
        container.offset_table(),
        slice_to_vec(container.scripts().as_slice()),
        slice_to_vec(load_paths),
    );
    proof {
        lemma_names_nul_free();
    }
    emit_symbols(target, arch, &symbols)
}

} // verus!
