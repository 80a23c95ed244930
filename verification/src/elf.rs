//! Programs from object files and from flat byte files.
//!
//! Sections of an object file are recognised by their names. A flat file
//! holds the instructions of one program.
pub mod laws;

use vstd::prelude::*;
use vstd::string::{StrSliceExecFns, StringExecFns};

use object::{Object, ObjectSection};

use crate::text::{nat_text, push_nat};

verus! {

/// Program type, from the section name.
#[derive(Debug, Clone, PartialEq, Eq, Hash)]
pub enum ProgType {
    /// `xdp`, `xdp/...`.
    Xdp,
    /// `kprobe/...`, `kretprobe/...`.
    Kprobe,
    /// `tc`, `classifier`, `tc/...`.
    Tc,
    /// `socket`, `socket/...`.
    Socket,
    /// `tracepoint/...`.
    Tracepoint,
    /// Any other section name of a program.
    Other(String),
    /// No known section.
    Unknown,
}

/// Contents of a [`ProgType`].
#[verifier::ext_equal]
pub enum TypeModel {
    /// See [`ProgType::Xdp`].
    Xdp,
    /// See [`ProgType::Kprobe`].
    Kprobe,
    /// See [`ProgType::Tc`].
    Tc,
    /// See [`ProgType::Socket`].
    Socket,
    /// See [`ProgType::Tracepoint`].
    Tracepoint,
    /// See [`ProgType::Other`].
    Other(Seq<char>),
    /// See [`ProgType::Unknown`].
    Unknown,
}

impl View for ProgType {
    type V = TypeModel;

    open spec fn view(&self) -> TypeModel {
        match *self {
            ProgType::Xdp => TypeModel::Xdp,
            ProgType::Kprobe => TypeModel::Kprobe,
            ProgType::Tc => TypeModel::Tc,
            ProgType::Socket => TypeModel::Socket,
            ProgType::Tracepoint => TypeModel::Tracepoint,
            ProgType::Other(name) => TypeModel::Other(name@),
            ProgType::Unknown => TypeModel::Unknown,
        }
    }
}

impl TypeModel {
    /// Text form.
    pub open spec fn display(self) -> Seq<char> {
        match self {
            TypeModel::Xdp => "xdp"@,
            TypeModel::Kprobe => "kprobe"@,
            TypeModel::Tc => "tc"@,
            TypeModel::Socket => "socket"@,
            TypeModel::Tracepoint => "tracepoint"@,
            TypeModel::Other(name) => name,
            TypeModel::Unknown => "unknown"@,
        }
    }
}

/// What a section is, by its name.
#[derive(Debug, Clone, PartialEq, Eq)]
pub enum SectionKind {
    /// A program.
    Program(ProgType),
    /// Map definitions.
    Maps,
    /// Type information.
    Btf,
    /// Anything else.
    Ignored,
}

/// Contents of a [`SectionKind`].
#[verifier::ext_equal]
pub enum KindModel {
    /// See [`SectionKind::Program`].
    Program(TypeModel),
    /// See [`SectionKind::Maps`].
    Maps,
    /// See [`SectionKind::Btf`].
    Btf,
    /// See [`SectionKind::Ignored`].
    Ignored,
}

impl View for SectionKind {
    type V = KindModel;

    open spec fn view(&self) -> KindModel {
        match *self {
            SectionKind::Program(t) => KindModel::Program(t@),
            SectionKind::Maps => KindModel::Maps,
            SectionKind::Btf => KindModel::Btf,
            SectionKind::Ignored => KindModel::Ignored,
        }
    }
}

/// The index of the first slash from `i` on, or the end.
pub open spec fn first_slash(name: Seq<char>, i: nat) -> int
    decreases name.len() - i,
{
    if i >= name.len() {
        name.len() as int
    } else if name[i as int] == '/' {
        i as int
    } else {
        first_slash(name, i + 1)
    }
}

/// A section name up to its first slash.
pub open spec fn base_name(name: Seq<char>) -> Seq<char> {
    name.take(first_slash(name, 0))
}

/// What a section with a name is.
pub open spec fn kind_of(name: Seq<char>) -> KindModel {
    let base = base_name(name);
    if base == "xdp"@ {
        KindModel::Program(TypeModel::Xdp)
    } else if base == "kprobe"@ || base == "kretprobe"@ {
        KindModel::Program(TypeModel::Kprobe)
    } else if base == "tc"@ || base == "classifier"@ {
        KindModel::Program(TypeModel::Tc)
    } else if base == "socket"@ {
        KindModel::Program(TypeModel::Socket)
    } else if base == "tracepoint"@ {
        KindModel::Program(TypeModel::Tracepoint)
    } else if base == "maps"@ || base == ".maps"@ {
        KindModel::Maps
    } else if base == ".BTF"@ || base == ".BTF.ext"@ {
        KindModel::Btf
    } else if name.len() == 0 || name[0] == '.' {
        KindModel::Ignored
    } else {
        KindModel::Program(TypeModel::Other(name))
    }
}

/// The program type of a section with a name, if it holds a program.
pub open spec fn type_of(name: Seq<char>) -> Option<TypeModel> {
    match kind_of(name) {
        KindModel::Program(t) => Some(t),
        _ => None,
    }
}

/// Whether a section name is a word up to its first slash.
fn base_is(name: &str, word: &str) -> (r: bool)
    ensures
        r == (base_name(name@) == word@),
{
    let n: usize = name.unicode_len();
    let m: usize = word.unicode_len();
    let mut i: usize = 0;
    while i < n && name.get_char(i) != '/'
        invariant
            i <= n,
            n == name@.len(),
            m == word@.len(),
            i <= m,
            first_slash(name@, 0) == first_slash(name@, i as nat),
            forall|k: int| 0 <= k < i ==> name@[k] == word@[k],
        decreases n - i,
    {
        if i >= m {
            proof {
                lemma_slash_after(name@, (i + 1) as nat);
                assert(base_name(name@).len() > m);
            }
            return false;
        }
        if name.get_char(i) != word.get_char(i) {
            proof {
                lemma_slash_after(name@, (i + 1) as nat);
                assert(base_name(name@)[i as int] == name@[i as int]);
            }
            return false;
        }
        i = i + 1;
    }
    assert(first_slash(name@, 0) == i);
    if i == m {
        assert(base_name(name@) =~= word@);
        true
    } else {
        assert(base_name(name@).len() == i);
        false
    }
}

proof fn lemma_slash_after(name: Seq<char>, i: nat)
    requires
        i <= name.len(),
    ensures
        i <= first_slash(name, i) <= name.len(),
    decreases name.len() - i,
{
    if i < name.len() {
        lemma_slash_after(name, i + 1);
    }
}

impl SectionKind {
    /// Classifies a section name.
    pub fn classify(name: &str) -> (r: Self)
        ensures
            r@ == kind_of(name@),
    {
        if base_is(name, "xdp") {
            SectionKind::Program(ProgType::Xdp)
        } else if base_is(name, "kprobe") || base_is(name, "kretprobe") {
            SectionKind::Program(ProgType::Kprobe)
        } else if base_is(name, "tc") || base_is(name, "classifier") {
            SectionKind::Program(ProgType::Tc)
        } else if base_is(name, "socket") {
            SectionKind::Program(ProgType::Socket)
        } else if base_is(name, "tracepoint") {
            SectionKind::Program(ProgType::Tracepoint)
        } else if base_is(name, "maps") || base_is(name, ".maps") {
            SectionKind::Maps
        } else if base_is(name, ".BTF") || base_is(name, ".BTF.ext") {
            SectionKind::Btf
        } else if name.unicode_len() == 0 || name.get_char(0) == '.' {
            SectionKind::Ignored
        } else {
            SectionKind::Program(ProgType::Other(String::from_str(name)))
        }
    }

    /// The program type, if the section holds a program.
    pub fn program_type(self) -> (r: Option<ProgType>)
        ensures
            match r {
                Some(t) => self@ == KindModel::Program(t@),
                None => !(self@ is Program),
            },
    {
        match self {
            SectionKind::Program(t) => Some(t),
            _ => None,
        }
    }
}

impl ProgType {
    /// The program type of a section name, if the section holds a program.
    pub fn from_section_name(name: &str) -> (r: Option<Self>)
        ensures
            match r {
                Some(t) => type_of(name@) == Some(t@),
                None => type_of(name@) is None,
            },
    {
        SectionKind::classify(name).program_type()
    }

    /// Renders the text form.
    pub fn to_string(&self) -> (s: String)
        ensures
            s@ == self@.display(),
    {
        match self {
            ProgType::Xdp => String::from_str("xdp"),
            ProgType::Kprobe => String::from_str("kprobe"),
            ProgType::Tc => String::from_str("tc"),
            ProgType::Socket => String::from_str("socket"),
            ProgType::Tracepoint => String::from_str("tracepoint"),
            ProgType::Other(name) => String::from_str(name.as_str()),
            ProgType::Unknown => String::from_str("unknown"),
        }
    }
}

impl From<&str> for ProgType {
    /// The program type of a section name; unknown for other sections.
    fn from(name: &str) -> (r: Self)
        ensures
            r@ == (match type_of(name@) {
                Some(t) => t,
                None => TypeModel::Unknown,
            }),
    {
        match ProgType::from_section_name(name) {
            Some(t) => t,
            None => ProgType::Unknown,
        }
    }
}

impl vstd::std_specs::convert::FromSpecImpl<&str> for ProgType {
    open spec fn obeys_from_spec() -> bool {
        false
    }

    open spec fn from_spec(name: &str) -> Self {
        ProgType::Unknown
    }
}

/// A relocation of a program section.
#[derive(Debug, Clone, PartialEq, Eq)]
pub struct Relocation {
    /// Byte offset of the instruction slot.
    pub offset: u64,
    /// Symbol, when known.
    pub symbol: Option<String>,
    /// Relocation kind, as the object reader numbers it.
    pub kind: u8,
}

/// One program.
#[derive(Debug, Clone)]
pub struct ElfProgram {
    /// Section name.
    pub name: String,
    /// Program type.
    pub prog_type: ProgType,
    /// Instruction bytes.
    pub bytes: Vec<u8>,
    /// Relocations.
    pub relocations: Vec<Relocation>,
}

/// Contents of an [`ElfProgram`]: name, type, bytes, and offset and kind of
/// each relocation.
#[verifier::ext_equal]
pub struct ProgramModel {
    /// Section name.
    pub name: Seq<char>,
    /// Program type.
    pub prog_type: TypeModel,
    /// Instruction bytes.
    pub bytes: Seq<u8>,
    /// Offset and kind of each relocation; none has a known symbol.
    pub relocations: Seq<(u64, u8)>,
}

impl ElfProgram {
    /// Whether no relocation has a known symbol.
    pub open spec fn unresolved(&self) -> bool {
        forall|i: int|
            0 <= i < self.relocations@.len() ==> (#[trigger] self.relocations@[i]).symbol is None
    }
}

impl View for ElfProgram {
    type V = ProgramModel;

    open spec fn view(&self) -> ProgramModel {
        ProgramModel {
            name: self.name@,
            prog_type: self.prog_type@,
            bytes: self.bytes@,
            relocations: self.relocations@.map_values(|r: Relocation| (r.offset, r.kind)),
        }
    }
}

/// Loading error.
#[derive(Debug, Clone, PartialEq, Eq)]
#[non_exhaustive]
#[allow(inconsistent_fields)]
pub enum ElfError {
    /// A file cannot be read.
    Io {
        /// File path.
        path: String,
        /// What went wrong.
        source: String,
    },
    /// The bytes are no object file.
    Parse(String),
    /// No section holds a program.
    NoPrograms(String),
    /// The length of a flat file is not a multiple of 8.
    BadRawLength(usize),
}

/// Contents of an [`ElfError`].
#[verifier::ext_equal]
#[allow(inconsistent_fields)]
pub enum ErrorModel {
    /// See [`ElfError::Io`].
    Io {
        /// File path.
        path: Seq<char>,
        /// What went wrong.
        source: Seq<char>,
    },
    /// See [`ElfError::Parse`].
    Parse(Seq<char>),
    /// See [`ElfError::NoPrograms`].
    NoPrograms(Seq<char>),
    /// See [`ElfError::BadRawLength`].
    BadRawLength(usize),
}

impl View for ElfError {
    type V = ErrorModel;

    open spec fn view(&self) -> ErrorModel {
        match *self {
            ElfError::Io { path, source } => ErrorModel::Io { path: path@, source: source@ },
            ElfError::Parse(m) => ErrorModel::Parse(m@),
            ElfError::NoPrograms(label) => ErrorModel::NoPrograms(label@),
            ElfError::BadRawLength(n) => ErrorModel::BadRawLength(n),
        }
    }
}

impl ErrorModel {
    /// The message of the error.
    pub open spec fn display(self) -> Seq<char> {
        match self {
            ErrorModel::Io { path, source } => "cannot read "@ + path + ": "@ + source,
            ErrorModel::Parse(m) => "cannot parse object file: "@ + m,
            ErrorModel::NoPrograms(label) => "no eBPF program sections found in "@ + label,
            ErrorModel::BadRawLength(n) => "raw program length "@ + nat_text(n as nat)
                + " is not a multiple of 8"@,
        }
    }
}

impl ElfError {
    /// Renders the message of the error.
    pub fn to_string(&self) -> (s: String)
        ensures
            s@ == self@.display(),
    {
        match self {
            ElfError::Io { path, source } => {
                let mut s = String::from_str("cannot read ");
                s.append(path.as_str());
                s.append(": ");
                s.append(source.as_str());
                s
            },
            ElfError::Parse(m) => {
                let mut s = String::from_str("cannot parse object file: ");
                s.append(m.as_str());
                s
            },
            ElfError::NoPrograms(label) => {
                let mut s = String::from_str("no eBPF program sections found in ");
                s.append(label.as_str());
                s
            },
            ElfError::BadRawLength(n) => {
                let mut s = String::from_str("raw program length ");
                push_nat(&mut s, *n as u64);
                s.append(" is not a multiple of 8");
                s
            },
        }
    }
}

/// A section as the object reader gives it: a name, if it is text; contents,
/// if they can be read; and the offset and kind of each relocation.
#[derive(Debug, Clone, PartialEq, Eq)]
pub struct RawSection {
    /// Name.
    pub name: Option<String>,
    /// Contents.
    pub data: Option<Vec<u8>>,
    /// Offset and kind of each relocation.
    pub relocations: Vec<(u64, u8)>,
}

/// Contents of a [`RawSection`].
pub type SectionModel = (Option<Seq<char>>, Option<Seq<u8>>, Seq<(u64, u8)>);

impl View for RawSection {
    type V = SectionModel;

    open spec fn view(&self) -> SectionModel {
        (
            match self.name {
                Some(n) => Some(n@),
                None => None,
            },
            match self.data {
                Some(d) => Some(d@),
                None => None,
            },
            self.relocations@,
        )
    }
}

/// Contents of sections.
pub open spec fn sections_of(list: Seq<RawSection>) -> Seq<SectionModel> {
    list.map_values(|s: RawSection| s@)
}

/// The sections that the `object` crate reads from the bytes of an object
/// file, in order, or the message of its error.
pub uninterp spec fn object_sections(data: Seq<u8>) -> Result<Seq<SectionModel>, Seq<char>>;

/// Calls `object::File::parse` and reads every section out: name, contents
/// and relocations. The result is a function of the bytes; fewer than 16
/// bytes are no object file. What the sections of longer input are is left
/// to the crate.
#[verifier::external_body]
fn read_sections(data: &[u8]) -> (r: Result<Vec<RawSection>, String>)
    ensures
        match r {
            Ok(list) => object_sections(data@) == Ok::<Seq<SectionModel>, Seq<char>>(
                sections_of(list@),
            ),
            Err(m) => object_sections(data@) == Err::<Seq<SectionModel>, Seq<char>>(m@),
        },
        data@.len() < 16 ==> r is Err,
{
    let file = object::File::parse(data).map_err(|e| format!("{e}"))?;
    let read = |s: object::Section<'_, '_>| RawSection {
        name: s.name().ok().map(String::from),
        data: s.data().ok().map(Vec::from),
        relocations: s.relocations().map(|(offset, r)| (offset, r.kind() as u8)).collect(),
    };
    Ok(file.sections().map(read).collect())
}

/// The programs of sections from `i` on: those with a name of a program and
/// with contents.
pub open spec fn programs_of(list: Seq<SectionModel>, i: nat) -> Seq<ProgramModel>
    decreases list.len() - i,
{
    if i >= list.len() {
        Seq::empty()
    } else {
        let rest = programs_of(list, i + 1);
        match list[i as int] {
            (Some(name), Some(bytes), relocations) => match type_of(name) {
                Some(prog_type) => seq![ProgramModel { name, prog_type, bytes, relocations }] + rest,
                None => rest,
            },
            _ => rest,
        }
    }
}

/// Contents of programs.
pub open spec fn models_of(list: Seq<ElfProgram>) -> Seq<ProgramModel> {
    list.map_values(|p: ElfProgram| p@)
}

/// Whether a loading result is that of sections.
pub open spec fn loads_to(
    list: Seq<SectionModel>,
    label: Seq<char>,
    r: Result<Vec<ElfProgram>, ElfError>,
) -> bool {
    match r {
        Ok(programs) => {
            &&& programs@.len() > 0
            &&& models_of(programs@) == programs_of(list, 0)
            &&& forall|i: int| 0 <= i < programs@.len() ==> (#[trigger] programs@[i]).unresolved()
        },
        Err(e) => e@ == ErrorModel::NoPrograms(label) && programs_of(list, 0).len() == 0,
    }
}

/// Relocations with unknown symbols.
fn relocations_of(list: &Vec<(u64, u8)>) -> (r: Vec<Relocation>)
    ensures
        r@.map_values(|x: Relocation| (x.offset, x.kind)) == list@,
        forall|i: int| 0 <= i < r@.len() ==> (#[trigger] r@[i]).symbol is None,
{
    let mut r: Vec<Relocation> = Vec::new();
    let mut i: usize = 0;
    while i < list.len()
        invariant
            i <= list@.len(),
            r@.len() == i,
            forall|k: int|
                0 <= k < i ==> (#[trigger] r@[k]).symbol is None && (r@[k].offset, r@[k].kind) == list@[k],
        decreases list@.len() - i,
    {
        let (offset, kind) = list[i];
        r.push(Relocation { offset, symbol: None, kind });
        i = i + 1;
    }
    assert(r@.map_values(|x: Relocation| (x.offset, x.kind)) =~= list@);
    r
}

/// The programs of sections. It is an error if there are none.
pub fn programs_from(sections: &Vec<RawSection>, label: &str) -> (r: Result<Vec<ElfProgram>, ElfError>)
    ensures
        loads_to(sections_of(sections@), label@, r),
{
    let ghost list = sections_of(sections@);
    let mut programs: Vec<ElfProgram> = Vec::new();
    let mut i: usize = 0;
    assert(models_of(programs@) + programs_of(list, 0) =~= programs_of(list, 0));
    while i < sections.len()
        invariant
            i <= sections@.len(),
            list == sections_of(sections@),
            programs_of(list, 0) == models_of(programs@) + programs_of(list, i as nat),
            forall|k: int| 0 <= k < programs@.len() ==> (#[trigger] programs@[k]).unresolved(),
        decreases sections@.len() - i,
    {
        assert(list[i as int] == sections@[i as int]@);
        let section = &sections[i];
        let ghost before = programs@;
        if let (Some(name), Some(data)) = (&section.name, &section.data) {
            if let Some(prog_type) = ProgType::from_section_name(name.as_str()) {
                let bytes = vstd::slice::slice_to_vec(data.as_slice());
                let one = ElfProgram {
                    name: String::from_str(name.as_str()),
                    prog_type,
                    bytes,
                    relocations: relocations_of(&section.relocations),
                };
                assert(one@ =~= (ProgramModel {
                    name: name@,
                    prog_type: prog_type@,
                    bytes: data@,
                    relocations: section.relocations@,
                }));
                programs.push(one);
                proof {
                    assert(models_of(programs@) =~= models_of(before).push(one@));
                    assert(models_of(before) + (seq![one@] + programs_of(list, (i + 1) as nat))
                        =~= models_of(programs@) + programs_of(list, (i + 1) as nat));
                }
            }
        }
        i = i + 1;
    }
    assert(models_of(programs@) + Seq::<ProgramModel>::empty() =~= models_of(programs@));
    if programs.len() == 0 {
        assert(models_of(programs@).len() == 0);
        return Err(ElfError::NoPrograms(String::from_str(label)));
    }
    Ok(programs)
}

/// Loads the programs of an object file from its bytes.
pub fn load_bytes(data: &[u8], label: &str) -> (r: Result<Vec<ElfProgram>, ElfError>)
    ensures
        match object_sections(data@) {
            Ok(list) => loads_to(list, label@, r),
            Err(m) => r matches Err(e) && e@ == ErrorModel::Parse(m),
        },
        data@.len() < 16 ==> (r matches Err(e) && e is Parse),
{
    match read_sections(data) {
        Ok(sections) => programs_from(&sections, label),
        Err(m) => Err(ElfError::Parse(m)),
    }
}

/// The program of a flat file: its bytes, which must fill whole slots.
pub fn raw_program(bytes: Vec<u8>, name: &str) -> (r: Result<ElfProgram, ElfError>)
    ensures
        match r {
            Ok(p) => bytes@.len() % 8 == 0 && p@ == (ProgramModel {
                name: name@,
                prog_type: TypeModel::Unknown,
                bytes: bytes@,
                relocations: Seq::empty(),
            }),
            Err(e) => bytes@.len() % 8 != 0 && e == ElfError::BadRawLength(bytes@.len() as usize),
        },
{
    if bytes.len() % 8 != 0 {
        return Err(ElfError::BadRawLength(bytes.len()));
    }
    let p = ElfProgram {
        name: String::from_str(name),
        prog_type: ProgType::Unknown,
        bytes,
        relocations: Vec::new(),
    };
    assert(p@.relocations =~= Seq::empty());
    Ok(p)
}

/// Whether a file that failed to load as an object is tried as a flat file:
/// one with the extension of flat files always, any other one if it is an
/// object file without programs.
pub fn tries_raw(flat: bool, e: &ElfError) -> (r: bool)
    ensures
        r == (flat || e is NoPrograms),
{
    flat || matches!(e, ElfError::NoPrograms(_))
}

} // verus!
