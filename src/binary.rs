//! What the logic reads of an executable: its architecture and its code sections.
use crate::error::AppError;
use object::Architecture;
use object::Error as ObjectError;
use object::{Object, ObjectSection};
use vstd::prelude::*;

verus! {

/// A code section of the binary: its name and its byte range in the file.
#[derive(Debug, PartialEq, Eq)]
pub struct Segment {
    pub name: Option<String>,
    pub offset: u64,
    pub size: u64,
}

impl Segment {
    pub fn new(name: Option<String>, offset: u64, size: u64) -> (r: Segment)
        ensures
            r.name == name,
            r.offset == offset,
            r.size == size,
    {
        Segment { name, offset, size }
    }

    pub fn name(&self) -> (r: Option<&str>)
        ensures
            r is None <==> self.name is None,
            r is Some ==> r->0@ == self.name->0@,
    {
        match &self.name {
            Some(s) => Some(s.as_str()),
            None => None,
        }
    }

    pub fn offset(&self) -> (r: u64)
        ensures
            r == self.offset,
    {
        self.offset
    }

    pub fn size(&self) -> (r: u64)
        ensures
            r == self.size,
    {
        self.size
    }
}

/// A section as the object reader reports it.
pub struct Section {
    /// The section holds code.
    pub text: bool,
    /// Its offset and size in the file, where it has bytes there.
    pub range: Option<(u64, u64)>,
    pub name: Option<String>,
}

/// The model of a [`Section`].
pub struct SectionView {
    pub text: bool,
    pub range: Option<(u64, u64)>,
    pub name: Option<Seq<char>>,
}

impl View for Section {
    type V = SectionView;

    open spec fn view(&self) -> SectionView {
        SectionView { text: self.text, range: self.range, name: name_view(self.name) }
    }
}

/// The model of a [`Segment`].
pub struct SegmentView {
    pub name: Option<Seq<char>>,
    pub offset: u64,
    pub size: u64,
}

impl View for Segment {
    type V = SegmentView;

    open spec fn view(&self) -> SegmentView {
        SegmentView { name: name_view(self.name), offset: self.offset, size: self.size }
    }
}

/// The characters of a name, where there is one.
pub open spec fn name_view(n: Option<String>) -> Option<Seq<char>> {
    match n {
        Some(s) => Some(s@),
        None => None,
    }
}

/// The models of the sections of `s`.
pub open spec fn section_views(s: Seq<Section>) -> Seq<SectionView> {
    s.map_values(|x: Section| x@)
}

/// The models of the segments of `s`.
pub open spec fn segment_views(s: Seq<Segment>) -> Seq<SegmentView> {
    s.map_values(|x: Segment| x@)
}

/// The architecture classes that decoding tells apart.
#[derive(Clone, Copy, Debug, PartialEq, Eq, Structural)]
pub enum Arch {
    /// 64-bit x86.
    X86_64,
    /// x86-64 code with 32-bit pointers.
    X86_64X32,
    /// 32-bit x86.
    I386,
    /// Any other architecture.
    Other,
}

/// The decode width of an architecture; none where it is not x86.
pub open spec fn bitness_of(a: Arch) -> Option<u32> {
    match a {
        Arch::X86_64 => Some(64),
        Arch::X86_64X32 | Arch::I386 => Some(32),
        Arch::Other => None,
    }
}

/// The code sections of `s` that have bytes in the file, in order.
pub open spec fn text_segments(s: Seq<SectionView>) -> Seq<SegmentView>
    decreases s.len(),
{
    if s.len() == 0 {
        Seq::empty()
    } else {
        let rest = text_segments(s.drop_last());
        let x = s.last();
        if x.text && x.range is Some {
            let range = x.range->0;
            rest.push(SegmentView { name: x.name, offset: range.0, size: range.1 })
        } else {
            rest
        }
    }
}

/// The format of an object file, as object reports it; opaque here.
#[verifier::external_type_specification]
#[verifier::external_body]
pub struct ExBinaryFormat(object::BinaryFormat);

/// The architecture of an object file, as object reports it; opaque here.
#[verifier::external_type_specification]
#[verifier::external_body]
pub struct ExArchitecture(object::Architecture);

/// The error object gives for a file it cannot parse; opaque here.
#[verifier::external_type_specification]
#[verifier::external_body]
pub struct ExObjectError(ObjectError);

/// Whether object parses `data` as an object file.
pub uninterp spec fn object_parses(data: Seq<u8>) -> bool;

/// The architecture class of the object file that `data` holds.
pub uninterp spec fn object_arch(data: Seq<u8>) -> Arch;

/// The sections of the object file that `data` holds, in object's order.
pub uninterp spec fn object_sections(data: Seq<u8>) -> Seq<SectionView>;

/// Relies on object's `File::parse` over the file's bytes, then its
/// `format`, `architecture` (its x86 variants told apart) and `sections`,
/// and each section's `kind`, `file_range` and `name`; all of which depend
/// on the bytes alone.
#[verifier::external_body]
fn parse_object(data: &[u8]) -> (r: Result<
    (object::BinaryFormat, object::Architecture, Arch, Vec<Section>),
    ObjectError,
>)
    ensures
        r is Ok <==> object_parses(data@),
        r matches Ok((_, _, a, s)) ==> a == object_arch(data@) && section_views(s@)
            == object_sections(data@),
{
    let file = object::File::parse(data)?;
    let mut sections = Vec::new();
    for s in file.sections() {
        let text = s.kind() == object::SectionKind::Text;
        sections.push(Section { text, range: s.file_range(), name: s.name().ok().map(String::from) });
    }
    let arch = match file.architecture() {
        Architecture::X86_64 => Arch::X86_64,
        Architecture::X86_64_X32 => Arch::X86_64X32,
        Architecture::I386 => Arch::I386,
        _ => Arch::Other,
    };
    Ok((file.format(), file.architecture(), arch, sections))
}

/// An executable: its format, its architecture and its code sections.
pub struct Binary {
    pub format: object::BinaryFormat,
    pub architecture: object::Architecture,
    pub arch: Arch,
    pub segments: Vec<Segment>,
}

impl Binary {
    /// Keeps, of `sections`, those that hold code and have bytes in the file.
    pub fn new(
        format: object::BinaryFormat,
        architecture: object::Architecture,
        arch: Arch,
        sections: Vec<Section>,
    ) -> (r: Binary)
        ensures
            r.format == format,
            r.architecture == architecture,
            r.arch == arch,
            segment_views(r.segments@) == text_segments(section_views(sections@)),
    {
        let ghost orig = sections@;
        let mut sections = sections;
        let n = sections.len();
        let mut segments: Vec<Segment> = Vec::new();
        let mut k: usize = 0;
        while sections.len() > 0
            invariant
                k + sections.len() == orig.len(),
                orig.len() == n,
                sections@ == orig.subrange(k as int, orig.len() as int),
                segment_views(segments@) == text_segments(section_views(orig.take(k as int))),
            decreases sections.len(),
        {
            let s = sections.remove(0);
            assert(orig.take(k + 1).drop_last() =~= orig.take(k as int));
            assert(section_views(orig.take(k + 1)).drop_last() =~= section_views(
                orig.take(k as int),
            ));
            let ghost before = segments@;
            assert(orig[k as int] == s);
            assert(sections@ =~= orig.subrange(k + 1, orig.len() as int));
            if s.text {
                if let Some((offset, size)) = s.range {
                    segments.push(Segment { name: s.name, offset, size });
                    assert(segment_views(segments@) =~= segment_views(before).push(
                        segments@.last()@,
                    ));
                }
            }
            k += 1;
        }
        assert(orig.take(orig.len() as int) =~= orig);
        Binary { format, architecture, arch, segments }
    }

    /// Reads an executable from its bytes: its architecture class, and its
    /// code sections that have bytes in the file.
    pub fn parse(data: &[u8]) -> (r: Result<Binary, ObjectError>)
        ensures
            r is Ok <==> object_parses(data@),
            r matches Ok(b) ==> b.arch == object_arch(data@) && segment_views(b.segments@)
                == text_segments(object_sections(data@)),
    {
        match parse_object(data) {
            Ok((format, architecture, arch, sections)) => {
                Ok(Binary::new(format, architecture, arch, sections))
            },
            Err(e) => Err(e),
        }
    }

    pub fn format(&self) -> (r: object::BinaryFormat)
        ensures
            r == self.format,
    {
        self.format
    }

    pub fn architecture(&self) -> (r: object::Architecture)
        ensures
            r == self.architecture,
    {
        self.architecture
    }

    /// The decode width: 64 for x86-64, 32 for 32-bit x86 and x32, none otherwise.
    pub fn bitness(&self) -> (r: Option<u32>)
        ensures
            r == bitness_of(self.arch),
    {
        match self.arch {
            Arch::X86_64 => Some(64),
            Arch::X86_64X32 | Arch::I386 => Some(32),
            Arch::Other => None,
        }
    }

    pub fn into_segments(self) -> (r: Vec<Segment>)
        ensures
            r@ == self.segments@,
    {
        self.segments
    }

    /// What decoding needs: the decode width and the code sections. An
    /// architecture that is not x86 is refused first, then a binary without
    /// code sections.
    pub fn target(self) -> (r: Result<(u32, Vec<Segment>), AppError>)
        ensures
            bitness_of(self.arch) is None ==> r == Err::<(u32, Vec<Segment>), AppError>(
                AppError::WrongArch,
            ),
            bitness_of(self.arch) is Some && self.segments.len() == 0 ==> r == Err::<
                (u32, Vec<Segment>),
                AppError,
            >(AppError::NoText),
            bitness_of(self.arch) is Some && self.segments.len() > 0 ==> (r matches Ok((b, s))
                && b == bitness_of(self.arch)->0 && s@ == self.segments@),
    {
        match self.bitness() {
            None => Err(AppError::WrongArch),
            Some(b) => {
                if self.segments.len() == 0 {
                    Err(AppError::NoText)
                } else {
                    Ok((b, self.into_segments()))
                }
            },
        }
    }
}

} // verus!
