//! Reading the dependency names that a PE32+ image declares.
//!
//! The image is parsed by `pelite`. [`find_deps`] makes sure that the
//! parser can read the image in place, asks the parser, keeps what it says
//! as plain values, and hands them to [`dependencies`], which decides what
//! they mean for the module.
//!
//! What the parser says of an image is a matter of its bytes alone, once
//! they lie where a 64-bit word may start. It is not written out here: it
//! has names, [`header_refusal`], [`directory_count`], [`import_table_of`]
//! and [`library_name_of`], and [`parsed`] says what the names come to.
//!
//! The parser reads the fields of an image in the byte order of the
//! machine. That is the byte order of the format on the little-endian
//! machines that the parser is written for, and this module and the names
//! in it are written for them too.

use vstd::prelude::*;
use vstd::string::StringExecFns;
use pelite::pe64::Pe;
use crate::buffer::AlignedImage;
use crate::layout::{has_dos_header, in_place, readable_in_place};
use crate::record::{texts, Failure, FailureKind, FailureView};

verus! {

/// The entry of the data directory that stands for the imports.
pub const IMPORT_ENTRY: usize = 1;

/// What `PeFile::from_bytes` says of an image: nothing where it accepts the
/// headers, else the message of its error.
pub uninterp spec fn header_refusal(image: Seq<u8>) -> Option<Seq<char>>;

/// What `Pe::data_directory` gives for an image whose headers were
/// accepted: the number of entries of its data directory.
pub uninterp spec fn directory_count(image: Seq<u8>) -> nat;

/// What `Pe::imports` gives for an image whose headers were accepted: the
/// number of descriptors in its import directory, or, of its error, whether
/// it says that there is no such directory, and its message.
pub uninterp spec fn import_table_of(image: Seq<u8>) -> Result<nat, (bool, Seq<char>)>;

/// What `Desc::dll_name` gives for the descriptor at `index` of the import
/// directory of an image: the name as text, or the message of the error
/// that kept it from being read or from being decoded.
pub uninterp spec fn library_name_of(image: Seq<u8>, index: int) -> RawNameView;

/// The value of a refusal: its message as text.
pub open spec fn refusal_view(r: Option<String>) -> Option<Seq<char>> {
    match r {
        Some(message) => Some(message@),
        None => None,
    }
}

/// The value of what was found of an import directory.
pub open spec fn table_view(r: Result<usize, (bool, String)>) -> Result<nat, (bool, Seq<char>)> {
    match r {
        Ok(count) => Ok(count as nat),
        Err(refusal) => Err((refusal.0, refusal.1@)),
    }
}

/// `PeFile::from_bytes`, on the bytes of the buffer as `dataview::bytes`
/// gives them: checks the headers of a PE32+ image. The result is nothing
/// where the parser accepts them, else the text that `Error::to_str` gives
/// for its error.
///
/// The bytes handed over are the memory of the words of the buffer, cut to
/// the length of the image: on a little-endian machine, the bytes that the
/// buffer was made from. They start where a 64-bit word starts. The parser
/// forms references to the NT headers and, later, to the section headers
/// and to what the sections hold; `readable_in_place` says that these lie
/// at the multiples they need from there.
///
/// Claimed: the result is [`header_refusal`] of the bytes; and bytes
/// without a DOS header and its signature are refused, which is the first
/// thing the parser looks at.
#[verifier::external_body]
fn header_verdict(buffer: &AlignedImage) -> (r: Option<String>)
    requires
        buffer.wf(),
        readable_in_place(buffer@),
    ensures
        refusal_view(r) == header_refusal(buffer@),
        !has_dos_header(buffer@) ==> r is Some,
{
    let bytes = &dataview::bytes(buffer.words.as_slice())[..buffer.len];
    match pelite::pe64::PeFile::from_bytes(bytes) {
        Ok(_) => None,
        Err(error) => Some(error.to_str().to_string()),
    }
}

/// `Pe::data_directory`, on an image whose headers the parser accepts: the
/// number of entries of its data directory.
///
/// Claimed: the result is [`directory_count`] of the bytes.
#[verifier::external_body]
fn directory_entries(buffer: &AlignedImage) -> (n: usize)
    requires
        buffer.wf(),
        readable_in_place(buffer@),
        header_refusal(buffer@) is None,
    ensures
        n == directory_count(buffer@),
{
    let bytes = &dataview::bytes(buffer.words.as_slice())[..buffer.len];
    pelite::pe64::PeFile::from_bytes(bytes).unwrap().data_directory().len()
}

/// `Pe::imports`, on an image whose headers the parser accepts: the number
/// of descriptors in its import directory, or, of the parser's error, what
/// `Error::is_null` and `Error::to_str` give.
///
/// Claimed: the result is [`import_table_of`] of the bytes.
#[verifier::external_body]
fn import_table(buffer: &AlignedImage) -> (r: Result<usize, (bool, String)>)
    requires
        buffer.wf(),
        readable_in_place(buffer@),
        header_refusal(buffer@) is None,
    ensures
        table_view(r) == import_table_of(buffer@),
{
    let bytes = &dataview::bytes(buffer.words.as_slice())[..buffer.len];
    match pelite::pe64::PeFile::from_bytes(bytes).unwrap().imports() {
        Ok(table) => Ok(table.iter().len()),
        Err(error) => Err((error.is_null(), error.to_str().to_string())),
    }
}

/// `Desc::dll_name`, on the descriptor at `index` of the import directory
/// of an image that has one: the name as `CStr::to_str` gives it, or the
/// text of the error of the one or the other.
///
/// Claimed: the result is [`library_name_of`] of the bytes and the index.
#[verifier::external_body]
fn library_name(buffer: &AlignedImage, index: usize) -> (name: RawName)
    requires
        buffer.wf(),
        readable_in_place(buffer@),
        header_refusal(buffer@) is None,
        import_table_of(buffer@) matches Ok(count) && index < count,
    ensures
        name@ == library_name_of(buffer@, index as int),
{
    let bytes = &dataview::bytes(buffer.words.as_slice())[..buffer.len];
    let table = pelite::pe64::PeFile::from_bytes(bytes).unwrap().imports().unwrap();
    match table.iter().nth(index).unwrap().dll_name() {
        Ok(raw) => match raw.to_str() {
            Ok(text) => RawName::Text(text.to_string()),
            Err(error) => RawName::Undecodable(error.to_string()),
        },
        Err(error) => RawName::Corrupt(error.to_str().to_string()),
    }
}

/// What the parser made of the name of one import descriptor.
#[derive(Debug, PartialEq, Eq)]
pub enum RawName {
    /// The name, as text.
    Text(String),
    /// The name cannot be read out of the image; holds the parser's
    /// message.
    Corrupt(String),
    /// The bytes of the name are no UTF-8 text; holds the decoder's
    /// message.
    Undecodable(String),
}

/// The mathematical value of a [`RawName`].
pub ghost enum RawNameView {
    Text(Seq<char>),
    Corrupt(Seq<char>),
    Undecodable(Seq<char>),
}

impl View for RawName {
    type V = RawNameView;

    open spec fn view(&self) -> RawNameView {
        match self {
            RawName::Text(name) => RawNameView::Text(name@),
            RawName::Corrupt(message) => RawNameView::Corrupt(message@),
            RawName::Undecodable(message) => RawNameView::Undecodable(message@),
        }
    }
}

impl RawNameView {
    /// The failure that the name stands for, where it is no text.
    pub open spec fn failure(self) -> Option<FailureView> {
        match self {
            RawNameView::Text(name) => None,
            RawNameView::Corrupt(message) => Some(
                FailureView { kind: FailureKind::Parse, detail: message },
            ),
            RawNameView::Undecodable(message) => Some(
                FailureView { kind: FailureKind::NameDecode, detail: message },
            ),
        }
    }
}

/// What the parser made of an image.
#[derive(Debug, PartialEq, Eq)]
pub enum RawImports {
    /// The bytes are no image of the expected format; holds the parser's
    /// message.
    Rejected(String),
    /// The image has no import directory.
    Absent,
    /// The import directory cannot be read out of the image; holds the
    /// parser's message.
    Corrupt(String),
    /// The names of the import descriptors, in table order.
    Table(Vec<RawName>),
}

/// The mathematical value of a [`RawImports`].
pub ghost enum RawImportsView {
    Rejected(Seq<char>),
    Absent,
    Corrupt(Seq<char>),
    Table(Seq<RawNameView>),
}

/// The value of each name of a table, in order.
pub open spec fn raw_names(table: Seq<RawName>) -> Seq<RawNameView> {
    Seq::new(table.len(), |i: int| table[i]@)
}

impl View for RawImports {
    type V = RawImportsView;

    open spec fn view(&self) -> RawImportsView {
        match self {
            RawImports::Rejected(message) => RawImportsView::Rejected(message@),
            RawImports::Absent => RawImportsView::Absent,
            RawImports::Corrupt(message) => RawImportsView::Corrupt(message@),
            RawImports::Table(table) => RawImportsView::Table(raw_names(table@)),
        }
    }
}

/// The position of the first name, from `from` on, that is no text, or the
/// length of the table where every name is.
pub open spec fn first_failure(table: Seq<RawNameView>, from: int) -> int
    decreases table.len() - from,
{
    if from < 0 || from >= table.len() {
        table.len() as int
    } else if table[from] is Text {
        first_failure(table, from + 1)
    } else {
        from
    }
}

/// What a module declares, given what the parser made of its image.
///
/// An image that the parser rejects, and one whose import directory is
/// corrupt, is a `Parse` failure with the parser's message. An image
/// without an import directory declares nothing. Otherwise the names of
/// the table are the dependencies, in table order, unless one of them is no
/// text: the first such name is the failure, `NameDecode` where its bytes
/// are no UTF-8 text and `Parse` where it cannot be read at all.
pub open spec fn declared(raw: RawImportsView) -> Result<Seq<Seq<char>>, FailureView> {
    match raw {
        RawImportsView::Rejected(message) => Err(
            FailureView { kind: FailureKind::Parse, detail: message },
        ),
        RawImportsView::Absent => Ok(Seq::empty()),
        RawImportsView::Corrupt(message) => Err(
            FailureView { kind: FailureKind::Parse, detail: message },
        ),
        RawImportsView::Table(table) => {
            let bad = first_failure(table, 0);
            if bad == table.len() {
                Ok(Seq::new(table.len(), |i: int| table[i]->Text_0))
            } else {
                Err(table[bad].failure().unwrap())
            }
        },
    }
}

/// The first name that is no text has only text before it, and is the
/// first such name.
pub proof fn lemma_first_failure(table: Seq<RawNameView>, from: int)
    requires
        0 <= from <= table.len(),
    ensures
        from <= first_failure(table, from) <= table.len(),
        forall|i: int| from <= i < first_failure(table, from) ==> (#[trigger] table[i]) is Text,
        first_failure(table, from) < table.len() ==> !(table[first_failure(table, from)] is Text),
    decreases table.len() - from,
{
    if from < table.len() && table[from] is Text {
        lemma_first_failure(table, from + 1);
    }
}

/// What a module declares, given what the parser made of its image: its
/// dependency names, or the failure that stands in their way.
pub fn dependencies(raw: RawImports) -> (r: Result<Vec<String>, Failure>)
    ensures
        r matches Ok(names) ==> declared(raw@) == Ok::<Seq<Seq<char>>, FailureView>(
            texts(names@),
        ),
        r matches Err(failure) ==> declared(raw@) == Err::<Seq<Seq<char>>, FailureView>(
            failure@,
        ),
{
    match raw {
        RawImports::Rejected(message) => Err(Failure::new(FailureKind::Parse, message)),
        RawImports::Absent => {
            let names: Vec<String> = Vec::new();
            assert(texts(names@) =~= Seq::<Seq<char>>::empty());
            Ok(names)
        },
        RawImports::Corrupt(message) => Err(Failure::new(FailureKind::Parse, message)),
        RawImports::Table(table) => {
            let ghost all = raw_names(table@);
            let mut names: Vec<String> = Vec::new();
            let mut i: usize = 0;
            while i < table.len()
                invariant
                    i <= table.len(),
                    all == raw_names(table@),
                    raw@ == RawImportsView::Table(all),
                    first_failure(all, 0) == first_failure(all, i as int),
                    names.len() == i,
                    forall|k: int| 0 <= k < i ==> (#[trigger] names@[k])@ == all[k]->Text_0,
                decreases table.len() - i,
            {
                assert(all[i as int] == table@[i as int]@);
                match &table[i] {
                    RawName::Text(name) => {
                        names.push(name.clone());
                    },
                    RawName::Corrupt(message) => {
                        assert(first_failure(all, i as int) == i);
                        return Err(Failure::new(FailureKind::Parse, message.clone()));
                    },
                    RawName::Undecodable(message) => {
                        assert(first_failure(all, i as int) == i);
                        return Err(Failure::new(FailureKind::NameDecode, message.clone()));
                    },
                }
                i += 1;
            }
            assert(texts(names@) =~= Seq::new(all.len(), |i: int| all[i]->Text_0));
            Ok(names)
        },
    }
}

/// The message of the failure of an image whose headers do not lie where
/// the parser can read them.
pub open spec fn misaligned_message() -> Seq<char> {
    "address misaligned"@
}

/// What is made of an image.
///
/// An image that the parser cannot read in place is rejected, and the
/// parser is not asked. This is stricter than the parser: it turns down an
/// image with a section out of step even where the imports lie in another.
/// Of any other image the parser's word is taken: an image whose headers it
/// refuses is rejected with its message; one whose data directory has no
/// entry for imports, or whose entry the parser finds empty, has none; one
/// whose import directory it cannot read is corrupt; and otherwise the
/// table holds what the parser makes of the name of each descriptor, in
/// order.
pub open spec fn parsed(image: Seq<u8>) -> RawImportsView {
    if !readable_in_place(image) {
        RawImportsView::Rejected(misaligned_message())
    } else {
        match header_refusal(image) {
            Some(message) => RawImportsView::Rejected(message),
            None => if directory_count(image) <= IMPORT_ENTRY {
                RawImportsView::Absent
            } else {
                match import_table_of(image) {
                    Err((absent, message)) => if absent {
                        RawImportsView::Absent
                    } else {
                        RawImportsView::Corrupt(message)
                    },
                    Ok(count) => RawImportsView::Table(
                        Seq::new(count, |index: int| library_name_of(image, index)),
                    ),
                }
            },
        }
    }
}

/// Asks the parser for the import table of the image in `image`.
///
/// An image that the parser cannot read in place is rejected here. Any
/// other is copied to where a 64-bit word may start, and the parser is
/// asked about the copy. Bytes without a DOS header are among those that it
/// refuses.
pub fn read_imports(image: &[u8]) -> (raw: RawImports)
    ensures
        raw@ == parsed(image@),
        !has_dos_header(image@) ==> raw@ is Rejected,
{
    if !in_place(image) {
        return RawImports::Rejected(String::from_str("address misaligned"));
    }
    let buffer = AlignedImage::copy_of(image);
    match header_verdict(&buffer) {
        Some(message) => {
            return RawImports::Rejected(message);
        },
        None => {},
    }
    if directory_entries(&buffer) <= IMPORT_ENTRY {
        return RawImports::Absent;
    }
    let count = match import_table(&buffer) {
        Ok(count) => count,
        Err(refusal) => {
            if refusal.0 {
                return RawImports::Absent;
            }
            return RawImports::Corrupt(refusal.1);
        },
    };
    let mut table: Vec<RawName> = Vec::new();
    let mut index: usize = 0;
    while index < count
        invariant
            index <= count,
            buffer.wf(),
            buffer@ == image@,
            readable_in_place(image@),
            header_refusal(image@) is None,
            import_table_of(image@) == table_view(Ok(count)),
            table.len() == index,
            forall|k: int| 0 <= k < index ==> (#[trigger] table@[k])@ == library_name_of(image@, k),
        decreases count - index,
    {
        table.push(library_name(&buffer, index));
        index += 1;
    }
    assert(raw_names(table@) =~= Seq::new(
        count as nat,
        |index: int| library_name_of(image@, index),
    ));
    RawImports::Table(table)
}

/// The dependency names that the image in `image` declares, in the order
/// of its import table, or the failure that stands in their way: what
/// [`declared`] says of what is [`parsed`] of the image.
///
/// So a list is owed for every image that the parser reads through, and it
/// holds the names as the parser gives them, one per descriptor, repeated
/// where the table repeats them. An image whose headers do not lie where
/// the parser can read them is a `Parse` failure of this library's own.
/// Bytes without a DOS header are no image: they give a `Parse` failure. A
/// failure is always a `Parse` or a `NameDecode` failure.
pub fn find_deps(image: &[u8]) -> (r: Result<Vec<String>, Failure>)
    ensures
        r matches Ok(names) ==> declared(parsed(image@)) == Ok::<Seq<Seq<char>>, FailureView>(
            texts(names@),
        ),
        r matches Err(failure) ==> declared(parsed(image@)) == Err::<Seq<Seq<char>>, FailureView>(
            failure@,
        ),
        !readable_in_place(image@) ==> (r matches Err(failure) && failure@ == FailureView {
            kind: FailureKind::Parse,
            detail: misaligned_message(),
        }),
        !has_dos_header(image@) ==> (r matches Err(failure) && failure.kind
            == FailureKind::Parse),
        r matches Err(failure) ==> failure.kind == FailureKind::Parse || failure.kind
            == FailureKind::NameDecode,
{
    let raw = read_imports(image);
    proof {
        if raw@ is Table {
            lemma_first_failure(raw@->Table_0, 0);
        }
    }
    dependencies(raw)
}

} // verus!
