//! Compilation units as a `.kzip` archive holds them: the few messages of
//! `kythe.proto` that indexing needs, and their proto encoding.

use vstd::prelude::*;
use vstd::utf8::encode_utf8;

use crate::text::{lossy_chars, lossy_string, lowercase, lowered, texts};
use crate::wire::{
    field_bytes, fold_fields, fold_list, lemma_field_bytes_are, lemma_fold_field,
    lemma_fold_list_concat, lemma_fold_other, lemma_message_concat, lemma_message_one,
    lemma_message_round_trip, lemma_varint_bytes_len, message_bytes, read_field, varint_bytes,
    write_tag_len, WireError,
};

verus! {

// ------------------------------------------------------------------ types

/// The name of a node: the part of `kythe.proto.VName` that a unit carries.
#[derive(Debug)]
pub struct VName {
    pub signature: String,
    pub corpus: String,
    pub root: String,
    pub path: String,
    pub language: String,
}

/// What a [`VName`] says.
#[verifier::ext_equal]
pub struct VNameView {
    pub signature: Seq<char>,
    pub corpus: Seq<char>,
    pub root: Seq<char>,
    pub path: Seq<char>,
    pub language: Seq<char>,
}

impl View for VName {
    type V = VNameView;

    open spec fn view(&self) -> VNameView {
        VNameView {
            signature: self.signature@,
            corpus: self.corpus@,
            root: self.root@,
            path: self.path@,
            language: self.language@,
        }
    }
}

/// Where a file's contents are found: its path and the digest that names its
/// blob.
#[derive(Debug)]
pub struct FileInfo {
    pub path: String,
    pub digest: String,
}

/// What a [`FileInfo`] says.
#[verifier::ext_equal]
pub struct FileInfoView {
    pub path: Seq<char>,
    pub digest: Seq<char>,
}

impl View for FileInfo {
    type V = FileInfoView;

    open spec fn view(&self) -> FileInfoView {
        FileInfoView { path: self.path@, digest: self.digest@ }
    }
}

/// One file that a compilation reads.
#[derive(Debug)]
pub struct FileInput {
    pub v_name: VName,
    pub info: FileInfo,
}

/// What a [`FileInput`] says.
#[verifier::ext_equal]
pub struct FileInputView {
    pub v_name: VNameView,
    pub info: FileInfoView,
}

impl View for FileInput {
    type V = FileInputView;

    open spec fn view(&self) -> FileInputView {
        FileInputView { v_name: self.v_name@, info: self.info@ }
    }
}

/// One compilation: its name, its inputs and its command line.
#[derive(Debug)]
pub struct CompilationUnit {
    pub v_name: VName,
    pub required_input: Vec<FileInput>,
    pub argument: Vec<String>,
    pub source_file: Vec<String>,
    pub output_key: String,
    pub working_directory: String,
    pub entry_context: String,
}

/// What a [`CompilationUnit`] says.
#[verifier::ext_equal]
pub struct CompilationUnitView {
    pub v_name: VNameView,
    pub required_input: Seq<FileInputView>,
    pub argument: Seq<Seq<char>>,
    pub source_file: Seq<Seq<char>>,
    pub output_key: Seq<char>,
    pub working_directory: Seq<char>,
    pub entry_context: Seq<char>,
}

/// What each of a list of inputs says.
pub open spec fn input_views(v: Seq<FileInput>) -> Seq<FileInputView> {
    v.map_values(|f: FileInput| f@)
}

impl View for CompilationUnit {
    type V = CompilationUnitView;

    open spec fn view(&self) -> CompilationUnitView {
        CompilationUnitView {
            v_name: self.v_name@,
            required_input: input_views(self.required_input@),
            argument: texts(self.argument@),
            source_file: texts(self.source_file@),
            output_key: self.output_key@,
            working_directory: self.working_directory@,
            entry_context: self.entry_context@,
        }
    }
}

/// A unit as the archive stores it. The index beside it is not kept.
#[derive(Debug)]
pub struct IndexedCompilation {
    pub unit: CompilationUnit,
}

impl View for IndexedCompilation {
    type V = CompilationUnitView;

    open spec fn view(&self) -> CompilationUnitView {
        self.unit@
    }
}

// --------------------------------------------------------------- defaults

impl VNameView {
    /// The name without any part.
    pub open spec fn empty() -> VNameView {
        VNameView {
            signature: seq![],
            corpus: seq![],
            root: seq![],
            path: seq![],
            language: seq![],
        }
    }
}

impl FileInfoView {
    pub open spec fn empty() -> FileInfoView {
        FileInfoView { path: seq![], digest: seq![] }
    }
}

impl FileInputView {
    pub open spec fn empty() -> FileInputView {
        FileInputView { v_name: VNameView::empty(), info: FileInfoView::empty() }
    }
}

impl CompilationUnitView {
    pub open spec fn empty() -> CompilationUnitView {
        CompilationUnitView {
            v_name: VNameView::empty(),
            required_input: seq![],
            argument: seq![],
            source_file: seq![],
            output_key: seq![],
            working_directory: seq![],
            entry_context: seq![],
        }
    }
}

impl Default for VName {
    fn default() -> (r: Self)
        ensures
            r@ == VNameView::empty(),
    {
        VName {
            signature: String::new(),
            corpus: String::new(),
            root: String::new(),
            path: String::new(),
            language: String::new(),
        }
    }
}

impl Default for FileInfo {
    fn default() -> (r: Self)
        ensures
            r@ == FileInfoView::empty(),
    {
        FileInfo { path: String::new(), digest: String::new() }
    }
}

impl Default for FileInput {
    fn default() -> (r: Self)
        ensures
            r@ == FileInputView::empty(),
    {
        FileInput { v_name: VName::default(), info: FileInfo::default() }
    }
}

impl Default for CompilationUnit {
    fn default() -> (r: Self)
        ensures
            r@ == CompilationUnitView::empty(),
    {
        let r = CompilationUnit {
            v_name: VName::default(),
            required_input: Vec::new(),
            argument: Vec::new(),
            source_file: Vec::new(),
            output_key: String::new(),
            working_directory: String::new(),
            entry_context: String::new(),
        };
        proof {
            assert(r@ =~= CompilationUnitView::empty());
        }
        r
    }
}

impl Default for IndexedCompilation {
    fn default() -> (r: Self)
        ensures
            r@ == CompilationUnitView::empty(),
    {
        IndexedCompilation { unit: CompilationUnit::default() }
    }
}

impl Clone for VName {
    fn clone(&self) -> (r: Self)
        ensures
            r@ == self@,
    {
        VName {
            signature: self.signature.clone(),
            corpus: self.corpus.clone(),
            root: self.root.clone(),
            path: self.path.clone(),
            language: self.language.clone(),
        }
    }
}

impl Clone for FileInfo {
    fn clone(&self) -> (r: Self)
        ensures
            r@ == self@,
    {
        FileInfo { path: self.path.clone(), digest: self.digest.clone() }
    }
}

impl Clone for FileInput {
    fn clone(&self) -> (r: Self)
        ensures
            r@ == self@,
    {
        FileInput { v_name: self.v_name.clone(), info: self.info.clone() }
    }
}

/// A copy of a list of strings.
pub(crate) fn clone_strings(v: &Vec<String>) -> (r: Vec<String>)
    ensures
        texts(r@) == texts(v@),
        r@ == v@,
{
    let mut r: Vec<String> = Vec::new();
    let mut i: usize = 0;
    while i < v.len()
        invariant
            i <= v@.len(),
            r@ == v@.take(i as int),
        decreases v@.len() - i,
    {
        r.push(v[i].clone());
        proof {
            assert(v@.take(i + 1) =~= v@.take(i as int).push(v@[i as int]));
        }
        i += 1;
    }
    proof {
        assert(v@.take(v@.len() as int) =~= v@);
    }
    r
}

fn clone_inputs(v: &Vec<FileInput>) -> (r: Vec<FileInput>)
    ensures
        input_views(r@) == input_views(v@),
{
    let mut r: Vec<FileInput> = Vec::new();
    let mut i: usize = 0;
    while i < v.len()
        invariant
            i <= v@.len(),
            input_views(r@) == input_views(v@).take(i as int),
        decreases v@.len() - i,
    {
        let c = v[i].clone();
        proof {
            assert(input_views(r@.push(c)) =~= input_views(r@).push(c@));
            assert(input_views(v@).take(i + 1) =~= input_views(v@).take(i as int).push(
                input_views(v@)[i as int],
            ));
        }
        r.push(c);
        i += 1;
    }
    proof {
        assert(input_views(v@).take(v@.len() as int) =~= input_views(v@));
    }
    r
}

impl Clone for CompilationUnit {
    fn clone(&self) -> (r: Self)
        ensures
            r@ == self@,
    {
        CompilationUnit {
            v_name: self.v_name.clone(),
            required_input: clone_inputs(&self.required_input),
            argument: clone_strings(&self.argument),
            source_file: clone_strings(&self.source_file),
            output_key: self.output_key.clone(),
            working_directory: self.working_directory.clone(),
            entry_context: self.entry_context.clone(),
        }
    }
}

impl Clone for IndexedCompilation {
    fn clone(&self) -> (r: Self)
        ensures
            r@ == self@,
    {
        IndexedCompilation { unit: self.unit.clone() }
    }
}

// ----------------------------------------------------------- proto format

/// A text field, left out where the text is empty.
pub open spec fn text_field(field: u32, s: Seq<char>) -> Seq<(u32, Seq<u8>)> {
    if s.len() == 0 {
        seq![]
    } else {
        seq![(field, encode_utf8(s))]
    }
}

/// A nested message, left out where it has no fields.
pub open spec fn nested_field(field: u32, message: Seq<u8>) -> Seq<(u32, Seq<u8>)> {
    if message.len() == 0 {
        seq![]
    } else {
        seq![(field, message)]
    }
}

/// A repeated text field: every text, empty ones too.
pub open spec fn text_fields(field: u32, list: Seq<Seq<char>>) -> Seq<(u32, Seq<u8>)> {
    list.map_values(|s: Seq<char>| (field, encode_utf8(s)))
}

/// The fields of a `VName` message.
pub open spec fn vname_fields(v: VNameView) -> Seq<(u32, Seq<u8>)> {
    text_field(1, v.signature) + text_field(2, v.corpus) + text_field(3, v.root) + text_field(
        4,
        v.path,
    ) + text_field(5, v.language)
}

/// The fields of a `FileInfo` message.
pub open spec fn file_info_fields(v: FileInfoView) -> Seq<(u32, Seq<u8>)> {
    text_field(1, v.path) + text_field(2, v.digest)
}

/// The fields of a `FileInput` message.
pub open spec fn file_input_fields(v: FileInputView) -> Seq<(u32, Seq<u8>)> {
    nested_field(1, message_bytes(vname_fields(v.v_name))) + nested_field(
        2,
        message_bytes(file_info_fields(v.info)),
    )
}

/// The `required_input` fields of a unit.
pub open spec fn input_fields(list: Seq<FileInputView>) -> Seq<(u32, Seq<u8>)> {
    list.map_values(|f: FileInputView| (3u32, message_bytes(file_input_fields(f))))
}

/// The fields of a `CompilationUnit` message.
pub open spec fn unit_fields(c: CompilationUnitView) -> Seq<(u32, Seq<u8>)> {
    nested_field(1, message_bytes(vname_fields(c.v_name))) + input_fields(c.required_input)
        + text_fields(5, c.argument) + text_fields(6, c.source_file) + text_field(7, c.output_key)
        + text_field(8, c.working_directory) + text_field(9, c.entry_context)
}

/// A unit on the wire, as the archive stores it.
pub open spec fn indexed_bytes(c: CompilationUnitView) -> Seq<u8> {
    field_bytes(1, message_bytes(unit_fields(c)))
}

/// The field of a `CompilationUnit` that says whether there were compile errors:
/// a bool, which is passed over.
pub const HAS_COMPILE_ERRORS: u32 = 4;

/// Takes one field into a `VName`: the last one of a number counts.
pub open spec fn vname_step() -> spec_fn(VNameView, u32, Seq<u8>) -> Result<VNameView, WireError> {
    |acc: VNameView, field: u32, data: Seq<u8>|
        Ok(
            if field == 1 {
                VNameView { signature: lossy_chars(data), ..acc }
            } else if field == 2 {
                VNameView { corpus: lossy_chars(data), ..acc }
            } else if field == 3 {
                VNameView { root: lossy_chars(data), ..acc }
            } else if field == 4 {
                VNameView { path: lossy_chars(data), ..acc }
            } else if field == 5 {
                VNameView { language: lossy_chars(data), ..acc }
            } else {
                acc
            },
        )
}

/// Takes one field into a `FileInfo`.
pub open spec fn file_info_step() -> spec_fn(FileInfoView, u32, Seq<u8>) -> Result<
    FileInfoView,
    WireError,
> {
    |acc: FileInfoView, field: u32, data: Seq<u8>|
        Ok(
            if field == 1 {
                FileInfoView { path: lossy_chars(data), ..acc }
            } else if field == 2 {
                FileInfoView { digest: lossy_chars(data), ..acc }
            } else {
                acc
            },
        )
}

/// The `VName` that a message says.
pub open spec fn vname_of(buf: Seq<u8>) -> Result<VNameView, WireError> {
    fold_fields(buf, 0, None, VNameView::empty(), vname_step())
}

/// The `FileInfo` that a message says.
pub open spec fn file_info_of(buf: Seq<u8>) -> Result<FileInfoView, WireError> {
    fold_fields(buf, 0, None, FileInfoView::empty(), file_info_step())
}

/// Takes one field into a `FileInput`.
pub open spec fn file_input_step() -> spec_fn(FileInputView, u32, Seq<u8>) -> Result<
    FileInputView,
    WireError,
> {
    |acc: FileInputView, field: u32, data: Seq<u8>|
        if field == 1 {
            match vname_of(data) {
                Err(e) => Err(e),
                Ok(v_name) => Ok(FileInputView { v_name, ..acc }),
            }
        } else if field == 2 {
            match file_info_of(data) {
                Err(e) => Err(e),
                Ok(info) => Ok(FileInputView { info, ..acc }),
            }
        } else {
            Ok(acc)
        }
}

/// The `FileInput` that a message says.
pub open spec fn file_input_of(buf: Seq<u8>) -> Result<FileInputView, WireError> {
    fold_fields(buf, 0, None, FileInputView::empty(), file_input_step())
}

/// Takes one field into a `CompilationUnit`. Repeated fields are collected in
/// order; of the others the last one counts.
pub open spec fn unit_step() -> spec_fn(CompilationUnitView, u32, Seq<u8>) -> Result<
    CompilationUnitView,
    WireError,
> {
    |acc: CompilationUnitView, field: u32, data: Seq<u8>|
        if field == 1 {
            match vname_of(data) {
                Err(e) => Err(e),
                Ok(v_name) => Ok(CompilationUnitView { v_name, ..acc }),
            }
        } else if field == 3 {
            match file_input_of(data) {
                Err(e) => Err(e),
                Ok(input) => Ok(
                    CompilationUnitView { required_input: acc.required_input.push(input), ..acc },
                ),
            }
        } else if field == 5 {
            Ok(CompilationUnitView { argument: acc.argument.push(lossy_chars(data)), ..acc })
        } else if field == 6 {
            Ok(CompilationUnitView { source_file: acc.source_file.push(lossy_chars(data)), ..acc })
        } else if field == 7 {
            Ok(CompilationUnitView { output_key: lossy_chars(data), ..acc })
        } else if field == 8 {
            Ok(CompilationUnitView { working_directory: lossy_chars(data), ..acc })
        } else if field == 9 {
            Ok(CompilationUnitView { entry_context: lossy_chars(data), ..acc })
        } else {
            Ok(acc)
        }
}

/// The `CompilationUnit` that a message says.
pub open spec fn unit_of(buf: Seq<u8>) -> Result<CompilationUnitView, WireError> {
    fold_fields(buf, 0, Some(HAS_COMPILE_ERRORS), CompilationUnitView::empty(), unit_step())
}

/// Takes one field into an `IndexedCompilation`: only the unit is kept.
pub open spec fn indexed_step() -> spec_fn(CompilationUnitView, u32, Seq<u8>) -> Result<
    CompilationUnitView,
    WireError,
> {
    |acc: CompilationUnitView, field: u32, data: Seq<u8>|
        if field == 1 {
            unit_of(data)
        } else {
            Ok(acc)
        }
}

/// The unit that an `IndexedCompilation` message holds.
pub open spec fn indexed_of(buf: Seq<u8>) -> Result<CompilationUnitView, WireError> {
    fold_fields(buf, 0, None, CompilationUnitView::empty(), indexed_step())
}

/// Decodes a `VName` message.
pub fn parse_vname(buf: &[u8]) -> (r: Result<VName, WireError>)
    ensures
        r matches Ok(v) ==> vname_of(buf@) == Ok::<VNameView, WireError>(v@),
        r matches Err(e) ==> vname_of(buf@) == Err::<VNameView, WireError>(e),
{
    let mut out = VName::default();
    let mut pos: usize = 0;
    while pos < buf.len()
        invariant
            pos <= buf@.len(),
            fold_fields(buf@, pos as nat, None, out@, vname_step()) == vname_of(buf@),
        decreases buf@.len() - pos,
    {
        let (field, _, start, end) = match read_field(buf, pos, None) {
            Ok(f) => f,
            Err(e) => return Err(e),
        };
        let data: &[u8] = vstd::slice::slice_subrange(buf, start, end);
        if field == 1 {
            out.signature = lossy_string(data);
        } else if field == 2 {
            out.corpus = lossy_string(data);
        } else if field == 3 {
            out.root = lossy_string(data);
        } else if field == 4 {
            out.path = lossy_string(data);
        } else if field == 5 {
            out.language = lossy_string(data);
        }
        pos = end;
    }
    Ok(out)
}

/// Decodes a `FileInfo` message.
pub fn parse_file_info(buf: &[u8]) -> (r: Result<FileInfo, WireError>)
    ensures
        r matches Ok(v) ==> file_info_of(buf@) == Ok::<FileInfoView, WireError>(v@),
        r matches Err(e) ==> file_info_of(buf@) == Err::<FileInfoView, WireError>(e),
{
    let mut out = FileInfo::default();
    let mut pos: usize = 0;
    while pos < buf.len()
        invariant
            pos <= buf@.len(),
            fold_fields(buf@, pos as nat, None, out@, file_info_step()) == file_info_of(buf@),
        decreases buf@.len() - pos,
    {
        let (field, _, start, end) = match read_field(buf, pos, None) {
            Ok(f) => f,
            Err(e) => return Err(e),
        };
        let data: &[u8] = vstd::slice::slice_subrange(buf, start, end);
        if field == 1 {
            out.path = lossy_string(data);
        } else if field == 2 {
            out.digest = lossy_string(data);
        }
        pos = end;
    }
    Ok(out)
}

/// Decodes a `FileInput` message.
pub fn parse_file_input(buf: &[u8]) -> (r: Result<FileInput, WireError>)
    ensures
        r matches Ok(v) ==> file_input_of(buf@) == Ok::<FileInputView, WireError>(v@),
        r matches Err(e) ==> file_input_of(buf@) == Err::<FileInputView, WireError>(e),
{
    let mut out = FileInput::default();
    let mut pos: usize = 0;
    while pos < buf.len()
        invariant
            pos <= buf@.len(),
            fold_fields(buf@, pos as nat, None, out@, file_input_step()) == file_input_of(buf@),
        decreases buf@.len() - pos,
    {
        let (field, _, start, end) = match read_field(buf, pos, None) {
            Ok(f) => f,
            Err(e) => return Err(e),
        };
        let data: &[u8] = vstd::slice::slice_subrange(buf, start, end);
        if field == 1 {
            out.v_name = match parse_vname(data) {
                Ok(v) => v,
                Err(e) => return Err(e),
            };
        } else if field == 2 {
            out.info = match parse_file_info(data) {
                Ok(v) => v,
                Err(e) => return Err(e),
            };
        }
        pos = end;
    }
    Ok(out)
}

/// Decodes a `CompilationUnit` message.
pub fn parse_compilation_unit(buf: &[u8]) -> (r: Result<CompilationUnit, WireError>)
    ensures
        r matches Ok(v) ==> unit_of(buf@) == Ok::<CompilationUnitView, WireError>(v@),
        r matches Err(e) ==> unit_of(buf@) == Err::<CompilationUnitView, WireError>(e),
{
    let mut out = CompilationUnit::default();
    let mut pos: usize = 0;
    while pos < buf.len()
        invariant
            pos <= buf@.len(),
            fold_fields(buf@, pos as nat, Some(HAS_COMPILE_ERRORS), out@, unit_step()) == unit_of(
                buf@,
            ),
        decreases buf@.len() - pos,
    {
        let (field, wire, start, end) = match read_field(buf, pos, Some(HAS_COMPILE_ERRORS)) {
            Ok(f) => f,
            Err(e) => return Err(e),
        };
        if wire != 2 {
            pos = end;
            continue;
        }
        let data: &[u8] = vstd::slice::slice_subrange(buf, start, end);
        if field == 1 {
            out.v_name = match parse_vname(data) {
                Ok(v) => v,
                Err(e) => return Err(e),
            };
        } else if field == 3 {
            let input = match parse_file_input(data) {
                Ok(v) => v,
                Err(e) => return Err(e),
            };
            proof {
                assert(input_views(out.required_input@.push(input)) =~= input_views(
                    out.required_input@,
                ).push(input@));
            }
            out.required_input.push(input);
        } else if field == 5 {
            let s = lossy_string(data);
            proof {
                assert(texts(out.argument@.push(s)) =~= texts(out.argument@).push(s@));
            }
            out.argument.push(s);
        } else if field == 6 {
            let s = lossy_string(data);
            proof {
                assert(texts(out.source_file@.push(s)) =~= texts(out.source_file@).push(s@));
            }
            out.source_file.push(s);
        } else if field == 7 {
            out.output_key = lossy_string(data);
        } else if field == 8 {
            out.working_directory = lossy_string(data);
        } else if field == 9 {
            out.entry_context = lossy_string(data);
        }
        pos = end;
    }
    Ok(out)
}

/// Decodes an `IndexedCompilation` message.
pub fn parse_indexed_compilation(buf: &[u8]) -> (r: Result<IndexedCompilation, WireError>)
    ensures
        r matches Ok(v) ==> indexed_of(buf@) == Ok::<CompilationUnitView, WireError>(v@),
        r matches Err(e) ==> indexed_of(buf@) == Err::<CompilationUnitView, WireError>(e),
{
    let mut out = IndexedCompilation::default();
    let mut pos: usize = 0;
    while pos < buf.len()
        invariant
            pos <= buf@.len(),
            fold_fields(buf@, pos as nat, None, out@, indexed_step()) == indexed_of(buf@),
        decreases buf@.len() - pos,
    {
        let (field, _, start, end) = match read_field(buf, pos, None) {
            Ok(f) => f,
            Err(e) => return Err(e),
        };
        let data: &[u8] = vstd::slice::slice_subrange(buf, start, end);
        if field == 1 {
            out.unit = match parse_compilation_unit(data) {
                Ok(v) => v,
                Err(e) => return Err(e),
            };
        }
        pos = end;
    }
    Ok(out)
}

/// Appends a text field, unless the text is empty.
fn write_text(field: u32, s: &String, out: &mut Vec<u8>)
    ensures
        final(out)@ == old(out)@ + message_bytes(text_field(field, s@)),
{
    if !s.as_str().is_empty() {
        write_tag_len(field, s.as_str().as_bytes(), out);
        proof {
            lemma_message_one(field, encode_utf8(s@));
        }
    } else {
        proof {
            assert(out@ + message_bytes(seq![]) =~= out@);
        }
    }
}

/// Appends a nested message, unless it has no fields.
fn write_nested(field: u32, message: &Vec<u8>, out: &mut Vec<u8>)
    ensures
        final(out)@ == old(out)@ + message_bytes(nested_field(field, message@)),
{
    if !message.is_empty() {
        write_tag_len(field, message.as_slice(), out);
        proof {
            lemma_message_one(field, message@);
        }
    } else {
        proof {
            assert(out@ + message_bytes(seq![]) =~= out@);
        }
    }
}

/// Appends every text of a repeated field.
fn write_texts(field: u32, list: &Vec<String>, out: &mut Vec<u8>)
    ensures
        final(out)@ == old(out)@ + message_bytes(text_fields(field, texts(list@))),
{
    let ghost all = text_fields(field, texts(list@));
    let mut i: usize = 0;
    proof {
        assert(out@ + message_bytes(all.take(0)) =~= out@);
    }
    while i < list.len()
        invariant
            i <= list@.len(),
            all == text_fields(field, texts(list@)),
            out@ == old(out)@ + message_bytes(all.take(i as int)),
        decreases list@.len() - i,
    {
        write_tag_len(field, list[i].as_str().as_bytes(), out);
        proof {
            assert(all.take(i + 1).drop_last() =~= all.take(i as int));
            assert(all.take(i + 1).last() == (field, encode_utf8(list@[i as int]@)));
            assert(old(out)@ + message_bytes(all.take(i + 1)) =~= out@);
        }
        i += 1;
    }
    proof {
        assert(all.take(list@.len() as int) =~= all);
    }
}

/// Encodes a `VName` message behind `out`.
pub fn encode_vname(v: &VName, out: &mut Vec<u8>)
    ensures
        final(out)@ == old(out)@ + message_bytes(vname_fields(v@)),
{
    write_text(1, &v.signature, out);
    write_text(2, &v.corpus, out);
    write_text(3, &v.root, out);
    write_text(4, &v.path, out);
    write_text(5, &v.language, out);
    proof {
        let a = text_field(1, v.signature@);
        let b = text_field(2, v.corpus@);
        let c = text_field(3, v.root@);
        let d = text_field(4, v.path@);
        let e = text_field(5, v.language@);
        lemma_append_fields(old(out)@, a, b);
        lemma_append_fields(old(out)@, a + b, c);
        lemma_append_fields(old(out)@, a + b + c, d);
        lemma_append_fields(old(out)@, a + b + c + d, e);
    }
}

/// Encodes a `FileInfo` message behind `out`.
pub fn encode_file_info(fi: &FileInfo, out: &mut Vec<u8>)
    ensures
        final(out)@ == old(out)@ + message_bytes(file_info_fields(fi@)),
{
    write_text(1, &fi.path, out);
    write_text(2, &fi.digest, out);
    proof {
        let a = text_field(1, fi.path@);
        let b = text_field(2, fi.digest@);
        lemma_append_fields(old(out)@, a, b);
    }
}

/// Encodes a `FileInput` message behind `out`.
pub fn encode_file_input(fi: &FileInput, out: &mut Vec<u8>)
    ensures
        final(out)@ == old(out)@ + message_bytes(file_input_fields(fi@)),
{
    let mut name: Vec<u8> = Vec::new();
    encode_vname(&fi.v_name, &mut name);
    let mut info: Vec<u8> = Vec::new();
    encode_file_info(&fi.info, &mut info);
    proof {
        assert(name@ =~= message_bytes(vname_fields(fi@.v_name)));
        assert(info@ =~= message_bytes(file_info_fields(fi@.info)));
    }
    write_nested(1, &name, out);
    write_nested(2, &info, out);
    proof {
        let a = nested_field(1, name@);
        let b = nested_field(2, info@);
        lemma_append_fields(old(out)@, a, b);
    }
}

/// Appends the `required_input` fields of a unit.
fn write_inputs(list: &Vec<FileInput>, out: &mut Vec<u8>)
    ensures
        final(out)@ == old(out)@ + message_bytes(input_fields(input_views(list@))),
{
    let ghost all = input_fields(input_views(list@));
    let mut i: usize = 0;
    proof {
        assert(out@ + message_bytes(all.take(0)) =~= out@);
    }
    while i < list.len()
        invariant
            i <= list@.len(),
            all == input_fields(input_views(list@)),
            out@ == old(out)@ + message_bytes(all.take(i as int)),
        decreases list@.len() - i,
    {
        let mut one: Vec<u8> = Vec::new();
        encode_file_input(&list[i], &mut one);
        proof {
            assert(one@ =~= message_bytes(file_input_fields(list@[i as int]@)));
        }
        write_tag_len(3, one.as_slice(), out);
        proof {
            assert(all.take(i + 1).drop_last() =~= all.take(i as int));
            assert(all.take(i + 1).last() == (3u32, one@));
            assert(old(out)@ + message_bytes(all.take(i + 1)) =~= out@);
        }
        i += 1;
    }
    proof {
        assert(all.take(list@.len() as int) =~= all);
    }
}

/// A run of fields written behind another one goes on with its message.
proof fn lemma_append_fields(
    before: Seq<u8>,
    a: Seq<(u32, Seq<u8>)>,
    b: Seq<(u32, Seq<u8>)>,
)
    ensures
        before + message_bytes(a) + message_bytes(b) == before + message_bytes(a + b),
{
    lemma_message_concat(a, b);
    assert(before + message_bytes(a) + message_bytes(b) =~= before + (message_bytes(a)
        + message_bytes(b)));
}

/// Encodes a `CompilationUnit` message behind `out`.
pub fn encode_compilation_unit(c: &CompilationUnit, out: &mut Vec<u8>)
    ensures
        final(out)@ == old(out)@ + message_bytes(unit_fields(c@)),
{
    let mut name: Vec<u8> = Vec::new();
    encode_vname(&c.v_name, &mut name);
    proof {
        assert(name@ =~= message_bytes(vname_fields(c@.v_name)));
    }
    write_nested(1, &name, out);
    write_inputs(&c.required_input, out);
    write_texts(5, &c.argument, out);
    write_texts(6, &c.source_file, out);
    write_text(7, &c.output_key, out);
    write_text(8, &c.working_directory, out);
    write_text(9, &c.entry_context, out);
    proof {
        let b = old(out)@;
        let p1 = nested_field(1, name@);
        let p2 = input_fields(c@.required_input);
        let p3 = text_fields(5, c@.argument);
        let p4 = text_fields(6, c@.source_file);
        let p5 = text_field(7, c@.output_key);
        let p6 = text_field(8, c@.working_directory);
        let p7 = text_field(9, c@.entry_context);
        lemma_append_fields(b, p1, p2);
        lemma_append_fields(b, p1 + p2, p3);
        lemma_append_fields(b, p1 + p2 + p3, p4);
        lemma_append_fields(b, p1 + p2 + p3 + p4, p5);
        lemma_append_fields(b, p1 + p2 + p3 + p4 + p5, p6);
        lemma_append_fields(b, p1 + p2 + p3 + p4 + p5 + p6, p7);
    }
}

/// Encodes a unit as an `IndexedCompilation` message.
pub fn encode_indexed_compilation(c: &IndexedCompilation) -> (r: Vec<u8>)
    ensures
        r@ == indexed_bytes(c@),
{
    let mut unit: Vec<u8> = Vec::new();
    encode_compilation_unit(&c.unit, &mut unit);
    proof {
        assert(unit@ =~= message_bytes(unit_fields(c@)));
    }
    let mut out: Vec<u8> = Vec::new();
    write_tag_len(1, unit.as_slice(), &mut out);
    proof {
        assert(out@ =~= indexed_bytes(c@));
    }
    out
}

// ------------------------------------------------------------- round trips

/// Text reads back from its UTF-8 bytes.
pub proof fn lemma_lossy_round_trip(s: Seq<char>)
    ensures
        lossy_chars(encode_utf8(s)) == s,
        encode_utf8(s).len() == 0 <==> s.len() == 0,
{
    vstd::utf8::encode_utf8_valid_utf8(s);
    vstd::utf8::encode_utf8_decode_utf8(s);
    if s.len() > 0 {
        vstd::utf8::encode_utf8_first_scalar(s);
    }
}

proof fn lemma_fold_one<A>(
    field: u32,
    data: Seq<u8>,
    acc: A,
    step: spec_fn(A, u32, Seq<u8>) -> Result<A, WireError>,
)
    ensures
        fold_list(seq![(field, data)], acc, step) == step(acc, field, data),
{
    let one = seq![(field, data)];
    assert(one.drop_first() =~= seq![]);
    assert(one[0] == (field, data));
    if let Ok(next) = step(acc, field, data) {
        assert(fold_list(one.drop_first(), next, step) == Ok::<A, WireError>(next));
    }
}

proof fn lemma_fold_text<A>(
    field: u32,
    s: Seq<char>,
    acc: A,
    step: spec_fn(A, u32, Seq<u8>) -> Result<A, WireError>,
)
    ensures
        fold_list(text_field(field, s), acc, step) == (if s.len() == 0 {
            Ok(acc)
        } else {
            step(acc, field, encode_utf8(s))
        }),
{
    lemma_fold_one(field, encode_utf8(s), acc, step);
}

proof fn lemma_fold_nested<A>(
    field: u32,
    message: Seq<u8>,
    acc: A,
    step: spec_fn(A, u32, Seq<u8>) -> Result<A, WireError>,
)
    ensures
        fold_list(nested_field(field, message), acc, step) == (if message.len() == 0 {
            Ok(acc)
        } else {
            step(acc, field, message)
        }),
{
    lemma_fold_one(field, message, acc, step);
}

proof fn lemma_message_whole<A>(
    flag: Option<u32>,
    fields: Seq<(u32, Seq<u8>)>,
    acc: A,
    step: spec_fn(A, u32, Seq<u8>) -> Result<A, WireError>,
)
    requires
        message_bytes(fields).len() <= usize::MAX,
        forall|i: int| 0 <= i < fields.len() ==> (#[trigger] fields[i]).0 < 0x2000_0000,
    ensures
        fold_fields(message_bytes(fields), 0, flag, acc, step) == fold_list(fields, acc, step),
{
    let buf = message_bytes(fields);
    assert(buf.subrange(0, buf.len() as int) =~= buf);
    lemma_message_round_trip(buf, 0, flag, fields, acc, step);
}

/// A name reads back from its encoding as it was.
pub proof fn lemma_vname_round_trip(v: VNameView)
    requires
        message_bytes(vname_fields(v)).len() <= usize::MAX,
    ensures
        vname_of(message_bytes(vname_fields(v))) == Ok::<VNameView, WireError>(v),
{
    let step = vname_step();
    let a = text_field(1, v.signature);
    let b = text_field(2, v.corpus);
    let c = text_field(3, v.root);
    let d = text_field(4, v.path);
    let e = text_field(5, v.language);
    lemma_lossy_round_trip(v.signature);
    lemma_lossy_round_trip(v.corpus);
    lemma_lossy_round_trip(v.root);
    lemma_lossy_round_trip(v.path);
    lemma_lossy_round_trip(v.language);
    let v0 = VNameView::empty();
    let v1 = VNameView { signature: v.signature, ..v0 };
    let v2 = VNameView { corpus: v.corpus, ..v1 };
    let v3 = VNameView { root: v.root, ..v2 };
    let v4 = VNameView { path: v.path, ..v3 };
    let v5 = VNameView { language: v.language, ..v4 };
    assert(v5 =~= v);
    lemma_fold_text(1, v.signature, v0, step);
    lemma_fold_text(2, v.corpus, v1, step);
    lemma_fold_text(3, v.root, v2, step);
    lemma_fold_text(4, v.path, v3, step);
    lemma_fold_text(5, v.language, v4, step);
    assert(v.signature.len() == 0 ==> v0 =~= v1);
    assert(v.corpus.len() == 0 ==> v1 =~= v2);
    assert(v.root.len() == 0 ==> v2 =~= v3);
    assert(v.path.len() == 0 ==> v3 =~= v4);
    assert(v.language.len() == 0 ==> v4 =~= v5);
    lemma_fold_list_concat(a, b, v0, step);
    lemma_fold_list_concat(a + b, c, v0, step);
    lemma_fold_list_concat(a + b + c, d, v0, step);
    lemma_fold_list_concat(a + b + c + d, e, v0, step);
    lemma_message_whole(None, vname_fields(v), v0, step);
}

/// File information reads back from its encoding as it was.
pub proof fn lemma_file_info_round_trip(v: FileInfoView)
    requires
        message_bytes(file_info_fields(v)).len() <= usize::MAX,
    ensures
        file_info_of(message_bytes(file_info_fields(v))) == Ok::<FileInfoView, WireError>(v),
{
    let step = file_info_step();
    let a = text_field(1, v.path);
    let b = text_field(2, v.digest);
    lemma_lossy_round_trip(v.path);
    lemma_lossy_round_trip(v.digest);
    let v0 = FileInfoView::empty();
    let v1 = FileInfoView { path: v.path, ..v0 };
    let v2 = FileInfoView { digest: v.digest, ..v1 };
    assert(v2 =~= v);
    lemma_fold_text(1, v.path, v0, step);
    lemma_fold_text(2, v.digest, v1, step);
    assert(v.path.len() == 0 ==> v0 =~= v1);
    assert(v.digest.len() == 0 ==> v1 =~= v2);
    lemma_fold_list_concat(a, b, v0, step);
    lemma_message_whole(None, file_info_fields(v), v0, step);
}

/// A payload is no longer than the message that holds it.
pub proof fn lemma_field_len(fields: Seq<(u32, Seq<u8>)>, i: int)
    requires
        0 <= i < fields.len(),
    ensures
        fields[i].1.len() <= message_bytes(fields).len(),
    decreases fields.len(),
{
    if i < fields.len() - 1 {
        assert(fields.drop_last()[i] == fields[i]);
        lemma_field_len(fields.drop_last(), i);
    }
}

/// A message without fields says nothing.
proof fn lemma_empty_messages()
    ensures
        vname_of(seq![]) == Ok::<VNameView, WireError>(VNameView::empty()),
        file_info_of(seq![]) == Ok::<FileInfoView, WireError>(FileInfoView::empty()),
{
}

/// A file input reads back from its encoding as it was.
pub proof fn lemma_file_input_round_trip(v: FileInputView)
    requires
        message_bytes(file_input_fields(v)).len() <= usize::MAX,
    ensures
        file_input_of(message_bytes(file_input_fields(v))) == Ok::<FileInputView, WireError>(v),
{
    let step = file_input_step();
    let name = message_bytes(vname_fields(v.v_name));
    let info = message_bytes(file_info_fields(v.info));
    let a = nested_field(1, name);
    let b = nested_field(2, info);
    let fields = file_input_fields(v);
    assert(name.len() <= usize::MAX && info.len() <= usize::MAX) by {
        if name.len() > 0 {
            assert(fields[0].1 == name);
            lemma_field_len(fields, 0);
        }
        if info.len() > 0 {
            assert(fields[a.len() as int].1 == info);
            lemma_field_len(fields, a.len() as int);
        }
    }
    lemma_vname_round_trip(v.v_name);
    lemma_file_info_round_trip(v.info);
    lemma_empty_messages();
    let v0 = FileInputView::empty();
    let v1 = FileInputView { v_name: v.v_name, ..v0 };
    let v2 = FileInputView { info: v.info, ..v1 };
    assert(v2 =~= v);
    lemma_fold_nested(1, name, v0, step);
    lemma_fold_nested(2, info, v1, step);
    assert(name.len() == 0 ==> name =~= seq![] && v0 =~= v1);
    assert(info.len() == 0 ==> info =~= seq![] && v1 =~= v2);
    lemma_fold_list_concat(a, b, v0, step);
    lemma_message_whole(None, fields, v0, step);
}

proof fn lemma_fold_inputs(list: Seq<FileInputView>, acc: CompilationUnitView)
    requires
        forall|i: int|
            0 <= i < list.len() ==> message_bytes(file_input_fields(#[trigger] list[i])).len()
                <= usize::MAX,
    ensures
        fold_list(input_fields(list), acc, unit_step()) == Ok::<CompilationUnitView, WireError>(
            CompilationUnitView { required_input: acc.required_input + list, ..acc },
        ),
    decreases list.len(),
{
    let fields = input_fields(list);
    if list.len() == 0 {
        assert(acc.required_input + list =~= acc.required_input);
    } else {
        lemma_file_input_round_trip(list[0]);
        assert(fields.drop_first() =~= input_fields(list.drop_first()));
        let next = CompilationUnitView {
            required_input: acc.required_input.push(list[0]),
            ..acc
        };
        assert(fields[0] == (3u32, message_bytes(file_input_fields(list[0]))));
        assert(unit_step()(acc, fields[0].0, fields[0].1) == Ok::<CompilationUnitView, WireError>(
            next,
        ));
        assert forall|i: int| 0 <= i < list.drop_first().len() implies message_bytes(
            file_input_fields(#[trigger] list.drop_first()[i]),
        ).len() <= usize::MAX by {
            assert(list.drop_first()[i] == list[i + 1]);
        }
        lemma_fold_inputs(list.drop_first(), next);
        assert(next.required_input + list.drop_first() =~= acc.required_input + list);
    }
}

proof fn lemma_fold_arguments(list: Seq<Seq<char>>, acc: CompilationUnitView)
    ensures
        fold_list(text_fields(5, list), acc, unit_step()) == Ok::<CompilationUnitView, WireError>(
            CompilationUnitView { argument: acc.argument + list, ..acc },
        ),
    decreases list.len(),
{
    let fields = text_fields(5, list);
    if list.len() == 0 {
        assert(acc.argument + list =~= acc.argument);
    } else {
        lemma_lossy_round_trip(list[0]);
        assert(fields.drop_first() =~= text_fields(5, list.drop_first()));
        let next = CompilationUnitView { argument: acc.argument.push(list[0]), ..acc };
        assert(fields[0] == (5u32, encode_utf8(list[0])));
        lemma_fold_arguments(list.drop_first(), next);
        assert(next.argument + list.drop_first() =~= acc.argument + list);
    }
}

proof fn lemma_fold_sources(list: Seq<Seq<char>>, acc: CompilationUnitView)
    ensures
        fold_list(text_fields(6, list), acc, unit_step()) == Ok::<CompilationUnitView, WireError>(
            CompilationUnitView { source_file: acc.source_file + list, ..acc },
        ),
    decreases list.len(),
{
    let fields = text_fields(6, list);
    if list.len() == 0 {
        assert(acc.source_file + list =~= acc.source_file);
    } else {
        lemma_lossy_round_trip(list[0]);
        assert(fields.drop_first() =~= text_fields(6, list.drop_first()));
        let next = CompilationUnitView { source_file: acc.source_file.push(list[0]), ..acc };
        assert(fields[0] == (6u32, encode_utf8(list[0])));
        lemma_fold_sources(list.drop_first(), next);
        assert(next.source_file + list.drop_first() =~= acc.source_file + list);
    }
}

/// The field numbers of a unit are all small.
proof fn lemma_unit_field_numbers(c: CompilationUnitView)
    ensures
        forall|i: int| 0 <= i < unit_fields(c).len() ==> (#[trigger] unit_fields(c)[i]).0 <= 9,
{
}

/// Taking in the fields of a unit gives the unit.
proof fn lemma_fold_unit(c: CompilationUnitView)
    requires
        message_bytes(vname_fields(c.v_name)).len() <= usize::MAX,
        forall|i: int|
            0 <= i < c.required_input.len() ==> message_bytes(
                file_input_fields(#[trigger] c.required_input[i]),
            ).len() <= usize::MAX,
    ensures
        fold_list(unit_fields(c), CompilationUnitView::empty(), unit_step()) == Ok::<
            CompilationUnitView,
            WireError,
        >(c),
{
    let step = unit_step();
    let name = message_bytes(vname_fields(c.v_name));
    let p1 = nested_field(1, name);
    let p2 = input_fields(c.required_input);
    let p3 = text_fields(5, c.argument);
    let p4 = text_fields(6, c.source_file);
    let p5 = text_field(7, c.output_key);
    let p6 = text_field(8, c.working_directory);
    let p7 = text_field(9, c.entry_context);
    let c0 = CompilationUnitView::empty();
    let c1 = CompilationUnitView { v_name: c.v_name, ..c0 };
    let c2 = CompilationUnitView { required_input: c.required_input, ..c1 };
    let c3 = CompilationUnitView { argument: c.argument, ..c2 };
    let c4 = CompilationUnitView { source_file: c.source_file, ..c3 };
    let c5 = CompilationUnitView { output_key: c.output_key, ..c4 };
    let c6 = CompilationUnitView { working_directory: c.working_directory, ..c5 };
    let c7 = CompilationUnitView { entry_context: c.entry_context, ..c6 };
    assert(c7 =~= c);
    assert(fold_list(p1, c0, step) == Ok::<CompilationUnitView, WireError>(c1)) by {
        lemma_vname_round_trip(c.v_name);
        lemma_empty_messages();
        lemma_fold_nested(1, name, c0, step);
        assert(name.len() == 0 ==> name =~= seq![] && c0 =~= c1);
    }
    assert(fold_list(p2, c1, step) == Ok::<CompilationUnitView, WireError>(c2)) by {
        lemma_fold_inputs(c.required_input, c1);
        assert(c1.required_input + c.required_input =~= c.required_input);
    }
    assert(fold_list(p3, c2, step) == Ok::<CompilationUnitView, WireError>(c3)) by {
        lemma_fold_arguments(c.argument, c2);
        assert(c2.argument + c.argument =~= c.argument);
    }
    assert(fold_list(p4, c3, step) == Ok::<CompilationUnitView, WireError>(c4)) by {
        lemma_fold_sources(c.source_file, c3);
        assert(c3.source_file + c.source_file =~= c.source_file);
    }
    assert(fold_list(p5, c4, step) == Ok::<CompilationUnitView, WireError>(c5)) by {
        lemma_lossy_round_trip(c.output_key);
        lemma_fold_text(7, c.output_key, c4, step);
        assert(c.output_key.len() == 0 ==> c4 =~= c5);
    }
    assert(fold_list(p6, c5, step) == Ok::<CompilationUnitView, WireError>(c6)) by {
        lemma_lossy_round_trip(c.working_directory);
        lemma_fold_text(8, c.working_directory, c5, step);
        assert(c.working_directory.len() == 0 ==> c5 =~= c6);
    }
    assert(fold_list(p7, c6, step) == Ok::<CompilationUnitView, WireError>(c7)) by {
        lemma_lossy_round_trip(c.entry_context);
        lemma_fold_text(9, c.entry_context, c6, step);
        assert(c.entry_context.len() == 0 ==> c6 =~= c7);
    }
    lemma_fold_list_concat(p1, p2, c0, step);
    lemma_fold_list_concat(p1 + p2, p3, c0, step);
    lemma_fold_list_concat(p1 + p2 + p3, p4, c0, step);
    lemma_fold_list_concat(p1 + p2 + p3 + p4, p5, c0, step);
    lemma_fold_list_concat(p1 + p2 + p3 + p4 + p5, p6, c0, step);
    lemma_fold_list_concat(p1 + p2 + p3 + p4 + p5 + p6, p7, c0, step);
}

/// A unit's message reads back as the unit it was made from.
pub proof fn lemma_unit_round_trip(c: CompilationUnitView)
    requires
        message_bytes(unit_fields(c)).len() <= usize::MAX,
    ensures
        unit_of(message_bytes(unit_fields(c))) == Ok::<CompilationUnitView, WireError>(c),
{
    let fields = unit_fields(c);
    let name = message_bytes(vname_fields(c.v_name));
    let p1 = nested_field(1, name);
    assert(name.len() <= usize::MAX) by {
        if name.len() > 0 {
            assert(fields[0].1 == name);
            lemma_field_len(fields, 0);
        }
    }
    assert forall|i: int| 0 <= i < c.required_input.len() implies message_bytes(
        file_input_fields(#[trigger] c.required_input[i]),
    ).len() <= usize::MAX by {
        assert(fields[p1.len() + i] == input_fields(c.required_input)[i]);
        lemma_field_len(fields, p1.len() + i);
    }
    lemma_fold_unit(c);
    lemma_unit_field_numbers(c);
    lemma_message_whole(
        Some(HAS_COMPILE_ERRORS),
        fields,
        CompilationUnitView::empty(),
        unit_step(),
    );
}

/// Every unit reads back from its proto encoding exactly as it was: no part
/// of it is lost or changed on the way through an archive.
pub proof fn lemma_indexed_round_trip(c: CompilationUnitView)
    requires
        indexed_bytes(c).len() <= usize::MAX,
    ensures
        indexed_of(indexed_bytes(c)) == Ok::<CompilationUnitView, WireError>(c),
{
    let inner = message_bytes(unit_fields(c));
    lemma_unit_round_trip(c);
    lemma_message_one(1, inner);
    lemma_message_whole(
        None,
        seq![(1u32, inner)],
        CompilationUnitView::empty(),
        indexed_step(),
    );
    lemma_fold_one(1, inner, CompilationUnitView::empty(), indexed_step());
}

// ------------------------------------------------------------------ units

/// One unit of an archive, with the name that it is stored under. Where it was
/// read from its proto encoding, those bytes are kept.
#[derive(Debug)]
pub struct Unit {
    pub sha: String,
    pub cu: IndexedCompilation,
    pub raw_proto: Option<Vec<u8>>,
}

/// What a [`Unit`] says.
#[verifier::ext_equal]
pub struct UnitView {
    pub sha: Seq<char>,
    pub cu: CompilationUnitView,
    pub raw_proto: Option<Seq<u8>>,
}

impl View for Unit {
    type V = UnitView;

    open spec fn view(&self) -> UnitView {
        UnitView {
            sha: self.sha@,
            cu: self.cu@,
            raw_proto: match self.raw_proto {
                Some(raw) => Some(raw@),
                None => None,
            },
        }
    }
}

impl UnitView {
    /// The bytes that stand for the unit in a proto-encoded archive.
    pub open spec fn proto_bytes(self) -> Seq<u8> {
        match self.raw_proto {
            Some(raw) => raw,
            None => indexed_bytes(self.cu),
        }
    }

    /// Kept bytes, if there are any, are an encoding of the unit.
    pub open spec fn faithful(self) -> bool {
        self.raw_proto matches Some(raw) ==> indexed_of(raw) == Ok::<
            CompilationUnitView,
            WireError,
        >(self.cu)
    }
}

/// The path of a unit's primary source: its first source file; without source
/// files the path in the name of its first input; or else the path in the
/// unit's own name; and where that has none either, the path of the first
/// input's file.
pub open spec fn primary_path_of(c: CompilationUnitView) -> Option<Seq<char>> {
    let input = c.required_input[0];
    if c.source_file.len() > 0 {
        Some(c.source_file[0])
    } else if c.required_input.len() > 0 && input.v_name.path.len() > 0 {
        Some(input.v_name.path)
    } else if c.v_name.path.len() > 0 {
        Some(c.v_name.path)
    } else if c.required_input.len() > 0 && input.info.path.len() > 0 {
        Some(input.info.path)
    } else {
        None
    }
}

/// The primary path of a unit.
pub fn cu_primary_path(cu: &CompilationUnit) -> (r: Option<&str>)
    ensures
        r matches Some(p) ==> primary_path_of(cu@) == Some(p@),
        r is None ==> primary_path_of(cu@) is None,
{
    if cu.source_file.len() > 0 {
        proof {
            assert(cu@.source_file[0] == cu.source_file@[0]@);
        }
        return Some(cu.source_file[0].as_str());
    }
    if cu.required_input.len() > 0 {
        let input = &cu.required_input[0];
        proof {
            assert(cu@.required_input[0] == input@);
        }
        if !input.v_name.path.as_str().is_empty() {
            return Some(input.v_name.path.as_str());
        }
    }
    if !cu.v_name.path.as_str().is_empty() {
        return Some(cu.v_name.path.as_str());
    }
    if cu.required_input.len() > 0 {
        let input = &cu.required_input[0];
        proof {
            assert(cu@.required_input[0] == input@);
        }
        if !input.info.path.as_str().is_empty() {
            return Some(input.info.path.as_str());
        }
    }
    None
}

impl Unit {
    /// The unit as a proto-encoded `IndexedCompilation`: the bytes that it was
    /// read from, or else a fresh encoding.
    pub fn to_proto_bytes(&self) -> (r: Vec<u8>)
        ensures
            r@ == self@.proto_bytes(),
    {
        match &self.raw_proto {
            Some(raw) => {
                let mut r: Vec<u8> = Vec::new();
                r.extend_from_slice(raw.as_slice());
                proof {
                    assert(r@ =~= raw@);
                }
                r
            },
            None => encode_indexed_compilation(&self.cu),
        }
    }

    /// The path of the unit's primary source, see [`cu_primary_path`].
    pub fn primary_path(&self) -> (r: Option<&str>)
        ensures
            r matches Some(p) ==> primary_path_of(self.cu@) == Some(p@),
            r is None ==> primary_path_of(self.cu@) is None,
    {
        cu_primary_path(&self.cu.unit)
    }

    /// The unit's language in lower case, so that it can be compared.
    pub fn language(&self) -> (r: String)
        ensures
            r@ == lowercase(self.cu@.v_name.language),
    {
        lowered(self.cu.unit.v_name.language.as_str())
    }
}

/// Whatever encoding a unit was read from, the bytes that are written for it
/// decode to the unit.
pub proof fn lemma_proto_bytes_decode(u: UnitView)
    requires
        u.faithful(),
        u.proto_bytes().len() <= usize::MAX,
    ensures
        indexed_of(u.proto_bytes()) == Ok::<CompilationUnitView, WireError>(u.cu),
{
    if u.raw_proto is None {
        lemma_indexed_round_trip(u.cu);
    }
}

// ------------------------------------------------------- the wire by bytes

/// A message with one more length-delimited field behind it: the byte of the
/// tag, the length, and the payload.
pub open spec fn with_field(m: Seq<u8>, tag: u8, data: Seq<u8>) -> Seq<u8> {
    m + (seq![tag] + varint_bytes(data.len() as u64) + data)
}

/// A message with these two has room for a field.
pub open spec fn has_room(m: Seq<u8>, data: Seq<u8>) -> bool {
    m.len() + data.len() + 11 <= usize::MAX
}

proof fn lemma_with_field<A>(
    m: Seq<u8>,
    field: u32,
    data: Seq<u8>,
    flag: Option<u32>,
    acc: A,
    step: spec_fn(A, u32, Seq<u8>) -> Result<A, WireError>,
)
    requires
        field < 16,
        has_room(m, data),
        fold_fields(m, 0, flag, acc, step) is Ok,
    ensures
        fold_fields(with_field(m, (8 * field + 2) as u8, data), 0, flag, acc, step) == step(
            fold_fields(m, 0, flag, acc, step)->Ok_0,
            field,
            data,
        ),
{
    lemma_field_bytes_are(field, data);
    lemma_varint_bytes_len(data.len() as u64);
    lemma_fold_field(m, field, data, flag, acc, step);
}

/// The wire numbers of a name, as it is decoded: signature, corpus, root, path
/// and language are the fields one to five, each as text. A field behind
/// others replaces what its number said before and leaves the rest; a field of
/// another number is passed over; and anything that is not length-delimited is
/// refused. The empty message is the name without parts.
pub proof fn lemma_vname_wire(m: Seq<u8>, data: Seq<u8>, v: VNameView)
    requires
        vname_of(m) == Ok::<VNameView, WireError>(v),
        has_room(m, data),
    ensures
        ({
            let t = lossy_chars(data);
            let of = |tag: u8| vname_of(with_field(m, tag, data));
            &&& of(0x0a) == Ok::<VNameView, WireError>(VNameView { signature: t, ..v })
            &&& of(0x12) == Ok::<VNameView, WireError>(VNameView { corpus: t, ..v })
            &&& of(0x1a) == Ok::<VNameView, WireError>(VNameView { root: t, ..v })
            &&& of(0x22) == Ok::<VNameView, WireError>(VNameView { path: t, ..v })
            &&& of(0x2a) == Ok::<VNameView, WireError>(VNameView { language: t, ..v })
        }),
        forall|n: int|
            6 <= n < 16 ==> #[trigger] vname_of(with_field(m, (8 * n + 2) as u8, data)) == Ok::<
                VNameView,
                WireError,
            >(v),
        forall|tag: u8|
            tag < 128 && tag % 8 != 2 ==> #[trigger] vname_of(m + seq![tag] + data) is Err,
        vname_of(seq![]) matches Ok(e) && e.signature.len() == 0 && e.corpus.len() == 0
            && e.root.len() == 0 && e.path.len() == 0 && e.language.len() == 0,
{
    let e = VNameView::empty();
    let step = vname_step();
    lemma_with_field(m, 1, data, None, e, step);
    lemma_with_field(m, 2, data, None, e, step);
    lemma_with_field(m, 3, data, None, e, step);
    lemma_with_field(m, 4, data, None, e, step);
    lemma_with_field(m, 5, data, None, e, step);
    assert forall|n: int| 6 <= n < 16 implies #[trigger] vname_of(
        with_field(m, (8 * n + 2) as u8, data),
    ) == Ok::<VNameView, WireError>(v) by {
        lemma_with_field(m, n as u32, data, None, e, step);
    }
    assert forall|tag: u8| tag < 128 && tag % 8 != 2 implies #[trigger] vname_of(
        m + seq![tag] + data,
    ) is Err by {
        lemma_fold_other(m, tag, data, None, e, step);
    }
}

/// The wire numbers of a file's path and digest, as they are decoded: one and
/// two, each as text.
pub proof fn lemma_file_info_wire(m: Seq<u8>, data: Seq<u8>, v: FileInfoView)
    requires
        file_info_of(m) == Ok::<FileInfoView, WireError>(v),
        has_room(m, data),
    ensures
        ({
            let t = lossy_chars(data);
            let of = |tag: u8| file_info_of(with_field(m, tag, data));
            &&& of(0x0a) == Ok::<FileInfoView, WireError>(FileInfoView { path: t, ..v })
            &&& of(0x12) == Ok::<FileInfoView, WireError>(FileInfoView { digest: t, ..v })
        }),
        forall|n: int|
            3 <= n < 16 ==> #[trigger] file_info_of(with_field(m, (8 * n + 2) as u8, data)) == Ok::<
                FileInfoView,
                WireError,
            >(v),
        forall|tag: u8|
            tag < 128 && tag % 8 != 2 ==> #[trigger] file_info_of(m + seq![tag] + data) is Err,
        file_info_of(seq![]) matches Ok(e) && e.path.len() == 0 && e.digest.len() == 0,
{
    let e = FileInfoView::empty();
    let step = file_info_step();
    lemma_with_field(m, 1, data, None, e, step);
    lemma_with_field(m, 2, data, None, e, step);
    assert forall|n: int| 3 <= n < 16 implies #[trigger] file_info_of(
        with_field(m, (8 * n + 2) as u8, data),
    ) == Ok::<FileInfoView, WireError>(v) by {
        lemma_with_field(m, n as u32, data, None, e, step);
    }
    assert forall|tag: u8| tag < 128 && tag % 8 != 2 implies #[trigger] file_info_of(
        m + seq![tag] + data,
    ) is Err by {
        lemma_fold_other(m, tag, data, None, e, step);
    }
}

/// The wire numbers of an input's name and file, as they are decoded: one and
/// two, each as a message of its own, which has to be well-formed.
pub proof fn lemma_file_input_wire(m: Seq<u8>, data: Seq<u8>, v: FileInputView)
    requires
        file_input_of(m) == Ok::<FileInputView, WireError>(v),
        has_room(m, data),
    ensures
        vname_of(data) matches Ok(v_name) ==> file_input_of(with_field(m, 0x0a, data)) == Ok::<
            FileInputView,
            WireError,
        >(FileInputView { v_name, ..v }),
        vname_of(data) is Err ==> file_input_of(with_field(m, 0x0a, data)) is Err,
        file_info_of(data) matches Ok(info) ==> file_input_of(with_field(m, 0x12, data)) == Ok::<
            FileInputView,
            WireError,
        >(FileInputView { info, ..v }),
        file_info_of(data) is Err ==> file_input_of(with_field(m, 0x12, data)) is Err,
        forall|n: int|
            3 <= n < 16 ==> #[trigger] file_input_of(with_field(m, (8 * n + 2) as u8, data))
                == Ok::<FileInputView, WireError>(v),
        forall|tag: u8|
            tag < 128 && tag % 8 != 2 ==> #[trigger] file_input_of(m + seq![tag] + data) is Err,
        file_input_of(seq![]) matches Ok(e) && vname_of(seq![]) == Ok::<VNameView, WireError>(
            e.v_name,
        ) && file_info_of(seq![]) == Ok::<FileInfoView, WireError>(e.info),
{
    let e = FileInputView::empty();
    let step = file_input_step();
    lemma_with_field(m, 1, data, None, e, step);
    lemma_with_field(m, 2, data, None, e, step);
    assert forall|n: int| 3 <= n < 16 implies #[trigger] file_input_of(
        with_field(m, (8 * n + 2) as u8, data),
    ) == Ok::<FileInputView, WireError>(v) by {
        lemma_with_field(m, n as u32, data, None, e, step);
    }
    assert forall|tag: u8| tag < 128 && tag % 8 != 2 implies #[trigger] file_input_of(
        m + seq![tag] + data,
    ) is Err by {
        lemma_fold_other(m, tag, data, None, e, step);
    }
}

/// The wire numbers of a unit, as it is decoded: its name is one, an input
/// three, an argument five, a source file six, the output key seven, the
/// working directory eight and the entry context nine. Inputs, arguments and
/// source files are lists that grow at their end. The bool four is passed
/// over, as are the other numbers.
pub proof fn lemma_unit_wire(m: Seq<u8>, data: Seq<u8>, c: CompilationUnitView)
    requires
        unit_of(m) == Ok::<CompilationUnitView, WireError>(c),
        has_room(m, data),
    ensures
        vname_of(data) matches Ok(v_name) ==> unit_of(with_field(m, 0x0a, data)) == Ok::<
            CompilationUnitView,
            WireError,
        >(CompilationUnitView { v_name, ..c }),
        vname_of(data) is Err ==> unit_of(with_field(m, 0x0a, data)) is Err,
        file_input_of(data) matches Ok(f) ==> unit_of(with_field(m, 0x1a, data)) == Ok::<
            CompilationUnitView,
            WireError,
        >(CompilationUnitView { required_input: c.required_input.push(f), ..c }),
        file_input_of(data) is Err ==> unit_of(with_field(m, 0x1a, data)) is Err,
        ({
            let t = lossy_chars(data);
            let of = |tag: u8| unit_of(with_field(m, tag, data));
            &&& of(0x2a) == Ok::<CompilationUnitView, WireError>(
                CompilationUnitView { argument: c.argument.push(t), ..c },
            )
            &&& of(0x32) == Ok::<CompilationUnitView, WireError>(
                CompilationUnitView { source_file: c.source_file.push(t), ..c },
            )
            &&& of(0x3a) == Ok::<CompilationUnitView, WireError>(
                CompilationUnitView { output_key: t, ..c },
            )
            &&& of(0x42) == Ok::<CompilationUnitView, WireError>(
                CompilationUnitView { working_directory: t, ..c },
            )
            &&& of(0x4a) == Ok::<CompilationUnitView, WireError>(
                CompilationUnitView { entry_context: t, ..c },
            )
            &&& of(0x12) == Ok::<CompilationUnitView, WireError>(c)
            &&& of(0x22) == Ok::<CompilationUnitView, WireError>(c)
        }),
        forall|n: int|
            10 <= n < 16 ==> #[trigger] unit_of(with_field(m, (8 * n + 2) as u8, data)) == Ok::<
                CompilationUnitView,
                WireError,
            >(c),
        forall|b: u8|
            b < 128 ==> #[trigger] unit_of(m + seq![0x20u8] + seq![b]) == Ok::<
                CompilationUnitView,
                WireError,
            >(c),
        forall|tag: u8|
            tag < 128 && tag % 8 != 2 && tag != 0x20 ==> #[trigger] unit_of(
                m + seq![tag] + data,
            ) is Err,
        unit_of(seq![]) matches Ok(e) && vname_of(seq![]) == Ok::<VNameView, WireError>(e.v_name)
            && e.required_input.len() == 0 && e.argument.len() == 0 && e.source_file.len() == 0
            && e.output_key.len() == 0 && e.working_directory.len() == 0 && e.entry_context.len()
            == 0,
{
    let e = CompilationUnitView::empty();
    let step = unit_step();
    let flag = Some(HAS_COMPILE_ERRORS);
    lemma_with_field(m, 1, data, flag, e, step);
    lemma_with_field(m, 2, data, flag, e, step);
    lemma_with_field(m, 3, data, flag, e, step);
    lemma_with_field(m, 4, data, flag, e, step);
    lemma_with_field(m, 5, data, flag, e, step);
    lemma_with_field(m, 6, data, flag, e, step);
    lemma_with_field(m, 7, data, flag, e, step);
    lemma_with_field(m, 8, data, flag, e, step);
    lemma_with_field(m, 9, data, flag, e, step);
    assert forall|n: int| 10 <= n < 16 implies #[trigger] unit_of(
        with_field(m, (8 * n + 2) as u8, data),
    ) == Ok::<CompilationUnitView, WireError>(c) by {
        lemma_with_field(m, n as u32, data, flag, e, step);
    }
    assert forall|tag: u8| tag < 128 && tag % 8 != 2 && tag != 0x20 implies #[trigger] unit_of(
        m + seq![tag] + data,
    ) is Err by {
        lemma_fold_other(m, tag, data, flag, e, step);
    }
    assert forall|b: u8| b < 128 implies #[trigger] unit_of(m + seq![0x20u8] + seq![b]) == Ok::<
        CompilationUnitView,
        WireError,
    >(c) by {
        lemma_fold_other(m, 0x20u8, seq![b], flag, e, step);
    }
}

/// The wire numbers of what an archive stores, as it is decoded: the unit is
/// one, and the last one counts; everything else is passed over.
pub proof fn lemma_indexed_wire(m: Seq<u8>, data: Seq<u8>, c: CompilationUnitView)
    requires
        indexed_of(m) == Ok::<CompilationUnitView, WireError>(c),
        has_room(m, data),
    ensures
        indexed_of(with_field(m, 0x0a, data)) == unit_of(data),
        forall|n: int|
            2 <= n < 16 ==> #[trigger] indexed_of(with_field(m, (8 * n + 2) as u8, data)) == Ok::<
                CompilationUnitView,
                WireError,
            >(c),
        forall|tag: u8|
            tag < 128 && tag % 8 != 2 ==> #[trigger] indexed_of(m + seq![tag] + data) is Err,
        indexed_of(seq![]) == unit_of(seq![]),
{
    let e = CompilationUnitView::empty();
    let step = indexed_step();
    lemma_with_field(m, 1, data, None, e, step);
    assert forall|n: int| 2 <= n < 16 implies #[trigger] indexed_of(
        with_field(m, (8 * n + 2) as u8, data),
    ) == Ok::<CompilationUnitView, WireError>(c) by {
        lemma_with_field(m, n as u32, data, None, e, step);
    }
    assert forall|tag: u8| tag < 128 && tag % 8 != 2 implies #[trigger] indexed_of(
        m + seq![tag] + data,
    ) is Err by {
        lemma_fold_other(m, tag, data, None, e, step);
    }
}

/// A payload on the wire, behind the byte of its tag and its length.
pub open spec fn tagged(tag: u8, data: Seq<u8>) -> Seq<u8> {
    seq![tag] + varint_bytes(data.len() as u64) + data
}

/// The same, unless the payload is empty.
pub open spec fn tagged_part(tag: u8, data: Seq<u8>) -> Seq<u8> {
    if data.len() == 0 {
        seq![]
    } else {
        tagged(tag, data)
    }
}

proof fn lemma_text_field_bytes(field: u32, s: Seq<char>)
    requires
        field < 16,
    ensures
        message_bytes(text_field(field, s)) == tagged_part((8 * field + 2) as u8, encode_utf8(s)),
{
    lemma_lossy_round_trip(s);
    lemma_message_one(field, encode_utf8(s));
    lemma_field_bytes_are(field, encode_utf8(s));
    assert(message_bytes(seq![]) =~= seq![]);
}

proof fn lemma_nested_field_bytes(field: u32, message: Seq<u8>)
    requires
        field < 16,
    ensures
        message_bytes(nested_field(field, message)) == tagged_part(
            (8 * field + 2) as u8,
            message,
        ),
{
    lemma_message_one(field, message);
    lemma_field_bytes_are(field, message);
    assert(message_bytes(seq![]) =~= seq![]);
}

/// A name's encoding, byte by byte: the parts that are not empty, as UTF-8,
/// signature under the tag byte 0a, corpus 12, root 1a, path 22 and language
/// 2a.
pub proof fn lemma_vname_bytes(v: VNameView)
    ensures
        message_bytes(vname_fields(v)) == tagged_part(0x0a, encode_utf8(v.signature))
            + tagged_part(0x12, encode_utf8(v.corpus)) + tagged_part(0x1a, encode_utf8(v.root))
            + tagged_part(0x22, encode_utf8(v.path)) + tagged_part(0x2a, encode_utf8(v.language)),
{
    let a = text_field(1, v.signature);
    let b = text_field(2, v.corpus);
    let c = text_field(3, v.root);
    let d = text_field(4, v.path);
    let e = text_field(5, v.language);
    lemma_text_field_bytes(1, v.signature);
    lemma_text_field_bytes(2, v.corpus);
    lemma_text_field_bytes(3, v.root);
    lemma_text_field_bytes(4, v.path);
    lemma_text_field_bytes(5, v.language);
    lemma_message_concat(a, b);
    lemma_message_concat(a + b, c);
    lemma_message_concat(a + b + c, d);
    lemma_message_concat(a + b + c + d, e);
}

/// A file's encoding, byte by byte: its path under the tag byte 0a and its
/// digest under 12.
pub proof fn lemma_file_info_bytes(v: FileInfoView)
    ensures
        message_bytes(file_info_fields(v)) == tagged_part(0x0a, encode_utf8(v.path))
            + tagged_part(0x12, encode_utf8(v.digest)),
{
    lemma_text_field_bytes(1, v.path);
    lemma_text_field_bytes(2, v.digest);
    lemma_message_concat(text_field(1, v.path), text_field(2, v.digest));
}

/// An input's encoding, byte by byte: its name under the tag byte 0a and its
/// file under 12.
pub proof fn lemma_file_input_bytes(v: FileInputView)
    ensures
        message_bytes(file_input_fields(v)) == tagged_part(
            0x0a,
            message_bytes(vname_fields(v.v_name)),
        ) + tagged_part(0x12, message_bytes(file_info_fields(v.info))),
{
    let a = message_bytes(vname_fields(v.v_name));
    let b = message_bytes(file_info_fields(v.info));
    lemma_nested_field_bytes(1, a);
    lemma_nested_field_bytes(2, b);
    lemma_message_concat(nested_field(1, a), nested_field(2, b));
}

/// Texts of a repeated field on the wire, one behind the other; empty ones
/// count too.
pub open spec fn tagged_texts(tag: u8, list: Seq<Seq<char>>) -> Seq<u8>
    decreases list.len(),
{
    if list.len() == 0 {
        seq![]
    } else {
        tagged_texts(tag, list.drop_last()) + tagged(tag, encode_utf8(list.last()))
    }
}

/// Inputs on the wire, one behind the other, each under the tag byte 1a.
pub open spec fn tagged_inputs(list: Seq<FileInputView>) -> Seq<u8>
    decreases list.len(),
{
    if list.len() == 0 {
        seq![]
    } else {
        tagged_inputs(list.drop_last()) + tagged(
            0x1a,
            message_bytes(file_input_fields(list.last())),
        )
    }
}

proof fn lemma_text_fields_bytes(field: u32, list: Seq<Seq<char>>)
    requires
        field < 16,
    ensures
        message_bytes(text_fields(field, list)) == tagged_texts((8 * field + 2) as u8, list),
    decreases list.len(),
{
    let all = text_fields(field, list);
    if list.len() > 0 {
        lemma_text_fields_bytes(field, list.drop_last());
        lemma_field_bytes_are(field, encode_utf8(list.last()));
        assert(all.drop_last() =~= text_fields(field, list.drop_last()));
        assert(all.last() == (field, encode_utf8(list.last())));
    }
}

proof fn lemma_inputs_bytes(list: Seq<FileInputView>)
    ensures
        message_bytes(input_fields(list)) == tagged_inputs(list),
    decreases list.len(),
{
    let all = input_fields(list);
    if list.len() > 0 {
        let one = message_bytes(file_input_fields(list.last()));
        lemma_inputs_bytes(list.drop_last());
        lemma_field_bytes_are(3, one);
        assert(all.drop_last() =~= input_fields(list.drop_last()));
        assert(all.last() == (3u32, one));
    }
}

/// A unit's encoding, byte by byte: its name under the tag byte 0a, its inputs
/// under 1a, its arguments under 2a, its source files under 32, the output key
/// under 3a, the working directory under 42 and the entry context under 4a.
pub proof fn lemma_unit_bytes(c: CompilationUnitView)
    ensures
        message_bytes(unit_fields(c)) == tagged_part(0x0a, message_bytes(vname_fields(c.v_name)))
            + tagged_inputs(c.required_input) + tagged_texts(0x2a, c.argument) + tagged_texts(
            0x32,
            c.source_file,
        ) + tagged_part(0x3a, encode_utf8(c.output_key)) + tagged_part(
            0x42,
            encode_utf8(c.working_directory),
        ) + tagged_part(0x4a, encode_utf8(c.entry_context)),
{
    let name = message_bytes(vname_fields(c.v_name));
    let p1 = nested_field(1, name);
    let p2 = input_fields(c.required_input);
    let p3 = text_fields(5, c.argument);
    let p4 = text_fields(6, c.source_file);
    let p5 = text_field(7, c.output_key);
    let p6 = text_field(8, c.working_directory);
    let p7 = text_field(9, c.entry_context);
    lemma_nested_field_bytes(1, name);
    lemma_inputs_bytes(c.required_input);
    lemma_text_fields_bytes(5, c.argument);
    lemma_text_fields_bytes(6, c.source_file);
    lemma_text_field_bytes(7, c.output_key);
    lemma_text_field_bytes(8, c.working_directory);
    lemma_text_field_bytes(9, c.entry_context);
    lemma_message_concat(p1, p2);
    lemma_message_concat(p1 + p2, p3);
    lemma_message_concat(p1 + p2 + p3, p4);
    lemma_message_concat(p1 + p2 + p3 + p4, p5);
    lemma_message_concat(p1 + p2 + p3 + p4 + p5, p6);
    lemma_message_concat(p1 + p2 + p3 + p4 + p5 + p6, p7);
}

/// What an archive stores of a unit, byte by byte: the unit under the tag byte
/// 0a.
pub proof fn lemma_indexed_bytes(c: CompilationUnitView)
    ensures
        indexed_bytes(c) == tagged(0x0a, message_bytes(unit_fields(c))),
{
    lemma_field_bytes_are(1, message_bytes(unit_fields(c)));
}

// ---------------------------------------------------- what the types say

/// Each part of a name, an input and a unit says what its field holds.
pub proof fn lemma_views_are_fields(
    n: VName,
    info: FileInfo,
    input: FileInput,
    c: CompilationUnit,
    ic: IndexedCompilation,
    u: Unit,
)
    ensures
        n@.signature == n.signature@ && n@.corpus == n.corpus@ && n@.root == n.root@ && n@.path
            == n.path@ && n@.language == n.language@,
        info@.path == info.path@ && info@.digest == info.digest@,
        input@.v_name == input.v_name@ && input@.info == input.info@,
        c@.v_name == c.v_name@ && c@.output_key == c.output_key@ && c@.working_directory
            == c.working_directory@ && c@.entry_context == c.entry_context@,
        c@.required_input.len() == c.required_input@.len() && forall|i: int|
            0 <= i < c.required_input@.len() ==> #[trigger] c@.required_input[i]
                == c.required_input@[i]@,
        c@.argument.len() == c.argument@.len() && forall|i: int|
            0 <= i < c.argument@.len() ==> #[trigger] c@.argument[i] == c.argument@[i]@,
        c@.source_file.len() == c.source_file@.len() && forall|i: int|
            0 <= i < c.source_file@.len() ==> #[trigger] c@.source_file[i] == c.source_file@[i]@,
        ic@ == ic.unit@,
        u@.sha == u.sha@ && u@.cu == u.cu.unit@,
        u.raw_proto matches Some(raw) ==> u@.raw_proto == Some(raw@),
        u.raw_proto is None ==> u@.raw_proto is None,
{
}

/// What the primary path of a unit is: the first source file, whatever it says;
/// without one, the first that is not empty of the path in the name of the
/// first input, the path in the unit's own name, and the path of the first
/// input's file; none where all of them are empty or missing.
pub proof fn lemma_primary_path_is(c: CompilationUnitView)
    ensures
        c.source_file.len() > 0 ==> primary_path_of(c) == Some(c.source_file[0]),
        c.source_file.len() == 0 ==> {
            let named = c.required_input.len() > 0 && c.required_input[0].v_name.path.len() > 0;
            let filed = c.required_input.len() > 0 && c.required_input[0].info.path.len() > 0;
            let own = c.v_name.path.len() > 0;
            &&& named ==> primary_path_of(c) == Some(c.required_input[0].v_name.path)
            &&& !named && own ==> primary_path_of(c) == Some(c.v_name.path)
            &&& !named && !own && filed ==> primary_path_of(c) == Some(
                c.required_input[0].info.path,
            )
            &&& !named && !own && !filed ==> primary_path_of(c) is None
        },
{
}

/// A unit that was read from proto keeps its bytes, and any other one is
/// encoded.
pub proof fn lemma_proto_bytes_are(u: UnitView)
    ensures
        u.raw_proto matches Some(raw) ==> u.proto_bytes() == raw,
        u.raw_proto is None ==> u.proto_bytes() == tagged(
            0x0a,
            message_bytes(unit_fields(u.cu)),
        ),
        u.faithful() <==> (u.raw_proto matches Some(raw) ==> indexed_of(raw) == Ok::<
            CompilationUnitView,
            WireError,
        >(u.cu)),
{
    lemma_indexed_bytes(u.cu);
}

} // verus!
