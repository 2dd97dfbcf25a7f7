//! The on-disk format of the font index cache: the parsed per-face metadata of the
//! system fonts, keyed on a fingerprint (modification times and sizes) of the font
//! directories and files that were scanned.
//!
//! Layout, all integers little-endian: the magic bytes `CTFC`, the format version
//! (`u32`), the directory count (`u32`) and per directory its path (length-prefixed
//! UTF-8) and modification time (`u64` seconds, `u32` nanoseconds), the file count
//! and per file its path, modification time and size (`u64`), then the face count and
//! per face: file index (`u32`), face index in the file (`u32`), family count (`u32`)
//! and family names, PostScript name, style code (`u8`), weight (`u16`), stretch
//! number (`u8`) and monospace flag (`u8`).

use vstd::prelude::*;
use vstd::bytes::*;
use vstd::utf8::*;
use crate::attrs::{Style, Stretch, Weight, spec_stretch_number};
use crate::byte_io::{
    enc_mtime, enc_str, read_bytes, read_mtime, read_str, read_u16, read_u32, read_u64, read_u8,
    Reader, Writer,
};

verus! {

/// Cache format version; caches of another version are rejected.
pub const VERSION: u32 = 1;

/// The magic bytes `CTFC` that start a cache file.
pub open spec fn magic() -> Seq<u8> {
    seq![0x43u8, 0x54u8, 0x46u8, 0x43u8]
}

pub open spec fn spec_style_code(s: Style) -> u8 {
    match s {
        Style::Normal => 0,
        Style::Italic => 1,
        Style::Oblique => 2,
    }
}

pub open spec fn spec_decode_style(v: u8) -> Option<Style> {
    if v == 0 {
        Some(Style::Normal)
    } else if v == 1 {
        Some(Style::Italic)
    } else if v == 2 {
        Some(Style::Oblique)
    } else {
        None
    }
}

pub open spec fn spec_decode_stretch(v: u8) -> Option<Stretch> {
    if v == 1 {
        Some(Stretch::UltraCondensed)
    } else if v == 2 {
        Some(Stretch::ExtraCondensed)
    } else if v == 3 {
        Some(Stretch::Condensed)
    } else if v == 4 {
        Some(Stretch::SemiCondensed)
    } else if v == 5 {
        Some(Stretch::Normal)
    } else if v == 6 {
        Some(Stretch::SemiExpanded)
    } else if v == 7 {
        Some(Stretch::Expanded)
    } else if v == 8 {
        Some(Stretch::ExtraExpanded)
    } else if v == 9 {
        Some(Stretch::UltraExpanded)
    } else {
        None
    }
}

pub fn encode_style(style: Style) -> (v: u8)
    ensures
        v == spec_style_code(style),
{
    match style {
        Style::Normal => 0,
        Style::Italic => 1,
        Style::Oblique => 2,
    }
}

pub fn decode_style(value: u8) -> (r: Option<Style>)
    ensures
        r == spec_decode_style(value),
{
    match value {
        0 => Some(Style::Normal),
        1 => Some(Style::Italic),
        2 => Some(Style::Oblique),
        _ => None,
    }
}

pub fn decode_stretch(value: u8) -> (r: Option<Stretch>)
    ensures
        r == spec_decode_stretch(value),
{
    match value {
        1 => Some(Stretch::UltraCondensed),
        2 => Some(Stretch::ExtraCondensed),
        3 => Some(Stretch::Condensed),
        4 => Some(Stretch::SemiCondensed),
        5 => Some(Stretch::Normal),
        6 => Some(Stretch::SemiExpanded),
        7 => Some(Stretch::Expanded),
        8 => Some(Stretch::ExtraExpanded),
        9 => Some(Stretch::UltraExpanded),
        _ => None,
    }
}

/// Style codes and stretch numbers decode back to what was encoded, and a byte that
/// decodes is the encoding of what it decodes to.
pub proof fn lemma_style_stretch_codes(style: Style, stretch: Stretch, v: u8)
    ensures
        spec_decode_style(spec_style_code(style)) == Some(style),
        spec_decode_stretch(spec_stretch_number(stretch) as u8) == Some(stretch),
        spec_decode_style(v) matches Some(s) ==> spec_style_code(s) == v,
        spec_decode_stretch(v) matches Some(s) ==> spec_stretch_number(s) == v,
{
}

/// A scanned font directory and its modification time.
pub struct DirStamp {
    pub path: String,
    pub mtime: (u64, u32),
}

/// A scanned font file, its modification time and its size in bytes.
pub struct FileStamp {
    pub path: String,
    pub mtime: (u64, u32),
    pub len: u64,
}

/// The stored metadata of one font face.
pub struct FaceRecord {
    /// Index of the face's file in the file list.
    pub file_index: u32,
    /// Index of the face within its file.
    pub index: u32,
    pub families: Vec<String>,
    pub post_script_name: String,
    pub style: Style,
    pub weight: Weight,
    pub stretch: Stretch,
    pub monospaced: bool,
}

/// The whole content of a cache file.
pub struct FontIndex {
    pub dirs: Vec<DirStamp>,
    pub files: Vec<FileStamp>,
    pub faces: Vec<FaceRecord>,
}

pub struct DirStampView {
    pub path: Seq<char>,
    pub mtime: (u64, u32),
}

pub struct FileStampView {
    pub path: Seq<char>,
    pub mtime: (u64, u32),
    pub len: u64,
}

pub struct FaceRecordView {
    pub file_index: u32,
    pub index: u32,
    pub families: Seq<Seq<char>>,
    pub post_script_name: Seq<char>,
    pub style: Style,
    pub weight: u16,
    pub stretch: Stretch,
    pub monospaced: bool,
}

pub struct FontIndexView {
    pub dirs: Seq<DirStampView>,
    pub files: Seq<FileStampView>,
    pub faces: Seq<FaceRecordView>,
}

pub open spec fn string_views(s: Seq<String>) -> Seq<Seq<char>> {
    s.map_values(|x: String| x@)
}

impl View for DirStamp {
    type V = DirStampView;

    open spec fn view(&self) -> DirStampView {
        DirStampView { path: self.path@, mtime: self.mtime }
    }
}

impl View for FileStamp {
    type V = FileStampView;

    open spec fn view(&self) -> FileStampView {
        FileStampView { path: self.path@, mtime: self.mtime, len: self.len }
    }
}

impl View for FaceRecord {
    type V = FaceRecordView;

    open spec fn view(&self) -> FaceRecordView {
        FaceRecordView {
            file_index: self.file_index,
            index: self.index,
            families: string_views(self.families@),
            post_script_name: self.post_script_name@,
            style: self.style,
            weight: self.weight.0,
            stretch: self.stretch,
            monospaced: self.monospaced,
        }
    }
}

pub open spec fn dir_views(s: Seq<DirStamp>) -> Seq<DirStampView> {
    s.map_values(|x: DirStamp| x@)
}

pub open spec fn file_views(s: Seq<FileStamp>) -> Seq<FileStampView> {
    s.map_values(|x: FileStamp| x@)
}

pub open spec fn face_views(s: Seq<FaceRecord>) -> Seq<FaceRecordView> {
    s.map_values(|x: FaceRecord| x@)
}

impl View for FontIndex {
    type V = FontIndexView;

    open spec fn view(&self) -> FontIndexView {
        FontIndexView {
            dirs: dir_views(self.dirs@),
            files: file_views(self.files@),
            faces: face_views(self.faces@),
        }
    }
}

// ---------------------------------------------------------------------------------
// Reading, as a function of the bytes.

/// `n` items read one after the other starting at `pos`.
pub open spec fn read_seq<T>(
    data: Seq<u8>,
    pos: int,
    n: nat,
    item: spec_fn(Seq<u8>, int) -> Option<(T, int)>,
) -> Option<(Seq<T>, int)>
    decreases n,
{
    if n == 0 {
        Some((Seq::<T>::empty(), pos))
    } else {
        match read_seq(data, pos, (n - 1) as nat, item) {
            Some((xs, p)) => match item(data, p) {
                Some((x, q)) => Some((xs.push(x), q)),
                None => None,
            },
            None => None,
        }
    }
}

pub open spec fn read_dir(data: Seq<u8>, pos: int) -> Option<(DirStampView, int)> {
    match read_str(data, pos) {
        Some((path, p)) => match read_mtime(data, p) {
            Some((mtime, q)) => Some((DirStampView { path, mtime }, q)),
            None => None,
        },
        None => None,
    }
}

pub open spec fn read_file(data: Seq<u8>, pos: int) -> Option<(FileStampView, int)> {
    match read_str(data, pos) {
        Some((path, p)) => match read_mtime(data, p) {
            Some((mtime, q)) => match read_u64(data, q) {
                Some((len, r)) => Some((FileStampView { path, mtime, len }, r)),
                None => None,
            },
            None => None,
        },
        None => None,
    }
}

pub open spec fn read_dirs(data: Seq<u8>, pos: int, n: nat) -> Option<(Seq<DirStampView>, int)> {
    read_seq(data, pos, n, |d: Seq<u8>, p: int| read_dir(d, p))
}

pub open spec fn read_files(data: Seq<u8>, pos: int, n: nat) -> Option<
    (Seq<FileStampView>, int),
> {
    read_seq(data, pos, n, |d: Seq<u8>, p: int| read_file(d, p))
}

pub open spec fn read_strs(data: Seq<u8>, pos: int, n: nat) -> Option<(Seq<Seq<char>>, int)> {
    read_seq(data, pos, n, |d: Seq<u8>, p: int| read_str(d, p))
}

/// The fields of a face after its family names.
pub open spec fn read_face_tail(data: Seq<u8>, pos: int) -> Option<
    ((Seq<char>, Style, u16, Stretch, bool), int),
> {
    match read_str(data, pos) {
        Some((ps, p1)) => match read_u8(data, p1) {
            Some((sb, p2)) => match spec_decode_style(sb) {
                Some(style) => match read_u16(data, p2) {
                    Some((weight, p3)) => match read_u8(data, p3) {
                        Some((tb, p4)) => match spec_decode_stretch(tb) {
                            Some(stretch) => match read_u8(data, p4) {
                                Some((mb, p5)) => Some(((ps, style, weight, stretch, mb != 0), p5)),
                                None => None,
                            },
                            None => None,
                        },
                        None => None,
                    },
                    None => None,
                },
                None => None,
            },
            None => None,
        },
        None => None,
    }
}

/// A face whose file index must be below `n_files`.
pub open spec fn read_face(data: Seq<u8>, pos: int, n_files: nat) -> Option<(FaceRecordView, int)> {
    match read_u32(data, pos) {
        Some((file_index, p1)) => if file_index < n_files {
            match read_u32(data, p1) {
                Some((index, p2)) => match read_u32(data, p2) {
                    Some((count, p3)) => match read_strs(data, p3, count as nat) {
                        Some((families, p4)) => match read_face_tail(data, p4) {
                            Some(((post_script_name, style, weight, stretch, monospaced), p5)) => Some(
                                (
                                    FaceRecordView {
                                        file_index,
                                        index,
                                        families,
                                        post_script_name,
                                        style,
                                        weight,
                                        stretch,
                                        monospaced,
                                    },
                                    p5,
                                ),
                            ),
                            None => None,
                        },
                        None => None,
                    },
                    None => None,
                },
                None => None,
            }
        } else {
            None
        },
        None => None,
    }
}

pub open spec fn read_faces(data: Seq<u8>, pos: int, n: nat, n_files: nat) -> Option<
    (Seq<FaceRecordView>, int),
> {
    read_seq(data, pos, n, |d: Seq<u8>, p: int| read_face(d, p, n_files))
}

/// What a cache file holds; absent when it is truncated, malformed, of another
/// version, or names a file index out of range. Bytes after the face table are
/// ignored.
pub open spec fn read_index(data: Seq<u8>) -> Option<FontIndexView> {
    match read_bytes(data, 0, 4) {
        Some((m, p0)) => if m == magic() {
            match read_u32(data, p0) {
                Some((version, p1)) => if version == VERSION {
                    match read_u32(data, p1) {
                        Some((dir_count, p2)) => match read_dirs(data, p2, dir_count as nat) {
                            Some((dirs, p3)) => match read_u32(data, p3) {
                                Some((file_count, p4)) => match read_files(
                                    data,
                                    p4,
                                    file_count as nat,
                                ) {
                                    Some((files, p5)) => match read_u32(data, p5) {
                                        Some((face_count, p6)) => match read_faces(
                                            data,
                                            p6,
                                            face_count as nat,
                                            files.len(),
                                        ) {
                                            Some((faces, p7)) => Some(
                                                FontIndexView { dirs, files, faces },
                                            ),
                                            None => None,
                                        },
                                        None => None,
                                    },
                                    None => None,
                                },
                                None => None,
                            },
                            None => None,
                        },
                        None => None,
                    }
                } else {
                    None
                },
                None => None,
            }
        } else {
            None
        },
        None => None,
    }
}

// ---------------------------------------------------------------------------------
// Writing, as a function of the content.

pub open spec fn enc_seq<T>(s: Seq<T>, enc: spec_fn(T) -> Seq<u8>) -> Seq<u8>
    decreases s.len(),
{
    if s.len() == 0 {
        Seq::<u8>::empty()
    } else {
        enc_seq(s.drop_last(), enc) + enc(s.last())
    }
}

pub open spec fn enc_dir(d: DirStampView) -> Seq<u8> {
    enc_str(d.path) + enc_mtime(d.mtime)
}

pub open spec fn enc_file(f: FileStampView) -> Seq<u8> {
    enc_str(f.path) + enc_mtime(f.mtime) + spec_u64_to_le_bytes(f.len)
}

pub open spec fn enc_strs(s: Seq<Seq<char>>) -> Seq<u8> {
    enc_seq(s, |x: Seq<char>| enc_str(x))
}

pub open spec fn enc_face_tail(f: FaceRecordView) -> Seq<u8> {
    enc_str(f.post_script_name) + seq![spec_style_code(f.style)] + spec_u16_to_le_bytes(f.weight)
        + seq![spec_stretch_number(f.stretch) as u8] + seq![
        if f.monospaced {
            1u8
        } else {
            0u8
        },
    ]
}

pub open spec fn enc_face(f: FaceRecordView) -> Seq<u8> {
    spec_u32_to_le_bytes(f.file_index) + spec_u32_to_le_bytes(f.index) + spec_u32_to_le_bytes(
        f.families.len() as u32,
    ) + enc_strs(f.families) + enc_face_tail(f)
}

pub open spec fn enc_dirs(s: Seq<DirStampView>) -> Seq<u8> {
    enc_seq(s, |x: DirStampView| enc_dir(x))
}

pub open spec fn enc_files(s: Seq<FileStampView>) -> Seq<u8> {
    enc_seq(s, |x: FileStampView| enc_file(x))
}

pub open spec fn enc_faces(s: Seq<FaceRecordView>) -> Seq<u8> {
    enc_seq(s, |x: FaceRecordView| enc_face(x))
}

/// The bytes of a cache file; counts are truncated to 32 bits.
pub open spec fn enc_index(v: FontIndexView) -> Seq<u8> {
    magic() + spec_u32_to_le_bytes(VERSION) + spec_u32_to_le_bytes(v.dirs.len() as u32)
        + enc_dirs(v.dirs) + spec_u32_to_le_bytes(v.files.len() as u32) + enc_files(v.files)
        + spec_u32_to_le_bytes(v.faces.len() as u32) + enc_faces(v.faces)
}

// ---------------------------------------------------------------------------------
// Parsing.

proof fn lemma_read_seq_none<T>(
    data: Seq<u8>,
    pos: int,
    n: nat,
    m: nat,
    item: spec_fn(Seq<u8>, int) -> Option<(T, int)>,
)
    requires
        read_seq(data, pos, n, item) is None,
        n <= m,
    ensures
        read_seq(data, pos, m, item) is None,
    decreases m,
{
    if m > n {
        lemma_read_seq_none(data, pos, n, (m - 1) as nat, item);
    }
}

fn parse_strs(r: &mut Reader, count: u32) -> (res: Option<Vec<String>>)
    ensures
        final(r).data() == old(r).data(),
        match read_strs(old(r).data(), old(r).pos(), count as nat) {
            Some((s, p)) => res matches Some(v) && string_views(v@) == s && final(r).pos() == p,
            None => res is None,
        },
{
    let ghost data = r.data();
    let ghost start = r.pos();
    let mut out: Vec<String> = Vec::new();
    let mut i: u32 = 0;
    while i < count
        invariant
            r.data() == data,
            data == old(r).data(),
            start == old(r).pos(),
            i <= count,
            read_strs(data, start, i as nat) == Some((string_views(out@), r.pos())),
        decreases count - i,
    {
        let ghost before = out@;
        match r.string() {
            Some(x) => {
                out.push(x);
                assert(string_views(out@) =~= string_views(before).push(x@));
                i = i + 1;
            },
            None => {
                proof {
                    lemma_read_seq_none(
                        data,
                        start,
                        (i + 1) as nat,
                        count as nat,
                        |d: Seq<u8>, p: int| read_str(d, p),
                    );
                }
                return None;
            },
        }
    }
    Some(out)
}

fn parse_dirs(r: &mut Reader, count: u32) -> (res: Option<Vec<DirStamp>>)
    ensures
        final(r).data() == old(r).data(),
        match read_dirs(old(r).data(), old(r).pos(), count as nat) {
            Some((s, p)) => res matches Some(v) && dir_views(v@) == s && final(r).pos() == p,
            None => res is None,
        },
{
    let ghost data = r.data();
    let ghost start = r.pos();
    let mut out: Vec<DirStamp> = Vec::new();
    let mut i: u32 = 0;
    while i < count
        invariant
            r.data() == data,
            data == old(r).data(),
            start == old(r).pos(),
            i <= count,
            read_dirs(data, start, i as nat) == Some((dir_views(out@), r.pos())),
        decreases count - i,
    {
        let ghost before = out@;
        let ghost p0 = r.pos();
        let path = r.path();
        let mtime = if path.is_some() {
            r.mtime()
        } else {
            None
        };
        match (path, mtime) {
            (Some(path), Some(mtime)) => {
                let d = DirStamp { path, mtime };
                out.push(d);
                assert(dir_views(out@) =~= dir_views(before).push(d@));
                i = i + 1;
            },
            _ => {
                assert(read_dir(data, p0) is None);
                proof {
                    lemma_read_seq_none(
                        data,
                        start,
                        (i + 1) as nat,
                        count as nat,
                        |d: Seq<u8>, p: int| read_dir(d, p),
                    );
                }
                return None;
            },
        }
    }
    Some(out)
}

fn parse_file(r: &mut Reader) -> (res: Option<FileStamp>)
    ensures
        final(r).data() == old(r).data(),
        match read_file(old(r).data(), old(r).pos()) {
            Some((f, p)) => res matches Some(x) && x@ == f && final(r).pos() == p,
            None => res is None,
        },
{
    let path = r.path()?;
    let mtime = r.mtime()?;
    let len = r.u64()?;
    Some(FileStamp { path, mtime, len })
}

fn parse_files(r: &mut Reader, count: u32) -> (res: Option<Vec<FileStamp>>)
    ensures
        final(r).data() == old(r).data(),
        match read_files(old(r).data(), old(r).pos(), count as nat) {
            Some((s, p)) => res matches Some(v) && file_views(v@) == s && final(r).pos() == p,
            None => res is None,
        },
{
    let ghost data = r.data();
    let ghost start = r.pos();
    let mut out: Vec<FileStamp> = Vec::new();
    let mut i: u32 = 0;
    while i < count
        invariant
            r.data() == data,
            data == old(r).data(),
            start == old(r).pos(),
            i <= count,
            read_files(data, start, i as nat) == Some((file_views(out@), r.pos())),
        decreases count - i,
    {
        let ghost before = out@;
        match parse_file(r) {
            Some(f) => {
                out.push(f);
                assert(file_views(out@) =~= file_views(before).push(f@));
                i = i + 1;
            },
            None => {
                proof {
                    lemma_read_seq_none(
                        data,
                        start,
                        (i + 1) as nat,
                        count as nat,
                        |d: Seq<u8>, p: int| read_file(d, p),
                    );
                }
                return None;
            },
        }
    }
    Some(out)
}

fn parse_face(r: &mut Reader, n_files: usize) -> (res: Option<FaceRecord>)
    ensures
        final(r).data() == old(r).data(),
        match read_face(old(r).data(), old(r).pos(), n_files as nat) {
            Some((f, p)) => res matches Some(x) && x@ == f && final(r).pos() == p,
            None => res is None,
        },
{
    let file_index = r.u32()?;
    if file_index as usize >= n_files {
        return None;
    }
    let index = r.u32()?;
    let family_count = r.u32()?;
    let families = parse_strs(r, family_count)?;
    let post_script_name = r.string()?;
    let style = decode_style(r.u8()?)?;
    let weight = Weight(r.u16()?);
    let stretch = decode_stretch(r.u8()?)?;
    let monospaced = r.u8()? != 0;
    Some(
        FaceRecord {
            file_index,
            index,
            families,
            post_script_name,
            style,
            weight,
            stretch,
            monospaced,
        },
    )
}

fn parse_faces(r: &mut Reader, count: u32, n_files: usize) -> (res: Option<Vec<FaceRecord>>)
    ensures
        final(r).data() == old(r).data(),
        match read_faces(old(r).data(), old(r).pos(), count as nat, n_files as nat) {
            Some((s, p)) => res matches Some(v) && face_views(v@) == s && final(r).pos() == p,
            None => res is None,
        },
{
    let ghost data = r.data();
    let ghost start = r.pos();
    let mut out: Vec<FaceRecord> = Vec::new();
    let mut i: u32 = 0;
    while i < count
        invariant
            r.data() == data,
            data == old(r).data(),
            start == old(r).pos(),
            i <= count,
            read_faces(data, start, i as nat, n_files as nat) == Some(
                (face_views(out@), r.pos()),
            ),
        decreases count - i,
    {
        let ghost before = out@;
        match parse_face(r, n_files) {
            Some(f) => {
                out.push(f);
                assert(face_views(out@) =~= face_views(before).push(f@));
                i = i + 1;
            },
            None => {
                proof {
                    lemma_read_seq_none(
                        data,
                        start,
                        (i + 1) as nat,
                        count as nat,
                        |d: Seq<u8>, p: int| read_face(d, p, n_files as nat),
                    );
                }
                return None;
            },
        }
    }
    Some(out)
}

/// Parses the content of a cache file. Returns `None` when the bytes are truncated or
/// malformed, carry another magic or version, or name a file index out of range.
pub fn parse_index(data: &[u8]) -> (res: Option<FontIndex>)
    ensures
        match read_index(data@) {
            Some(v) => res matches Some(x) && x@ == v,
            None => res is None,
        },
{
    let mut r = Reader::new(data);
    let m = r.take(4)?;
    if m[0] != 0x43u8 || m[1] != 0x54u8 || m[2] != 0x46u8 || m[3] != 0x43u8 {
        return None;
    }
    assert(m@ =~= magic());
    if r.u32()? != VERSION {
        return None;
    }
    let dir_count = r.u32()?;
    let dirs = parse_dirs(&mut r, dir_count)?;
    let file_count = r.u32()?;
    let files = parse_files(&mut r, file_count)?;
    let face_count = r.u32()?;
    let faces = parse_faces(&mut r, face_count, files.len())?;
    Some(FontIndex { dirs, files, faces })
}

// ---------------------------------------------------------------------------------
// Encoding.

proof fn lemma_enc_seq_step<T>(s: Seq<T>, i: int, enc: spec_fn(T) -> Seq<u8>)
    requires
        0 <= i < s.len(),
    ensures
        enc_seq(s.take(i + 1), enc) == enc_seq(s.take(i), enc) + enc(s[i]),
{
    assert(s.take(i + 1).drop_last() =~= s.take(i));
}

fn write_strs(w: &mut Writer, strs: &Vec<String>)
    ensures
        final(w)@ == old(w)@ + enc_strs(string_views(strs@)),
{
    let ghost base = w@;
    let ghost views = string_views(strs@);
    let n = strs.len();
    let mut i: usize = 0;
    while i < n
        invariant
            n == strs@.len(),
            views == string_views(strs@),
            i <= n,
            w@ == base + enc_strs(views.take(i as int)),
        decreases n - i,
    {
        proof {
            lemma_enc_seq_step(views, i as int, |x: Seq<char>| enc_str(x));
        }
        w.string(strs[i].as_str());
        i = i + 1;
        assert(w@ =~= base + enc_strs(views.take(i as int)));
    }
    assert(views.take(n as int) =~= views);
}

fn write_face(w: &mut Writer, face: &FaceRecord)
    ensures
        final(w)@ == old(w)@ + enc_face(face@),
{
    let ghost base = w@;
    w.u32(face.file_index);
    w.u32(face.index);
    w.u32(face.families.len() as u32);
    write_strs(w, &face.families);
    w.string(face.post_script_name.as_str());
    w.u8(encode_style(face.style));
    w.u16(face.weight.0);
    w.u8(face.stretch.to_number() as u8);
    w.u8(if face.monospaced { 1u8 } else { 0u8 });
    assert(w@ =~= base + enc_face(face@));
}

/// Encodes a cache file. Counts are written as 32-bit values.
pub fn encode_index(index: &FontIndex) -> (bytes: Vec<u8>)
    ensures
        bytes@ == enc_index(index@),
{
    let ghost v = index@;
    let mut w = Writer::new();
    w.u8(0x43u8);
    w.u8(0x54u8);
    w.u8(0x46u8);
    w.u8(0x43u8);
    w.u32(VERSION);
    w.u32(index.dirs.len() as u32);
    let ghost base = w@;
    let n = index.dirs.len();
    let mut i: usize = 0;
    while i < n
        invariant
            n == index.dirs@.len(),
            v == index@,
            i <= n,
            w@ == base + enc_dirs(v.dirs.take(i as int)),
        decreases n - i,
    {
        proof {
            lemma_enc_seq_step(v.dirs, i as int, |x: DirStampView| enc_dir(x));
        }
        let d = &index.dirs[i];
        w.path(d.path.as_str());
        w.mtime(d.mtime);
        i = i + 1;
        assert(w@ =~= base + enc_dirs(v.dirs.take(i as int)));
    }
    assert(v.dirs.take(n as int) =~= v.dirs);
    w.u32(index.files.len() as u32);
    let ghost base = w@;
    let n = index.files.len();
    let mut i: usize = 0;
    while i < n
        invariant
            n == index.files@.len(),
            v == index@,
            i <= n,
            w@ == base + enc_files(v.files.take(i as int)),
        decreases n - i,
    {
        proof {
            lemma_enc_seq_step(v.files, i as int, |x: FileStampView| enc_file(x));
        }
        let f = &index.files[i];
        w.path(f.path.as_str());
        w.mtime(f.mtime);
        w.u64(f.len);
        i = i + 1;
        assert(w@ =~= base + enc_files(v.files.take(i as int)));
    }
    assert(v.files.take(n as int) =~= v.files);
    w.u32(index.faces.len() as u32);
    let ghost base = w@;
    let n = index.faces.len();
    let mut i: usize = 0;
    while i < n
        invariant
            n == index.faces@.len(),
            v == index@,
            i <= n,
            w@ == base + enc_faces(v.faces.take(i as int)),
        decreases n - i,
    {
        proof {
            lemma_enc_seq_step(v.faces, i as int, |x: FaceRecordView| enc_face(x));
        }
        write_face(&mut w, &index.faces[i]);
        i = i + 1;
        assert(w@ =~= base + enc_faces(v.faces.take(i as int)));
    }
    assert(v.faces.take(n as int) =~= v.faces);
    let bytes = w.into_inner();
    assert(bytes@ =~= enc_index(v));
    bytes
}

// ---------------------------------------------------------------------------------
// Reading back what was written.

/// `b` stands in `data` at `pos`.
pub open spec fn bytes_at(data: Seq<u8>, pos: int, b: Seq<u8>) -> bool {
    0 <= pos && pos + b.len() <= data.len() && data.subrange(pos, pos + b.len()) == b
}

/// The string's UTF-8 length fits the 32-bit length prefix.
pub open spec fn str_fits(s: Seq<char>) -> bool {
    encode_utf8(s).len() <= u32::MAX
}

pub open spec fn face_wf(f: FaceRecordView, n_files: nat) -> bool {
    &&& f.file_index < n_files
    &&& f.families.len() <= u32::MAX
    &&& forall|k: int| 0 <= k < f.families.len() ==> str_fits(#[trigger] f.families[k])
    &&& str_fits(f.post_script_name)
}

/// A cache content that the format can carry: every count and string length fits in
/// 32 bits and every face names one of the files.
pub open spec fn index_wf(v: FontIndexView) -> bool {
    &&& v.dirs.len() <= u32::MAX
    &&& v.files.len() <= u32::MAX
    &&& v.faces.len() <= u32::MAX
    &&& forall|i: int| 0 <= i < v.dirs.len() ==> str_fits(#[trigger] v.dirs[i].path)
    &&& forall|i: int| 0 <= i < v.files.len() ==> str_fits(#[trigger] v.files[i].path)
    &&& forall|i: int| 0 <= i < v.faces.len() ==> face_wf(#[trigger] v.faces[i], v.files.len())
}

proof fn lemma_at_split(data: Seq<u8>, pos: int, a: Seq<u8>, b: Seq<u8>)
    requires
        bytes_at(data, pos, a + b),
    ensures
        bytes_at(data, pos, a),
        bytes_at(data, pos + a.len(), b),
{
    let whole = data.subrange(pos, pos + (a + b).len());
    assert(whole == a + b);
    assert(data.subrange(pos, pos + a.len()) =~= whole.subrange(0, a.len() as int));
    assert(whole.subrange(0, a.len() as int) =~= a);
    assert(data.subrange(pos + a.len(), pos + a.len() + b.len()) =~= whole.subrange(
        a.len() as int,
        (a.len() + b.len()) as int,
    ));
    assert(whole.subrange(a.len() as int, (a.len() + b.len()) as int) =~= b);
}

proof fn lemma_read_u8_at(data: Seq<u8>, pos: int, x: u8)
    requires
        bytes_at(data, pos, seq![x]),
    ensures
        read_u8(data, pos) == Some((x, pos + 1)),
{
    assert(data.subrange(pos, pos + 1)[0] == seq![x][0]);
}

proof fn lemma_read_u16_at(data: Seq<u8>, pos: int, x: u16)
    requires
        bytes_at(data, pos, spec_u16_to_le_bytes(x)),
    ensures
        read_u16(data, pos) == Some((x, pos + 2)),
{
    lemma_auto_spec_u16_to_from_le_bytes();
}

proof fn lemma_read_u32_at(data: Seq<u8>, pos: int, x: u32)
    requires
        bytes_at(data, pos, spec_u32_to_le_bytes(x)),
    ensures
        read_u32(data, pos) == Some((x, pos + 4)),
        spec_u32_to_le_bytes(x).len() == 4,
{
    lemma_auto_spec_u32_to_from_le_bytes();
}

proof fn lemma_read_u64_at(data: Seq<u8>, pos: int, x: u64)
    requires
        bytes_at(data, pos, spec_u64_to_le_bytes(x)),
    ensures
        read_u64(data, pos) == Some((x, pos + 8)),
        spec_u64_to_le_bytes(x).len() == 8,
{
    lemma_auto_spec_u64_to_from_le_bytes();
}

proof fn lemma_read_mtime_at(data: Seq<u8>, pos: int, m: (u64, u32))
    requires
        bytes_at(data, pos, enc_mtime(m)),
    ensures
        read_mtime(data, pos) == Some((m, pos + enc_mtime(m).len())),
{
    lemma_at_split(data, pos, spec_u64_to_le_bytes(m.0), spec_u32_to_le_bytes(m.1));
    lemma_read_u64_at(data, pos, m.0);
    lemma_read_u32_at(data, pos + 8, m.1);
}

proof fn lemma_read_str_at(data: Seq<u8>, pos: int, s: Seq<char>)
    requires
        bytes_at(data, pos, enc_str(s)),
        str_fits(s),
    ensures
        read_str(data, pos) == Some((s, pos + enc_str(s).len())),
{
    let len = encode_utf8(s).len();
    lemma_at_split(data, pos, spec_u32_to_le_bytes(len as u32), encode_utf8(s));
    lemma_read_u32_at(data, pos, len as u32);
    encode_utf8_valid_utf8(s);
    encode_utf8_decode_utf8(s);
}

/// Bytes written after others are found right after them.
proof fn lemma_written_at(prefix: Seq<u8>, b: Seq<u8>, rest: Seq<u8>)
    ensures
        bytes_at(prefix + b + rest, prefix.len() as int, b),
{
    assert((prefix + b + rest).subrange(prefix.len() as int, (prefix.len() + b.len()) as int) =~= b);
}

/// A `u32` that a writer wrote after any bytes is read back from where it was written,
/// and reading moves past its four bytes.
pub proof fn lemma_u32_write_then_read(prefix: Seq<u8>, x: u32, rest: Seq<u8>)
    ensures
        read_u32(prefix + spec_u32_to_le_bytes(x) + rest, prefix.len() as int) == Some((x, prefix.len() + 4int)),
{
    lemma_written_at(prefix, spec_u32_to_le_bytes(x), rest);
    lemma_read_u32_at(prefix + spec_u32_to_le_bytes(x) + rest, prefix.len() as int, x);
}

/// A string that a writer wrote after any bytes, short enough for its 32-bit length
/// prefix, is read back from where it was written, and reading moves past its
/// length prefix and bytes.
pub proof fn lemma_str_write_then_read(prefix: Seq<u8>, s: Seq<char>, rest: Seq<u8>)
    requires
        str_fits(s),
    ensures
        read_str(prefix + enc_str(s) + rest, prefix.len() as int) == Some((s, prefix.len() + 4int + encode_utf8(s).len())),
{
    lemma_written_at(prefix, enc_str(s), rest);
    lemma_read_str_at(prefix + enc_str(s) + rest, prefix.len() as int, s);
    lemma_auto_spec_u32_to_from_le_bytes();
}

proof fn lemma_read_strs_at(data: Seq<u8>, pos: int, s: Seq<Seq<char>>)
    requires
        bytes_at(data, pos, enc_strs(s)),
        forall|k: int| 0 <= k < s.len() ==> str_fits(#[trigger] s[k]),
    ensures
        read_strs(data, pos, s.len()) == Some((s, pos + enc_strs(s).len())),
    decreases s.len(),
{
    if s.len() > 0 {
        let init = s.drop_last();
        lemma_at_split(data, pos, enc_strs(init), enc_str(s.last()));
        assert forall|k: int| 0 <= k < init.len() implies str_fits(#[trigger] init[k]) by {
            assert(init[k] == s[k]);
        }
        lemma_read_strs_at(data, pos, init);
        lemma_read_str_at(data, pos + enc_strs(init).len(), s.last());
        assert(init.push(s.last()) =~= s);
    }
}

proof fn lemma_read_dirs_at(data: Seq<u8>, pos: int, s: Seq<DirStampView>)
    requires
        bytes_at(data, pos, enc_dirs(s)),
        forall|k: int| 0 <= k < s.len() ==> str_fits(#[trigger] s[k].path),
    ensures
        read_dirs(data, pos, s.len()) == Some((s, pos + enc_dirs(s).len())),
    decreases s.len(),
{
    if s.len() > 0 {
        let init = s.drop_last();
        let d = s.last();
        lemma_at_split(data, pos, enc_dirs(init), enc_dir(d));
        assert forall|k: int| 0 <= k < init.len() implies str_fits(#[trigger] init[k].path) by {
            assert(init[k] == s[k]);
        }
        lemma_read_dirs_at(data, pos, init);
        let p = pos + enc_dirs(init).len();
        lemma_at_split(data, p, enc_str(d.path), enc_mtime(d.mtime));
        lemma_read_str_at(data, p, d.path);
        lemma_read_mtime_at(data, p + enc_str(d.path).len(), d.mtime);
        assert(init.push(d) =~= s);
    }
}

proof fn lemma_read_files_at(data: Seq<u8>, pos: int, s: Seq<FileStampView>)
    requires
        bytes_at(data, pos, enc_files(s)),
        forall|k: int| 0 <= k < s.len() ==> str_fits(#[trigger] s[k].path),
    ensures
        read_files(data, pos, s.len()) == Some((s, pos + enc_files(s).len())),
    decreases s.len(),
{
    if s.len() > 0 {
        let init = s.drop_last();
        let f = s.last();
        lemma_at_split(data, pos, enc_files(init), enc_file(f));
        assert forall|k: int| 0 <= k < init.len() implies str_fits(#[trigger] init[k].path) by {
            assert(init[k] == s[k]);
        }
        lemma_read_files_at(data, pos, init);
        let p = pos + enc_files(init).len();
        lemma_at_split(data, p, enc_str(f.path) + enc_mtime(f.mtime), spec_u64_to_le_bytes(f.len));
        lemma_at_split(data, p, enc_str(f.path), enc_mtime(f.mtime));
        lemma_read_str_at(data, p, f.path);
        lemma_read_mtime_at(data, p + enc_str(f.path).len(), f.mtime);
        lemma_read_u64_at(data, p + enc_str(f.path).len() + enc_mtime(f.mtime).len(), f.len);
        assert(init.push(f) =~= s);
    }
}

proof fn lemma_read_face_at(data: Seq<u8>, pos: int, f: FaceRecordView, n_files: nat)
    requires
        bytes_at(data, pos, enc_face(f)),
        face_wf(f, n_files),
    ensures
        read_face(data, pos, n_files) == Some((f, pos + enc_face(f).len())),
{
    lemma_auto_spec_u32_to_from_le_bytes();
    let a = spec_u32_to_le_bytes(f.file_index);
    let b = spec_u32_to_le_bytes(f.index);
    let c = spec_u32_to_le_bytes(f.families.len() as u32);
    let d = enc_strs(f.families);
    let e = enc_face_tail(f);
    lemma_at_split(data, pos, a + b + c + d, e);
    lemma_at_split(data, pos, a + b + c, d);
    lemma_at_split(data, pos, a + b, c);
    lemma_at_split(data, pos, a, b);
    lemma_read_u32_at(data, pos, f.file_index);
    lemma_read_u32_at(data, pos + 4, f.index);
    lemma_read_u32_at(data, pos + 8, f.families.len() as u32);
    lemma_read_strs_at(data, pos + 12, f.families);
    let p4 = pos + 12 + d.len();
    let s1 = enc_str(f.post_script_name);
    let s2 = seq![spec_style_code(f.style)];
    let s3 = spec_u16_to_le_bytes(f.weight);
    let s4 = seq![spec_stretch_number(f.stretch) as u8];
    let s5 = seq![
        if f.monospaced {
            1u8
        } else {
            0u8
        },
    ];
    lemma_auto_spec_u16_to_from_le_bytes();
    lemma_at_split(data, p4, s1 + s2 + s3 + s4, s5);
    lemma_at_split(data, p4, s1 + s2 + s3, s4);
    lemma_at_split(data, p4, s1 + s2, s3);
    lemma_at_split(data, p4, s1, s2);
    lemma_read_str_at(data, p4, f.post_script_name);
    lemma_read_u8_at(data, p4 + s1.len(), spec_style_code(f.style));
    lemma_read_u16_at(data, p4 + s1.len() + 1, f.weight);
    lemma_read_u8_at(data, p4 + s1.len() + 3, spec_stretch_number(f.stretch) as u8);
    lemma_read_u8_at(data, p4 + s1.len() + 4, s5[0]);
    lemma_style_stretch_codes(f.style, f.stretch, 0);
}

proof fn lemma_read_faces_at(data: Seq<u8>, pos: int, s: Seq<FaceRecordView>, n_files: nat)
    requires
        bytes_at(data, pos, enc_faces(s)),
        forall|k: int| 0 <= k < s.len() ==> face_wf(#[trigger] s[k], n_files),
    ensures
        read_faces(data, pos, s.len(), n_files) == Some((s, pos + enc_faces(s).len())),
    decreases s.len(),
{
    if s.len() > 0 {
        let init = s.drop_last();
        lemma_at_split(data, pos, enc_faces(init), enc_face(s.last()));
        assert forall|k: int| 0 <= k < init.len() implies face_wf(#[trigger] init[k], n_files) by {
            assert(init[k] == s[k]);
        }
        lemma_read_faces_at(data, pos, init, n_files);
        lemma_read_face_at(data, pos + enc_faces(init).len(), s.last(), n_files);
        assert(init.push(s.last()) =~= s);
    }
}

/// Reading a written cache gives back exactly what was written, whatever bytes
/// follow it.
pub proof fn lemma_index_roundtrip(v: FontIndexView, rest: Seq<u8>)
    requires
        index_wf(v),
    ensures
        read_index(enc_index(v) + rest) == Some(v),
{
    lemma_auto_spec_u32_to_from_le_bytes();
    let data = enc_index(v) + rest;
    let m = magic();
    let a = spec_u32_to_le_bytes(VERSION);
    let b = spec_u32_to_le_bytes(v.dirs.len() as u32);
    let c = enc_dirs(v.dirs);
    let d = spec_u32_to_le_bytes(v.files.len() as u32);
    let e = enc_files(v.files);
    let f = spec_u32_to_le_bytes(v.faces.len() as u32);
    let g = enc_faces(v.faces);
    assert(bytes_at(data, 0, enc_index(v))) by {
        assert(data.subrange(0, enc_index(v).len() as int) =~= enc_index(v));
    }
    lemma_at_split(data, 0, m + a + b + c + d + e + f, g);
    lemma_at_split(data, 0, m + a + b + c + d + e, f);
    lemma_at_split(data, 0, m + a + b + c + d, e);
    lemma_at_split(data, 0, m + a + b + c, d);
    lemma_at_split(data, 0, m + a + b, c);
    lemma_at_split(data, 0, m + a, b);
    lemma_at_split(data, 0, m, a);
    lemma_read_u32_at(data, 4, VERSION);
    lemma_read_u32_at(data, 8, v.dirs.len() as u32);
    lemma_read_dirs_at(data, 12, v.dirs);
    let p3: int = 12 + c.len() as int;
    lemma_read_u32_at(data, p3, v.files.len() as u32);
    lemma_read_files_at(data, p3 + 4, v.files);
    let p5: int = p3 + 4 + e.len();
    lemma_read_u32_at(data, p5, v.faces.len() as u32);
    lemma_read_faces_at(data, p5 + 4, v.faces, v.files.len());
}

// ---------------------------------------------------------------------------------
// Checking a loaded cache against the file system.

/// Whether every stored directory and file fingerprint matches what was observed on
/// disk now (`None` where the directory or file is missing).
pub open spec fn spec_index_fresh(
    v: FontIndexView,
    dir_mtimes: Seq<Option<(u64, u32)>>,
    file_stamps: Seq<Option<((u64, u32), u64)>>,
) -> bool {
    &&& forall|i: int| 0 <= i < v.dirs.len() ==> #[trigger] dir_mtimes[i] == Some(v.dirs[i].mtime)
    &&& forall|j: int|
        0 <= j < v.files.len() ==> #[trigger] file_stamps[j] == Some(
            (v.files[j].mtime, v.files[j].len),
        )
}

/// A loaded cache may be used only when every directory's modification time and
/// every file's modification time and size are unchanged.
pub fn index_is_fresh(
    index: &FontIndex,
    dir_mtimes: &Vec<Option<(u64, u32)>>,
    file_stamps: &Vec<Option<((u64, u32), u64)>>,
) -> (fresh: bool)
    requires
        dir_mtimes@.len() == index.dirs@.len(),
        file_stamps@.len() == index.files@.len(),
    ensures
        fresh == spec_index_fresh(index@, dir_mtimes@, file_stamps@),
{
    let n = index.dirs.len();
    let mut i: usize = 0;
    while i < n
        invariant
            n == index.dirs@.len(),
            dir_mtimes@.len() == n,
            i <= n,
            forall|k: int| 0 <= k < i ==> #[trigger] dir_mtimes@[k] == Some(index@.dirs[k].mtime),
        decreases n - i,
    {
        let expected = index.dirs[i].mtime;
        match dir_mtimes[i] {
            Some(m) => {
                if m.0 != expected.0 || m.1 != expected.1 {
                    return false;
                }
            },
            None => {
                return false;
            },
        }
        i = i + 1;
    }
    let n = index.files.len();
    let mut j: usize = 0;
    while j < n
        invariant
            n == index.files@.len(),
            file_stamps@.len() == n,
            j <= n,
            forall|k: int| 0 <= k < index@.dirs.len() ==> #[trigger] dir_mtimes@[k] == Some(
                index@.dirs[k].mtime,
            ),
            forall|k: int|
                0 <= k < j ==> #[trigger] file_stamps@[k] == Some(
                    (index@.files[k].mtime, index@.files[k].len),
                ),
        decreases n - j,
    {
        let f = &index.files[j];
        match file_stamps[j] {
            Some(stamp) => {
                if stamp.0.0 != f.mtime.0 || stamp.0.1 != f.mtime.1 || stamp.1 != f.len {
                    return false;
                }
            },
            None => {
                return false;
            },
        }
        j = j + 1;
    }
    true
}

// ---------------------------------------------------------------------------------
// Building a cache from the faces of a font database.

/// A face of the font database: its file path if it is backed by a file (faces loaded
/// from memory are not persisted), and its metadata.
pub struct FaceInfo {
    pub path: Option<String>,
    pub index: u32,
    pub families: Vec<String>,
    pub post_script_name: String,
    pub style: Style,
    pub weight: Weight,
    pub stretch: Stretch,
    pub monospaced: bool,
}

pub struct FaceInfoView {
    pub path: Option<Seq<char>>,
    pub index: u32,
    pub families: Seq<Seq<char>>,
    pub post_script_name: Seq<char>,
    pub style: Style,
    pub weight: u16,
    pub stretch: Stretch,
    pub monospaced: bool,
}

impl View for FaceInfo {
    type V = FaceInfoView;

    open spec fn view(&self) -> FaceInfoView {
        FaceInfoView {
            path: match self.path {
                Some(p) => Some(p@),
                None => None,
            },
            index: self.index,
            families: string_views(self.families@),
            post_script_name: self.post_script_name@,
            style: self.style,
            weight: self.weight.0,
            stretch: self.stretch,
            monospaced: self.monospaced,
        }
    }
}

pub open spec fn face_info_views(s: Seq<FaceInfo>) -> Seq<FaceInfoView> {
    s.map_values(|x: FaceInfo| x@)
}

pub open spec fn no_dups(s: Seq<Seq<char>>) -> bool {
    forall|i: int, j: int| 0 <= i < s.len() && 0 <= j < s.len() && i != j ==> s[i] != s[j]
}

/// The position of `x` in a list where it occurs.
pub open spec fn position_of(s: Seq<Seq<char>>, x: Seq<char>) -> int {
    choose|k: int| 0 <= k < s.len() && s[k] == x
}

/// The record stored for a file-backed face whose file has index `file_index`.
pub open spec fn record_of(f: FaceInfoView, file_index: u32) -> FaceRecordView {
    FaceRecordView {
        file_index,
        index: f.index,
        families: f.families,
        post_script_name: f.post_script_name,
        style: f.style,
        weight: f.weight,
        stretch: f.stretch,
        monospaced: f.monospaced,
    }
}

/// Files listed in order of first use, and one record per file-backed face, in order,
/// naming its file by position in that list.
pub open spec fn plan(s: Seq<FaceInfoView>) -> (Seq<Seq<char>>, Seq<FaceRecordView>)
    decreases s.len(),
{
    if s.len() == 0 {
        (Seq::<Seq<char>>::empty(), Seq::<FaceRecordView>::empty())
    } else {
        let (files, records) = plan(s.drop_last());
        let f = s.last();
        match f.path {
            None => (files, records),
            Some(p) => if files.contains(p) {
                (files, records.push(record_of(f, position_of(files, p) as u32)))
            } else {
                (files.push(p), records.push(record_of(f, files.len() as u32)))
            },
        }
    }
}

/// Lists the font files of the file-backed faces (each once, in order of first use)
/// and makes the record of each such face, naming its file by index.
pub fn plan_index_files(faces: &Vec<FaceInfo>) -> (res: (Vec<String>, Vec<FaceRecord>))
    ensures
        (string_views(res.0@), face_views(res.1@)) == plan(face_info_views(faces@)),
        no_dups(string_views(res.0@)),
{
    let ghost src = face_info_views(faces@);
    let mut files: Vec<String> = Vec::new();
    let mut records: Vec<FaceRecord> = Vec::new();
    let n = faces.len();
    let mut i: usize = 0;
    while i < n
        invariant
            n == faces@.len(),
            src == face_info_views(faces@),
            i <= n,
            (string_views(files@), face_views(records@)) == plan(src.take(i as int)),
            no_dups(string_views(files@)),
        decreases n - i,
    {
        let face = &faces[i];
        assert(src.take(i + 1).drop_last() =~= src.take(i as int));
        assert(src.take(i + 1).last() == face@);
        match &face.path {
            None => {},
            Some(path) => {
                let ghost fv = string_views(files@);
                let mut k: usize = 0;
                let m = files.len();
                while k < m
                    invariant
                        m == files@.len(),
                        fv == string_views(files@),
                        k <= m,
                        forall|t: int| 0 <= t < k ==> fv[t] != path@,
                    ensures
                        k <= m,
                        k < m ==> fv[k as int] == path@,
                        forall|t: int| 0 <= t < k ==> fv[t] != path@,
                    decreases m - k,
                {
                    if files[k] == *path {
                        break;
                    }
                    k = k + 1;
                }
                let file_index: u32;
                if k < m {
                    assert(fv[k as int] == path@);
                    assert(fv.contains(path@));
                    proof {
                        let c = position_of(fv, path@);
                        assert(fv[c] == path@);
                        assert(c == k);
                    }
                    file_index = k as u32;
                } else {
                    assert(!fv.contains(path@));
                    file_index = files.len() as u32;
                    files.push(path.clone());
                    assert(string_views(files@) =~= fv.push(path@));
                }
                let ghost before = records@;
                let record = FaceRecord {
                    file_index,
                    index: face.index,
                    families: face.families.clone(),
                    post_script_name: face.post_script_name.clone(),
                    style: face.style,
                    weight: face.weight,
                    stretch: face.stretch,
                    monospaced: face.monospaced,
                };
                assert(string_views(record.families@) =~= string_views(face.families@));
                records.push(record);
                assert(face_views(records@) =~= face_views(before).push(record@));
            },
        }
        i = i + 1;
    }
    assert(src.take(n as int) =~= src);
    (files, records)
}

/// Every planned record names a file of the plan, and that file is the face's own.
pub proof fn lemma_plan_records_name_their_files(s: Seq<FaceInfoView>)
    ensures
        no_dups(plan(s).0) ==> forall|k: int|
            0 <= k < plan(s).1.len() ==> (#[trigger] plan(s).1[k]).file_index < plan(s).0.len(),
    decreases s.len(),
{
    if s.len() > 0 {
        lemma_plan_records_name_their_files(s.drop_last());
        lemma_plan_files_grow(s.drop_last());
        let (files, records) = plan(s.drop_last());
        let f = s.last();
        if no_dups(plan(s).0) {
            match f.path {
                None => {},
                Some(p) => {
                    if files.contains(p) {
                        let c = position_of(files, p);
                        assert(0 <= c < files.len());
                    } else {
                        assert forall|i: int, j: int|
                            0 <= i < files.len() && 0 <= j < files.len() && i != j implies files[i]
                            != files[j] by {
                            assert(plan(s).0[i] == files[i]);
                            assert(plan(s).0[j] == files[j]);
                        }
                    }
                    assert forall|k: int| 0 <= k < plan(s).1.len() implies (#[trigger] plan(
                        s,
                    ).1[k]).file_index < plan(s).0.len() by {
                        if k < records.len() {
                            assert(plan(s).1[k] == records[k]);
                        }
                    }
                },
            }
        }
    }
}

proof fn lemma_plan_files_grow(s: Seq<FaceInfoView>)
    ensures
        plan(s).0.len() <= s.len(),
        plan(s).1.len() <= s.len(),
    decreases s.len(),
{
    if s.len() > 0 {
        lemma_plan_files_grow(s.drop_last());
    }
}

pub open spec fn is_prefix(a: Seq<char>, b: Seq<char>) -> bool {
    a.len() <= b.len() && a == b.subrange(0, a.len() as int)
}

/// `d` is a prefix of one of the paths.
pub open spec fn prefix_of_some(d: Seq<char>, paths: Seq<String>) -> bool {
    exists|f: int| 0 <= f < paths.len() && is_prefix(d, #[trigger] paths[f]@)
}

/// A path separator on some platform.
pub open spec fn is_separator(c: char) -> bool {
    c == '/' || c == '\\'
}

/// The text after the last separator of a path.
pub open spec fn last_component(p: Seq<char>) -> Seq<char>
    decreases p.len(),
{
    if p.len() == 0 || is_separator(p.last()) {
        Seq::empty()
    } else {
        last_component(p.drop_last()).push(p.last())
    }
}

/// A path that certainly has a parent on every platform: it is not empty, does not
/// end with a separator, its last component is neither `.` nor `..` (a `.` after a
/// root is dropped, leaving the root alone), it holds no drive or prefix colon, and
/// it does not start with two separators (a network share); so its last component is
/// an ordinary name, neither a root nor a prefix.
pub open spec fn has_parent_form(p: Seq<char>) -> bool {
    &&& p.len() > 0
    &&& !is_separator(p.last())
    &&& last_component(p) != seq!['.']
    &&& last_component(p) != seq!['.', '.']
    &&& !p.contains(':')
    &&& !(p.len() >= 2 && is_separator(p[0]) && is_separator(p[1]))
}

/// A path written plainly with `/`: it has a parent, holds no `\\`, no two separators
/// in a row and no `.` component after its start; so its components are exactly the
/// texts between its separators, on every platform.
pub open spec fn plain_path(p: Seq<char>) -> bool {
    &&& has_parent_form(p)
    &&& !p.contains('\\')
    &&& forall|i: int| 0 <= i < p.len() - 1 && #[trigger] p[i] == '/' ==> p[i + 1] != '/'
    &&& forall|i: int| 0 <= i < p.len() - 2 && #[trigger] p[i] == '/' ==> !(p[i + 1] == '.' && p[i + 2] == '/')
}

/// The parent of a plain path: the text before its last separator, the root `/` where
/// that separator is the first character, and the empty text where there is none.
pub open spec fn parent_text(p: Seq<char>) -> Seq<char> {
    let n = p.len() - last_component(p).len();
    if n <= 1 {
        p.take(n)
    } else {
        p.take(n - 1)
    }
}

/// The last component is the end of the path, and a separator stands just before it
/// where the path is longer.
proof fn lemma_last_component_suffix(p: Seq<char>)
    ensures
        last_component(p).len() <= p.len(),
        last_component(p) == p.skip(p.len() - last_component(p).len()),
        last_component(p).len() < p.len() ==> is_separator(p[p.len() - last_component(p).len() - 1]),
        forall|j: int| 0 <= j < last_component(p).len() ==> !is_separator(#[trigger] last_component(p)[j]),
    decreases p.len(),
{
    if p.len() > 0 && !is_separator(p.last()) {
        let q = p.drop_last();
        lemma_last_component_suffix(q);
        let lq = last_component(q);
        assert(last_component(p) == lq.push(p.last()));
        assert(p.skip(p.len() - lq.len() - 1) =~= q.skip(q.len() - lq.len()).push(p.last()));
        assert forall|j: int| 0 <= j < last_component(p).len() implies !is_separator(
            #[trigger] last_component(p)[j],
        ) by {
            if j < lq.len() {
                assert(last_component(p)[j] == lq[j]);
            }
        }
        if last_component(p).len() < p.len() {
            assert(p[p.len() - last_component(p).len() - 1] == q[q.len() - lq.len() - 1]);
        }
    } else if p.len() > 0 {
        assert(p.skip(p.len() as int) =~= Seq::<char>::empty());
    } else {
        assert(p.skip(0) =~= p);
    }
}

/// A plain path is its parent, a `/` unless the parent is the root or empty, and its
/// last component, which is not empty and holds no separator; the parent ends in no
/// separator unless it is the root.
pub proof fn lemma_plain_path_parts(p: Seq<char>)
    requires
        plain_path(p),
    ensures
        ({
            let d = parent_text(p);
            let name = last_component(p);
            &&& name.len() > 0
            &&& forall|j: int| 0 <= j < name.len() ==> !is_separator(#[trigger] name[j])
            &&& d.len() == 0 ==> p == name
            &&& d == seq!['/'] ==> p == d + name
            &&& d.len() > 0 && d != seq!['/'] ==> p == d + seq!['/'] + name && d.last() != '/'
            &&& d.len() > 0 ==> is_prefix(d, p)
        }),
{
    lemma_last_component_suffix(p);
    let name = last_component(p);
    let n = p.len() - name.len();
    let d = parent_text(p);
    assert(name.len() > 0) by {
        if name.len() == 0 {
            if p.len() > 0 {
                assert(!is_separator(p.last()));
                assert(last_component(p) == last_component(p.drop_last()).push(p.last()));
            }
        }
    }
    if n == 0 {
        assert(p.skip(0) =~= p);
        assert(d =~= Seq::<char>::empty());
    } else if n == 1 {
        assert(p[0] == '/') by {
            assert(is_separator(p[0]));
            if p[0] == '\\' {
                assert(p.contains('\\'));
            }
        }
        assert(d =~= seq!['/']);
        assert(p =~= d + name);
    } else {
        assert(p[n - 1] == '/') by {
            if p[n - 1] == '\\' {
                assert(p.contains('\\'));
            }
        }
        assert(p =~= d + seq!['/'] + name);
        assert(d.last() != '/') by {
            if p[n - 2] == '/' {
                assert(p[n - 1] != '/');
            }
        }
        assert(d.len() > 0 && d != seq!['/']) by {
            if d == seq!['/'] {
                assert(d.len() == 1);
            }
        }
    }
    if d.len() > 0 {
        assert(is_prefix(d, p)) by {
            assert(p.take(d.len() as int) =~= d);
        }
    }
}

/// `Path::parent` of a path given as a string, in its lossy string form. The parent of
/// a path is the path with its last component removed, so it is a prefix of it; it is
/// missing only where the path is empty or ends in a root or a prefix, which a path
/// of `has_parent_form` does not. For a plain path the components are the texts
/// between separators, so the parent is `parent_text`. Where a path repeats
/// separators, holds `.` components or `\\`, how it splits into components depends
/// on the platform, and only the prefix is stated.
#[verifier::external_body]
fn path_parent(path: &str) -> (r: Option<String>)
    ensures
        r matches Some(q) ==> is_prefix(q@, path@),
        has_parent_form(path@) ==> r is Some,
        plain_path(path@) ==> r is Some && r->0@ == parent_text(path@),
{
    match std::path::Path::new(path).parent() {
        Some(parent) => Some(parent.to_string_lossy().into_owned()),
        None => None,
    }
}

/// Optional texts as values.
pub open spec fn opt_views(s: Seq<Option<String>>) -> Seq<Option<Seq<char>>> {
    s.map_values(|o: Option<String>| match o {
        Some(x) => Some(x@),
        None => None,
    })
}

/// The texts present in `ps`, each once, in order of first appearance.
pub open spec fn first_uses(ps: Seq<Option<Seq<char>>>) -> Seq<Seq<char>>
    decreases ps.len(),
{
    if ps.len() == 0 {
        Seq::empty()
    } else {
        let prev = first_uses(ps.drop_last());
        match ps.last() {
            Some(p) => if prev.contains(p) {
                prev
            } else {
                prev.push(p)
            },
            None => prev,
        }
    }
}

/// What `first_uses` keeps: no text twice, each one present in `ps`, and every text
/// present in `ps` kept.
proof fn lemma_first_uses(ps: Seq<Option<Seq<char>>>)
    ensures
        no_dups(first_uses(ps)),
        forall|d: int|
            0 <= d < first_uses(ps).len() ==> exists|i: int|
                0 <= i < ps.len() && ps[i] == Some(#[trigger] first_uses(ps)[d]),
        forall|i: int| 0 <= i < ps.len() && (#[trigger] ps[i]) is Some ==> first_uses(ps).contains(ps[i]->0),
    decreases ps.len(),
{
    if ps.len() > 0 {
        let init = ps.drop_last();
        lemma_first_uses(init);
        let prev = first_uses(init);
        assert forall|i: int| 0 <= i < init.len() implies #[trigger] init[i] == ps[i] by {}
        if let Some(p) = ps.last() {
            if !prev.contains(p) {
                let cur = prev.push(p);
                assert forall|d: int| 0 <= d < cur.len() implies exists|i: int|
                    0 <= i < ps.len() && ps[i] == Some(#[trigger] cur[d]) by {
                    if d < prev.len() {
                        let i = choose|i: int| 0 <= i < init.len() && init[i] == Some(prev[d]);
                        assert(ps[i] == Some(cur[d]));
                    } else {
                        assert(ps[ps.len() - 1] == Some(cur[d]));
                    }
                }
                assert forall|i: int| 0 <= i < ps.len() && (#[trigger] ps[i]) is Some implies cur.contains(ps[i]->0) by {
                    if i < init.len() {
                        assert(init[i] == ps[i]);
                        let k = choose|k: int| 0 <= k < prev.len() && prev[k] == init[i]->0;
                        assert(cur[k] == prev[k]);
                    } else {
                        assert(cur[prev.len() as int] == p);
                    }
                }
            } else {
                assert forall|d: int| 0 <= d < prev.len() implies exists|i: int|
                    0 <= i < ps.len() && ps[i] == Some(#[trigger] prev[d]) by {
                    let i = choose|i: int| 0 <= i < init.len() && init[i] == Some(prev[d]);
                    assert(ps[i] == Some(prev[d]));
                }
                assert forall|i: int| 0 <= i < ps.len() && (#[trigger] ps[i]) is Some implies prev.contains(ps[i]->0) by {
                    if i < init.len() {
                        assert(init[i] == ps[i]);
                    }
                }
            }
        } else {
            assert forall|d: int| 0 <= d < prev.len() implies exists|i: int|
                0 <= i < ps.len() && ps[i] == Some(#[trigger] prev[d]) by {
                let i = choose|i: int| 0 <= i < init.len() && init[i] == Some(prev[d]);
                assert(ps[i] == Some(prev[d]));
            }
            assert forall|i: int| 0 <= i < ps.len() && (#[trigger] ps[i]) is Some implies prev.contains(ps[i]->0) by {
                if i < init.len() {
                    assert(init[i] == ps[i]);
                }
            }
        }
    }
}

/// The directories given, each once, in order of first appearance; a file with no
/// parent directory (`None`) gives none.
pub fn unique_dirs(parents: &Vec<Option<String>>) -> (dirs: Vec<String>)
    ensures
        string_views(dirs@) == first_uses(opt_views(parents@)),
{
    let ghost pv = opt_views(parents@);
    let mut dirs: Vec<String> = Vec::new();
    let n = parents.len();
    let mut i: usize = 0;
    while i < n
        invariant
            n == parents@.len(),
            pv == opt_views(parents@),
            i <= n,
            string_views(dirs@) == first_uses(pv.take(i as int)),
        decreases n - i,
    {
        proof {
            assert(pv.take(i + 1).drop_last() =~= pv.take(i as int));
            assert(pv.take(i + 1).last() == pv[i as int]);
        }
        match &parents[i] {
            None => {},
            Some(parent) => {
                let ghost dv = string_views(dirs@);
                let m = dirs.len();
                let mut k: usize = 0;
                while k < m
                    invariant
                        m == dirs@.len(),
                        dv == string_views(dirs@),
                        k <= m,
                        forall|t: int| 0 <= t < k ==> dv[t] != parent@,
                    ensures
                        k <= m,
                        k < m ==> dv[k as int] == parent@,
                        forall|t: int| 0 <= t < k ==> dv[t] != parent@,
                    decreases m - k,
                {
                    if dirs[k] == *parent {
                        break;
                    }
                    k = k + 1;
                }
                if k == m {
                    dirs.push(parent.clone());
                    proof {
                        assert(string_views(dirs@) =~= dv.push(parent@));
                        assert(!dv.contains(parent@));
                    }
                } else {
                    proof {
                        assert(dv.contains(parent@));
                    }
                }
            },
        }
        i = i + 1;
    }
    proof {
        assert(pv.take(n as int) =~= pv);
    }
    dirs
}

/// The directories that directly contain the given font files, each once, in order
/// of first use: the parents that `path_parent` gives, where it gives one, which it
/// does for every path of `has_parent_form`.
pub fn index_dirs(files: &Vec<String>) -> (dirs: Vec<String>)
    ensures
        no_dups(string_views(dirs@)),
        forall|d: int|
            #![trigger dirs@[d]]
            0 <= d < dirs@.len() ==> prefix_of_some(dirs@[d]@, files@),
        exists|ps: Seq<Option<Seq<char>>>|
            {
                &&& ps.len() == files@.len()
                &&& forall|i: int|
                    0 <= i < ps.len() ==> (#[trigger] ps[i] matches Some(p) ==> is_prefix(p, files@[i]@))
                &&& forall|i: int| 0 <= i < ps.len() && has_parent_form(files@[i]@) ==> (#[trigger] ps[i]) is Some
                &&& forall|i: int|
                    0 <= i < ps.len() && plain_path(files@[i]@) ==> (#[trigger] ps[i]) == Some(
                        parent_text(files@[i]@),
                    )
                &&& string_views(dirs@) == first_uses(ps)
            },
        (forall|i: int| 0 <= i < files@.len() ==> plain_path(#[trigger] files@[i]@)) ==> string_views(
            dirs@,
        ) == first_uses(files@.map_values(|f: String| Some(parent_text(f@)))),
{
    let mut parents: Vec<Option<String>> = Vec::new();
    let n = files.len();
    let mut i: usize = 0;
    while i < n
        invariant
            n == files@.len(),
            i <= n,
            parents@.len() == i,
            forall|j: int|
                0 <= j < i ==> (#[trigger] opt_views(parents@)[j] matches Some(p) ==> is_prefix(p, files@[j]@)),
            forall|j: int| 0 <= j < i && has_parent_form(files@[j]@) ==> (#[trigger] opt_views(parents@)[j]) is Some,
            forall|j: int|
                0 <= j < i && plain_path(files@[j]@) ==> (#[trigger] opt_views(parents@)[j]) == Some(
                    parent_text(files@[j]@),
                ),
        decreases n - i,
    {
        let p = path_parent(files[i].as_str());
        let ghost before = parents@;
        parents.push(p);
        proof {
            assert forall|j: int| 0 <= j < i + 1 implies #[trigger] opt_views(parents@)[j] == if j < i {
                opt_views(before)[j]
            } else {
                match p {
                    Some(x) => Some(x@),
                    None => None,
                }
            } by {
                if j < i {
                    assert(parents@[j] == before[j]);
                }
            }
        }
        i = i + 1;
    }
    let dirs = unique_dirs(&parents);
    proof {
        let ps = opt_views(parents@);
        lemma_first_uses(ps);
        assert forall|d: int|
            #![trigger dirs@[d]]
            0 <= d < dirs@.len() implies prefix_of_some(dirs@[d]@, files@) by {
            assert(string_views(dirs@)[d] == dirs@[d]@);
            let j = choose|j: int| 0 <= j < ps.len() && ps[j] == Some(#[trigger] first_uses(ps)[d]);
            assert(is_prefix(dirs@[d]@, files@[j]@));
        }
        if forall|i: int| 0 <= i < files@.len() ==> plain_path(#[trigger] files@[i]@) {
            assert(ps =~= files@.map_values(|f: String| Some(parent_text(f@))));
        }
    }
    dirs
}

/// The cache content for the given directories, files and face records, with the
/// fingerprints observed on disk; a directory or file that could not be inspected
/// is stored with zero times and size.
pub fn assemble_index(
    dirs: &Vec<String>,
    dir_mtimes: &Vec<Option<(u64, u32)>>,
    files: &Vec<String>,
    file_stamps: &Vec<Option<((u64, u32), u64)>>,
    faces: Vec<FaceRecord>,
) -> (index: FontIndex)
    requires
        dir_mtimes@.len() == dirs@.len(),
        file_stamps@.len() == files@.len(),
    ensures
        index.dirs@.len() == dirs@.len(),
        index.files@.len() == files@.len(),
        forall|i: int|
            0 <= i < dirs@.len() ==> (#[trigger] index@.dirs[i]) == (DirStampView {
                path: dirs@[i]@,
                mtime: match dir_mtimes@[i] {
                    Some(m) => m,
                    None => (0, 0),
                },
            }),
        forall|j: int|
            0 <= j < files@.len() ==> (#[trigger] index@.files[j]) == (match file_stamps@[j] {
                Some(s) => FileStampView { path: files@[j]@, mtime: s.0, len: s.1 },
                None => FileStampView { path: files@[j]@, mtime: (0, 0), len: 0 },
            }),
        index@.faces == face_views(faces@),
{
    let mut out_dirs: Vec<DirStamp> = Vec::new();
    let n = dirs.len();
    let mut i: usize = 0;
    while i < n
        invariant
            n == dirs@.len(),
            dir_mtimes@.len() == n,
            i <= n,
            out_dirs@.len() == i,
            forall|k: int|
                0 <= k < i ==> (#[trigger] out_dirs@[k])@ == (DirStampView {
                    path: dirs@[k]@,
                    mtime: match dir_mtimes@[k] {
                        Some(m) => m,
                        None => (0, 0),
                    },
                }),
        decreases n - i,
    {
        let mtime = match dir_mtimes[i] {
            Some(m) => m,
            None => (0, 0),
        };
        out_dirs.push(DirStamp { path: dirs[i].clone(), mtime });
        i = i + 1;
    }
    let mut out_files: Vec<FileStamp> = Vec::new();
    let n = files.len();
    let mut j: usize = 0;
    while j < n
        invariant
            n == files@.len(),
            file_stamps@.len() == n,
            j <= n,
            out_files@.len() == j,
            forall|k: int|
                0 <= k < j ==> (#[trigger] out_files@[k])@ == (match file_stamps@[k] {
                    Some(s) => FileStampView { path: files@[k]@, mtime: s.0, len: s.1 },
                    None => FileStampView { path: files@[k]@, mtime: (0, 0), len: 0 },
                }),
        decreases n - j,
    {
        let (mtime, len) = match file_stamps[j] {
            Some(s) => s,
            None => ((0, 0), 0),
        };
        out_files.push(FileStamp { path: files[j].clone(), mtime, len });
        j = j + 1;
    }
    FontIndex { dirs: out_dirs, files: out_files, faces }
}

} // verus!
