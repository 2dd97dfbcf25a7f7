use cosmic_text::attrs::{Stretch, Style, Weight};
use cosmic_text::byte_io::{Reader, Writer};
use cosmic_text::font_index::{
    assemble_index, decode_stretch, decode_style, encode_index, encode_style, index_dirs, unique_dirs,
    index_is_fresh, parse_index, plan_index_files, DirStamp, FaceInfo, FaceRecord, FileStamp,
    FontIndex,
};

fn sample_index() -> FontIndex {
    FontIndex {
        dirs: vec![DirStamp { path: "/usr/share/fonts".to_string(), mtime: (1_700_000_000, 5) }],
        files: vec![
            FileStamp {
                path: "/usr/share/fonts/a.ttf".to_string(),
                mtime: (1_700_000_001, 7),
                len: 12345,
            },
            FileStamp {
                path: "/usr/share/fonts/b\u{e9}.otf".to_string(),
                mtime: (3, 4),
                len: 0,
            },
        ],
        faces: vec![
            FaceRecord {
                file_index: 1,
                index: 2,
                families: vec!["Noto Sans".to_string(), "Noto".to_string()],
                post_script_name: "NotoSans-Bold".to_string(),
                style: Style::Italic,
                weight: Weight(700),
                stretch: Stretch::SemiExpanded,
                monospaced: true,
            },
            FaceRecord {
                file_index: 0,
                index: 0,
                families: vec![],
                post_script_name: String::new(),
                style: Style::Normal,
                weight: Weight(400),
                stretch: Stretch::Normal,
                monospaced: false,
            },
        ],
    }
}

fn same_index(a: &FontIndex, b: &FontIndex) -> bool {
    a.dirs.len() == b.dirs.len()
        && a.dirs.iter().zip(&b.dirs).all(|(x, y)| x.path == y.path && x.mtime == y.mtime)
        && a.files.len() == b.files.len()
        && a.files
            .iter()
            .zip(&b.files)
            .all(|(x, y)| x.path == y.path && x.mtime == y.mtime && x.len == y.len)
        && a.faces.len() == b.faces.len()
        && a.faces.iter().zip(&b.faces).all(|(x, y)| {
            x.file_index == y.file_index
                && x.index == y.index
                && x.families == y.families
                && x.post_script_name == y.post_script_name
                && x.style == y.style
                && x.weight == y.weight
                && x.stretch == y.stretch
                && x.monospaced == y.monospaced
        })
}

#[test]
fn index_roundtrip() {
    let index = sample_index();
    let bytes = encode_index(&index);
    let back = parse_index(&bytes).expect("written cache must parse");
    assert!(same_index(&index, &back));
    // Trailing bytes are ignored.
    let mut longer = bytes.clone();
    longer.extend_from_slice(&[1, 2, 3]);
    assert!(same_index(&index, &parse_index(&longer).unwrap()));
}

#[test]
fn index_header_layout() {
    let index = FontIndex { dirs: vec![], files: vec![], faces: vec![] };
    let bytes = encode_index(&index);
    assert_eq!(bytes, vec![b'C', b'T', b'F', b'C', 1, 0, 0, 0, 0, 0, 0, 0, 0, 0, 0, 0, 0, 0, 0, 0]);
}

#[test]
fn index_rejects_bad_input() {
    let bytes = encode_index(&sample_index());
    // Wrong magic.
    let mut bad = bytes.clone();
    bad[0] = b'X';
    assert!(parse_index(&bad).is_none());
    // Other version.
    let mut bad = bytes.clone();
    bad[4] = 2;
    assert!(parse_index(&bad).is_none());
    // Truncated anywhere.
    for cut in 0..bytes.len() {
        assert!(parse_index(&bytes[..cut]).is_none(), "cut at {}", cut);
    }
    assert!(parse_index(&[]).is_none());
}

#[test]
fn index_rejects_bad_codes_and_file_index() {
    let one_face = |file_index: u32, style: u8, stretch: u8| {
        let mut w = Writer::new();
        w.bytes(b"CTFC");
        w.u32(1);
        w.u32(0);
        w.u32(1);
        w.path("/f.ttf");
        w.mtime((1, 2));
        w.u64(3);
        w.u32(1);
        w.u32(file_index);
        w.u32(0);
        w.u32(0);
        w.string("PS");
        w.u8(style);
        w.u16(400);
        w.u8(stretch);
        w.u8(9);
        w.into_inner()
    };
    let ok = parse_index(&one_face(0, 2, 9)).unwrap();
    assert_eq!(ok.faces[0].style, Style::Oblique);
    assert_eq!(ok.faces[0].stretch, Stretch::UltraExpanded);
    // Any non-zero monospace byte reads as monospaced.
    assert!(ok.faces[0].monospaced);
    assert!(parse_index(&one_face(1, 0, 5)).is_none());
    assert!(parse_index(&one_face(0, 3, 5)).is_none());
    assert!(parse_index(&one_face(0, 0, 0)).is_none());
    assert!(parse_index(&one_face(0, 0, 10)).is_none());
}

#[test]
fn style_and_stretch_codes() {
    assert_eq!(encode_style(Style::Normal), 0);
    assert_eq!(encode_style(Style::Italic), 1);
    assert_eq!(encode_style(Style::Oblique), 2);
    for s in [Style::Normal, Style::Italic, Style::Oblique] {
        assert_eq!(decode_style(encode_style(s)), Some(s));
    }
    assert_eq!(decode_style(3), None);
    let all = [
        Stretch::UltraCondensed,
        Stretch::ExtraCondensed,
        Stretch::Condensed,
        Stretch::SemiCondensed,
        Stretch::Normal,
        Stretch::SemiExpanded,
        Stretch::Expanded,
        Stretch::ExtraExpanded,
        Stretch::UltraExpanded,
    ];
    for (i, s) in all.iter().enumerate() {
        assert_eq!(s.to_number(), i as u16 + 1);
        assert_eq!(decode_stretch(s.to_number() as u8), Some(*s));
    }
    assert_eq!(decode_stretch(0), None);
}

#[test]
fn writer_and_reader_primitives() {
    let mut w = Writer::new();
    w.u8(0xAB);
    w.u16(0x1234);
    w.u32(0xDEADBEEF);
    w.u64(0x0102030405060708);
    w.mtime((9, 10));
    w.string("h\u{e9}");
    let bytes = w.into_inner();
    assert_eq!(&bytes[..7], &[0xAB, 0x34, 0x12, 0xEF, 0xBE, 0xAD, 0xDE]);
    assert_eq!(&bytes[7..15], &[8, 7, 6, 5, 4, 3, 2, 1]);
    assert_eq!(&bytes[27..34], &[3, 0, 0, 0, b'h', 0xC3, 0xA9]);

    let mut r = Reader::new(&bytes);
    assert_eq!(r.u8(), Some(0xAB));
    assert_eq!(r.u16(), Some(0x1234));
    assert_eq!(r.u32(), Some(0xDEADBEEF));
    assert_eq!(r.u64(), Some(0x0102030405060708));
    assert_eq!(r.mtime(), Some((9, 10)));
    assert_eq!(r.string().as_deref(), Some("h\u{e9}"));
    assert_eq!(r.u8(), None);
    assert_eq!(r.take(0), Some(&[][..]));
}

#[test]
fn reader_rejects_invalid_utf8_and_truncation() {
    let data = [2, 0, 0, 0, 0xFF, 0xFE];
    let mut r = Reader::new(&data);
    assert_eq!(r.string(), None);
    let data = [5, 0, 0, 0, b'a'];
    let mut r = Reader::new(&data);
    assert_eq!(r.path(), None);
    let mut r = Reader::new(&data[..3]);
    assert_eq!(r.u32(), None);
    assert_eq!(r.take(3), Some(&data[..3]));
}

#[test]
fn freshness_check() {
    let index = sample_index();
    let dirs = vec![Some((1_700_000_000, 5))];
    let files = vec![Some(((1_700_000_001, 7), 12345)), Some(((3, 4), 0))];
    assert!(index_is_fresh(&index, &dirs, &files));
    assert!(!index_is_fresh(&index, &vec![None], &files));
    assert!(!index_is_fresh(&index, &vec![Some((1_700_000_000, 6))], &files));
    let changed = vec![Some(((1_700_000_001, 7), 12346)), Some(((3, 4), 0))];
    assert!(!index_is_fresh(&index, &dirs, &changed));
    let missing = vec![Some(((1_700_000_001, 7), 12345)), None];
    assert!(!index_is_fresh(&index, &dirs, &missing));
}

fn face(path: Option<&str>, name: &str) -> FaceInfo {
    FaceInfo {
        path: path.map(|p| p.to_string()),
        index: 0,
        families: vec![name.to_string()],
        post_script_name: name.to_string(),
        style: Style::Normal,
        weight: Weight(400),
        stretch: Stretch::Normal,
        monospaced: false,
    }
}

#[test]
fn planning_dedups_files_and_skips_memory_faces() {
    let faces = vec![
        face(Some("/a/x.ttf"), "X"),
        face(None, "Mem"),
        face(Some("/b/y.ttf"), "Y"),
        face(Some("/a/x.ttf"), "X2"),
    ];
    let (files, records) = plan_index_files(&faces);
    assert_eq!(files, vec!["/a/x.ttf".to_string(), "/b/y.ttf".to_string()]);
    assert_eq!(records.len(), 3);
    assert_eq!(records[0].file_index, 0);
    assert_eq!(records[1].file_index, 1);
    assert_eq!(records[2].file_index, 0);
    assert_eq!(records[2].post_script_name, "X2");

    let dirs = index_dirs(&files);
    assert_eq!(dirs, vec!["/a".to_string(), "/b".to_string()]);
    let dirs = index_dirs(&vec!["/a/x".to_string(), "/a/y".to_string(), "/".to_string()]);
    assert_eq!(dirs, vec!["/a".to_string()]);

    let index = assemble_index(
        &dirs,
        &vec![None],
        &files,
        &vec![Some(((5, 6), 7)), None],
        records,
    );
    assert_eq!(index.dirs[0].mtime, (0, 0));
    assert_eq!(index.files[0].mtime, (5, 6));
    assert_eq!(index.files[0].len, 7);
    assert_eq!(index.files[1].mtime, (0, 0));
    assert_eq!(index.files[1].len, 0);
    let back = parse_index(&encode_index(&index)).unwrap();
    assert!(same_index(&index, &back));
}

#[test]
fn parent_directories_each_once_in_order() {
    let parents = vec![Some("/a".to_string()), None, Some("/b".to_string()), Some("/a".to_string())];
    assert_eq!(unique_dirs(&parents), vec!["/a".to_string(), "/b".to_string()]);
    assert_eq!(unique_dirs(&vec![None, None]), Vec::<String>::new());
    // a bare file name has the empty parent; the root has none
    assert_eq!(index_dirs(&vec!["x.ttf".to_string(), "/".to_string()]), vec!["".to_string()]);
}
