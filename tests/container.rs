use docx_swap::container::{process_document, rewrite, RewriteError, DOCUMENT_ENTRY};
use docx_swap::dictionary::{Dictionary, Verdict};
use std::io::{Cursor, Read, Write};
use zip::write::SimpleFileOptions;
use zip::{CompressionMethod, ZipArchive, ZipWriter};

fn build(entries: &[(&str, CompressionMethod, &[u8])]) -> Vec<u8> {
    let mut w = ZipWriter::new(Cursor::new(Vec::new()));
    for (name, method, data) in entries {
        let options = SimpleFileOptions::default().compression_method(*method);
        w.start_file(*name, options).unwrap();
        w.write_all(data).unwrap();
    }
    w.finish().unwrap().into_inner()
}

fn read_all(bytes: &[u8]) -> Vec<(String, CompressionMethod, Vec<u8>)> {
    let mut a = ZipArchive::new(Cursor::new(bytes.to_vec())).unwrap();
    let mut out = Vec::new();
    for i in 0..a.len() {
        let mut f = a.by_index(i).unwrap();
        let mut data = Vec::new();
        f.read_to_end(&mut data).unwrap();
        out.push((f.name().to_string(), f.compression(), data));
    }
    out
}

fn pairs(list: &[(&str, &str)]) -> Vec<(String, String)> {
    list.iter().map(|(a, b)| (a.to_string(), b.to_string())).collect()
}

fn sample() -> Vec<u8> {
    build(&[
        ("[Content_Types].xml", CompressionMethod::Deflated, b"<Types>cat</Types>"),
        (DOCUMENT_ENTRY, CompressionMethod::Deflated, "<w:t>the cat sat 北京</w:t>".as_bytes()),
        ("word/media/image1.png", CompressionMethod::Stored, &[0x89, 0x50, 0xff, 0x00, 0x63]),
    ])
}

#[test]
fn rewrite_keeps_entries_and_methods() {
    let input = sample();
    let out = rewrite(&input, DOCUMENT_ENTRY, &pairs(&[("cat", "dog"), ("北京", "上海")]), false)
        .unwrap();
    let before = read_all(&input);
    let after = read_all(&out);
    assert_eq!(after.len(), 3);
    for (b, a) in before.iter().zip(after.iter()) {
        assert_eq!(b.0, a.0);
        assert_eq!(b.1, a.1);
    }
    assert_eq!(after[0].2, b"<Types>cat</Types>".to_vec());
    assert_eq!(after[1].2, "<w:t>the dog sat 上海</w:t>".as_bytes().to_vec());
    assert_eq!(after[2].2, vec![0x89, 0x50, 0xff, 0x00, 0x63]);
}

#[test]
fn rewrite_round_trip() {
    let input = sample();
    let p = pairs(&[("cat", "dog")]);
    let there = rewrite(&input, DOCUMENT_ENTRY, &p, false).unwrap();
    let back = rewrite(&there, DOCUMENT_ENTRY, &p, true).unwrap();
    assert_eq!(read_all(&back), read_all(&input));
}

#[test]
fn missing_entry_is_entry_not_found() {
    let input = build(&[("other.xml", CompressionMethod::Stored, b"cat")]);
    let copy = input.clone();
    assert_eq!(rewrite(&input, DOCUMENT_ENTRY, &pairs(&[("cat", "dog")]), false), Err(RewriteError::EntryNotFound));
    assert_eq!(input, copy);
}

#[test]
fn invalid_utf8_is_encoding_error() {
    let input = build(&[(DOCUMENT_ENTRY, CompressionMethod::Stored, &[0x61, 0xff, 0xfe, 0x62])]);
    let copy = input.clone();
    assert_eq!(rewrite(&input, DOCUMENT_ENTRY, &pairs(&[("a", "b")]), false), Err(RewriteError::Encoding));
    assert_eq!(input, copy);
}

#[test]
fn garbage_is_container_format_error() {
    assert_eq!(rewrite(b"not a zip archive", DOCUMENT_ENTRY, &Vec::new(), false), Err(RewriteError::ContainerFormat));
}

#[test]
fn process_document_with_store() {
    let mut d = Dictionary::new();
    assert_eq!(d.insert("cat".to_string(), "dog".to_string()), Ok(Verdict::Accepted));
    let out = process_document(&d, &sample(), false).unwrap();
    let after = read_all(&out);
    assert_eq!(after[1].2, "<w:t>the dog sat 北京</w:t>".as_bytes().to_vec());
    let back = process_document(&d, &out, true).unwrap();
    assert_eq!(read_all(&back)[1].2, "<w:t>the cat sat 北京</w:t>".as_bytes().to_vec());
}

#[test]
fn empty_dictionary_rewrites_nothing() {
    let input = sample();
    let out = process_document(&Dictionary::new(), &input, false).unwrap();
    assert_eq!(read_all(&out), read_all(&input));
}

#[test]
fn invalid_utf8_target_among_other_entries() {
    let input = build(&[
        ("a.xml", CompressionMethod::Deflated, b"fine"),
        (DOCUMENT_ENTRY, CompressionMethod::Deflated, &[0xc3, 0x28]),
    ]);
    let d = Dictionary::new();
    assert_eq!(process_document(&d, &input, false), Err(RewriteError::Encoding));
}
