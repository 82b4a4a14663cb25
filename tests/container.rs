use std::io::{Cursor, Read, Write};

use emmm_core::archive::{asset_entry, assets_entry, document_entry, Tracker, Unpacker};
use emmm_core::rewrite::rewrite_for_pack;
use zip::write::SimpleFileOptions;
use zip::{CompressionMethod, ZipArchive, ZipWriter};

fn build_container(source: &str, contents: &dyn Fn(&str) -> Vec<u8>) -> (Vec<u8>, Vec<(usize, usize)>) {
    let (doc, map) = rewrite_for_pack(source);
    let options = SimpleFileOptions::default().compression_method(CompressionMethod::Deflated);
    let mut zip = ZipWriter::new(Cursor::new(Vec::new()));
    zip.start_file(document_entry(), options).unwrap();
    zip.write_all(doc.as_bytes()).unwrap();
    zip.add_directory(assets_entry(), options).unwrap();
    let mut tracker = Tracker::new(map.len());
    let mut reports = Vec::new();
    for i in 0..map.len() {
        zip.start_file(asset_entry(map.key_at(i)), options).unwrap();
        zip.write_all(&contents(map.value_at(i))).unwrap();
        let p = tracker.advance();
        reports.push((p.done, p.total));
    }
    (zip.finish().unwrap().into_inner(), reports)
}

fn unpack_container(bytes: Vec<u8>, out: &str) -> (String, Vec<(String, Vec<u8>)>) {
    let mut zip = ZipArchive::new(Cursor::new(bytes)).unwrap();
    let mut unpacker = Unpacker::new(out.to_string(), zip.len());
    let mut written = Vec::new();
    for i in 0..zip.len() {
        let mut entry = zip.by_index(i).unwrap();
        let enclosed = entry.enclosed_name().map(|p| p.to_string_lossy().to_string());
        let (target, _) = unpacker.entry(enclosed.as_deref(), entry.is_file());
        if let Some(path) = target {
            let mut data = Vec::new();
            entry.read_to_end(&mut data).unwrap();
            written.push((path, data));
        }
    }
    let mut source = String::new();
    zip.by_name(&document_entry()).unwrap().read_to_string(&mut source).unwrap();
    (unpacker.restore(&source), written)
}

#[test]
fn container_holds_document_and_asset() {
    let (bytes, reports) = build_container("see file:/tmp/a.png;", &|_| vec![7u8; 10]);
    assert_eq!(reports, vec![(1, 1)]);
    let mut zip = ZipArchive::new(Cursor::new(bytes)).unwrap();
    let mut doc = String::new();
    zip.by_name("source.emmm").unwrap().read_to_string(&mut doc).unwrap();
    assert_eq!(doc, "see asset:a.png;");
    let asset = zip.by_name("assets/a.png").unwrap();
    assert_eq!(asset.size(), 10);
}

#[test]
fn container_round_trip_keeps_contents_apart() {
    let source = "one file:/a/x.png;\ntwo file:/b/x.png]\n";
    let (bytes, reports) = build_container(source, &|p| p.as_bytes().to_vec());
    assert_eq!(reports, vec![(1, 2), (2, 2)]);
    let (text, written) = unpack_container(bytes, "/dest");
    assert_eq!(text, "one file:/dest/x.png;\ntwo file:/dest/0_x.png]\n");
    assert_eq!(
        written,
        vec![
            ("/dest/x.png".to_string(), b"/a/x.png".to_vec()),
            ("/dest/0_x.png".to_string(), b"/b/x.png".to_vec()),
        ]
    );
}

#[test]
fn container_without_references() {
    let (bytes, reports) = build_container("plain text", &|_| Vec::new());
    assert!(reports.is_empty());
    let (text, written) = unpack_container(bytes, "/dest");
    assert_eq!(text, "plain text");
    assert!(written.is_empty());
}
