use media_package::codec::Digest;
use media_package::manifest::{Manifest, Type};
use media_package::package::{Error, Package};
use media_package::writer::SavePlan;

const MAGIC: &[u8] = "MEDIA📦".as_bytes();

fn hash(bytes: &[u8]) -> Digest {
    *blake3::hash(bytes).as_bytes()
}

fn header(index: u64, count: u64) -> Vec<u8> {
    let mut bytes = Vec::new();
    bytes.extend_from_slice(MAGIC);
    bytes.extend_from_slice(&index.to_le_bytes());
    bytes.extend_from_slice(&count.to_le_bytes());
    bytes
}

/// Writes out a plan the way the packaging tool does, taking each file's
/// bytes from `contents`.
fn assemble(plan: &SavePlan, contents: &[(Digest, Vec<u8>)]) -> Vec<u8> {
    let mut bytes = plan.header.clone();
    for (i, (h, _len)) in plan.entries.iter().enumerate() {
        if i == plan.manifest_index {
            bytes.extend_from_slice(&plan.manifest);
        } else {
            let (_, content) = contents.iter().find(|(c, _)| c == h).unwrap();
            bytes.extend_from_slice(content);
        }
    }
    bytes
}

fn app_manifest(html: Digest, js: Digest) -> Manifest {
    Manifest::App {
        handles: Type::Comic,
        paths: vec![("index.html".into(), html), ("index.js".into(), js)],
    }
}

#[test]
fn load_bad_magic_bytes() {
    assert_eq!(
        Package::load(b"this-is-not-a-package").unwrap_err(),
        Error::MagicBytes {
            bytes: b"this-is-n".to_vec()
        }
    );
}

#[test]
fn load_truncated_magic_bytes() {
    assert_eq!(
        Package::load(b"MEDIA").unwrap_err(),
        Error::MagicBytes {
            bytes: b"MEDIA".to_vec()
        }
    );
}

#[test]
fn manifest_index_out_of_bounds() {
    let bytes = header(0, 0);
    assert_eq!(
        Package::load(&bytes).unwrap_err(),
        Error::ManifestIndexOutOfBounds { index: 0 }
    );
}

#[test]
fn file_hashes_out_of_order() {
    let mut bytes = header(0, 2);
    bytes.extend_from_slice(&[1; 32]);
    bytes.extend_from_slice(&0u64.to_le_bytes());
    bytes.extend_from_slice(&[0; 32]);
    bytes.extend_from_slice(&0u64.to_le_bytes());
    assert_eq!(
        Package::load(&bytes).unwrap_err(),
        Error::FileHashOrder { hash: [0; 32] }
    );
}

#[test]
fn file_hash_duplicated() {
    let mut bytes = header(0, 2);
    bytes.extend_from_slice(&[0; 32]);
    bytes.extend_from_slice(&0u64.to_le_bytes());
    bytes.extend_from_slice(&[0; 32]);
    bytes.extend_from_slice(&0u64.to_le_bytes());
    assert_eq!(
        Package::load(&bytes).unwrap_err(),
        Error::FileHashDuplicated { hash: [0; 32] }
    );
}

#[test]
fn file_hash_invalid() {
    let mut bytes = header(0, 1);
    bytes.extend_from_slice(&[0; 32]);
    bytes.extend_from_slice(&0u64.to_le_bytes());
    assert_eq!(
        Package::load(&bytes).unwrap_err(),
        Error::FileHashInvalid {
            actual: hash(&[]),
            expected: [0; 32],
        }
    );
}

#[test]
fn file_truncated() {
    let mut bytes = header(0, 1);
    bytes.extend_from_slice(&[0; 32]);
    bytes.extend_from_slice(&1u64.to_le_bytes());
    assert_eq!(Package::load(&bytes).unwrap_err(), Error::UnexpectedEnd);
}

#[test]
fn trailing_bytes() {
    let mut bytes = header(0, 1);
    bytes.extend_from_slice(&hash(&[]));
    bytes.extend_from_slice(&0u64.to_le_bytes());
    bytes.extend_from_slice(&[0]);
    assert_eq!(
        Package::load(&bytes).unwrap_err(),
        Error::TrailingBytes { trailing: 1 }
    );
}

#[test]
fn manifest_deserialize_error() {
    let mut bytes = header(0, 1);
    bytes.extend_from_slice(&hash(&[]));
    bytes.extend_from_slice(&0u64.to_le_bytes());
    assert_eq!(
        Package::load(&bytes).unwrap_err(),
        Error::DeserializeManifest
    );
}

#[test]
fn save_and_load() {
    let html = hash(b"html");
    let js = hash(b"js");
    let manifest = app_manifest(html, js);
    let manifest_bytes = manifest.encode();
    let hashes = vec![
        ("index.html".to_string(), (html, 4)),
        ("index.js".to_string(), (js, 2)),
    ];
    let plan = Package::save(&hashes, &manifest);
    let contents = vec![(html, b"html".to_vec()), (js, b"js".to_vec())];
    let bytes = assemble(&plan, &contents);

    let mut files = vec![
        (html, b"html".to_vec()),
        (js, b"js".to_vec()),
        (hash(&manifest_bytes), manifest_bytes),
    ];
    files.sort();
    assert_eq!(Package::load(&bytes).unwrap(), Package { files, manifest });
}

#[test]
fn save_writes_sorted_index_and_header() {
    let a = hash(b"a");
    let b = hash(b"bb");
    let manifest = Manifest::Comic { pages: vec![a, b] };
    let hashes = vec![("0.jpg".to_string(), (a, 1)), ("1.jpg".to_string(), (b, 2))];
    let plan = Package::save(&hashes, &manifest);
    let own = hash(&plan.manifest);

    let mut expected = vec![(a, 1u64), (b, 2u64), (own, plan.manifest.len() as u64)];
    expected.sort();
    assert_eq!(plan.entries, expected);
    assert_eq!(plan.entries[plan.manifest_index].0, own);

    let mut head = header(plan.manifest_index as u64, 3);
    for (h, len) in &expected {
        head.extend_from_slice(h);
        head.extend_from_slice(&len.to_le_bytes());
    }
    assert_eq!(plan.header, head);
}

#[test]
fn save_is_independent_of_input_order() {
    let html = hash(b"html");
    let js = hash(b"js");
    let manifest = app_manifest(html, js);
    let forward = vec![
        ("index.html".to_string(), (html, 4)),
        ("index.js".to_string(), (js, 2)),
    ];
    let backward = vec![
        ("index.js".to_string(), (js, 2)),
        ("index.html".to_string(), (html, 4)),
    ];
    let contents = vec![(html, b"html".to_vec()), (js, b"js".to_vec())];
    let first = Package::save(&forward, &manifest);
    let second = Package::save(&backward, &manifest);
    assert_eq!(first.entries, second.entries);
    assert_eq!(first.manifest_index, second.manifest_index);
    assert_eq!(assemble(&first, &contents), assemble(&second, &contents));
}

#[test]
fn save_keeps_one_entry_per_distinct_blob() {
    let same = hash(b"same");
    let manifest = Manifest::App {
        handles: Type::Comic,
        paths: vec![("a.txt".into(), same), ("b.txt".into(), same)],
    };
    let hashes = vec![
        ("a.txt".to_string(), (same, 4)),
        ("b.txt".to_string(), (same, 4)),
    ];
    let plan = Package::save(&hashes, &manifest);
    assert_eq!(plan.entries.len(), 2);
    let bytes = assemble(&plan, &[(same, b"same".to_vec())]);
    let package = Package::load(&bytes).unwrap();
    assert_eq!(package.files.len(), 2);
    assert_eq!(package.manifest, manifest);
}

#[test]
fn manifest_extra_files_error() {
    let used = hash(b"used");
    let unused = hash(b"unused");
    let manifest = Manifest::Comic { pages: vec![used] };
    let hashes = vec![
        ("0.jpg".to_string(), (used, 4)),
        ("extra.jpg".to_string(), (unused, 6)),
    ];
    let plan = Package::save(&hashes, &manifest);
    let bytes = assemble(
        &plan,
        &[(used, b"used".to_vec()), (unused, b"unused".to_vec())],
    );
    assert_eq!(
        Package::load(&bytes).unwrap_err(),
        Error::ManifestExtraFiles { extra: 1 }
    );
}

#[test]
fn manifest_missing_files_error() {
    let present = hash(b"present");
    let manifest = Manifest::Comic {
        pages: vec![present, [7; 32], [9; 32]],
    };
    let hashes = vec![("0.jpg".to_string(), (present, 7))];
    let plan = Package::save(&hashes, &manifest);
    let bytes = assemble(&plan, &[(present, b"present".to_vec())]);
    assert_eq!(
        Package::load(&bytes).unwrap_err(),
        Error::ManifestMissingFiles { missing: 2 }
    );
}

#[test]
fn truncated_header_is_unexpected_end() {
    let bytes = header(0, 1);
    assert_eq!(Package::load(&bytes[..20]).unwrap_err(), Error::UnexpectedEnd);
    assert_eq!(Package::load(&bytes).unwrap_err(), Error::UnexpectedEnd);
}

#[test]
fn full_marker_mismatch_reports_nine_bytes() {
    let mut bytes = header(0, 0);
    bytes[0] = b'm';
    assert_eq!(
        Package::load(&bytes).unwrap_err(),
        Error::MagicBytes {
            bytes: b"mEDIA\xF0\x9F\x93\xA6".to_vec()
        }
    );
}

#[test]
fn empty_file_reports_no_marker_bytes() {
    assert_eq!(
        Package::load(&[]).unwrap_err(),
        Error::MagicBytes { bytes: Vec::new() }
    );
}

#[test]
fn plan_orders_entries_around_the_manifest() {
    let hashes = vec![
        ("b.bin".to_string(), ([0x90; 32], 7)),
        ("a.bin".to_string(), ([0x10; 32], 5)),
        ("c.bin".to_string(), ([0x10; 32], 5)),
    ];
    let plan = Package::plan(&hashes, vec![1, 2, 3], [0x80; 32]);
    assert_eq!(plan.manifest, vec![1, 2, 3]);
    assert_eq!(
        plan.entries,
        vec![([0x10; 32], 5), ([0x80; 32], 3), ([0x90; 32], 7)]
    );
    assert_eq!(plan.manifest_index, 1);
    let mut head = header(1, 3);
    for (h, len) in &plan.entries {
        head.extend_from_slice(h);
        head.extend_from_slice(&len.to_le_bytes());
    }
    assert_eq!(plan.header, head);
}
