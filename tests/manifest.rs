use media_package::manifest::{Manifest, Type};
use media_package::resolve::parse_page_index;
use media_package::server::{Resource, Server, ServerError, StartError};
use media_package::template::Template;
use media_package::package::Package;

fn hash(bytes: &[u8]) -> [u8; 32] {
    *blake3::hash(bytes).as_bytes()
}

fn package_of(manifest: Manifest, blobs: &[&[u8]]) -> Package {
    let own = manifest.encode();
    let mut files: Vec<([u8; 32], Vec<u8>)> = blobs.iter().map(|b| (hash(b), b.to_vec())).collect();
    files.push((hash(&own), own));
    files.sort();
    Package { files, manifest }
}

#[test]
fn comic_manifest_encoding_is_exact() {
    let manifest = Manifest::Comic { pages: vec![[5; 32]] };
    let mut expected = vec![1u8];
    expected.extend_from_slice(&1u64.to_le_bytes());
    expected.extend_from_slice(&[5; 32]);
    assert_eq!(manifest.encode(), expected);
}

#[test]
fn app_manifest_encoding_is_exact() {
    let manifest = Manifest::App {
        handles: Type::Comic,
        paths: vec![("é".into(), [3; 32])],
    };
    let mut expected = vec![0u8, 1u8];
    expected.extend_from_slice(&1u64.to_le_bytes());
    expected.extend_from_slice(&2u64.to_le_bytes());
    expected.extend_from_slice("é".as_bytes());
    expected.extend_from_slice(&[3; 32]);
    assert_eq!(manifest.encode(), expected);
}

#[test]
fn manifest_decodes_what_it_encodes() {
    let manifests = vec![
        Manifest::App {
            handles: Type::App,
            paths: vec![("a/b.css".into(), [1; 32]), ("z".into(), [2; 32])],
        },
        Manifest::App {
            handles: Type::Comic,
            paths: Vec::new(),
        },
        Manifest::App {
            handles: Type::Comic,
            paths: vec![("café/é.html".into(), [8; 32]), ("日本.js".into(), [6; 32])],
        },
        Manifest::Comic {
            pages: vec![[4; 32], [4; 32], [0; 32]],
        },
    ];
    for manifest in manifests {
        assert_eq!(Manifest::decode(&manifest.encode()), Some(manifest));
    }
}

#[test]
fn manifest_decode_rejects_malformed_bytes() {
    assert_eq!(Manifest::decode(&[]), None);
    assert_eq!(Manifest::decode(&[2]), None);
    let mut bytes = Manifest::Comic { pages: vec![[1; 32]] }.encode();
    bytes.push(0);
    assert_eq!(Manifest::decode(&bytes), None);
    let mut app = vec![0u8, 0u8];
    app.extend_from_slice(&1u64.to_le_bytes());
    app.extend_from_slice(&1u64.to_le_bytes());
    app.push(0xFF);
    app.extend_from_slice(&[0; 32]);
    assert_eq!(Manifest::decode(&app), None);
}

#[test]
fn manifest_type_and_references() {
    let comic = Manifest::Comic { pages: vec![[1; 32], [2; 32]] };
    assert_eq!(comic.ty(), Type::Comic);
    assert_eq!(comic.references(), vec![[1; 32], [2; 32]]);
    let app = Manifest::App {
        handles: Type::Comic,
        paths: vec![("x".into(), [9; 32])],
    };
    assert_eq!(app.ty(), Type::App);
    assert_eq!(app.references(), vec![[9; 32]]);
}

#[test]
fn resolver_app_paths() {
    let h1 = hash(b"<html>");
    let h2 = hash(b"js");
    let manifest = Manifest::App {
        handles: Type::Comic,
        paths: vec![("index.html".into(), h1), ("index.js".into(), h2)],
    };
    let package = package_of(manifest, &[b"<html>", b"js"]);
    assert_eq!(
        package.file("index.html"),
        Some(("text/html".to_string(), b"<html>".to_vec()))
    );
    assert_eq!(
        package.file("index.js"),
        Some(("text/javascript".to_string(), b"js".to_vec()))
    );
    assert_eq!(package.file("missing.css"), None);
}

#[test]
fn resolver_unknown_extension_is_octet_stream() {
    let h = hash(b"data");
    let manifest = Manifest::App {
        handles: Type::Comic,
        paths: vec![("blob.unknownext".into(), h)],
    };
    let package = package_of(manifest, &[b"data"]);
    assert_eq!(
        package.file("blob.unknownext"),
        Some(("application/octet-stream".to_string(), b"data".to_vec()))
    );
}

#[test]
fn resolver_comic_pages() {
    let h1 = hash(b"one");
    let h2 = hash(b"two");
    let package = package_of(Manifest::Comic { pages: vec![h1, h2] }, &[b"one", b"two"]);
    assert_eq!(
        package.file("0"),
        Some(("image/jpeg".to_string(), b"one".to_vec()))
    );
    assert_eq!(
        package.file("1"),
        Some(("image/jpeg".to_string(), b"two".to_vec()))
    );
    assert_eq!(package.file("2"), None);
    assert_eq!(package.file("abc"), None);
    assert_eq!(package.file(""), None);
}

#[test]
fn page_index_parsing() {
    assert_eq!(parse_page_index("0"), Some(0));
    assert_eq!(parse_page_index("+12"), Some(12));
    assert_eq!(parse_page_index("007"), Some(7));
    assert_eq!(parse_page_index("+"), None);
    assert_eq!(parse_page_index("-1"), None);
    assert_eq!(parse_page_index("1a"), None);
    assert_eq!(parse_page_index(""), None);
    assert_eq!(
        parse_page_index("18446744073709551615"),
        "18446744073709551615".parse::<usize>().ok()
    );
    assert_eq!(parse_page_index("18446744073709551616"), None);
}

#[test]
fn blob_lookup_by_hash() {
    let h = hash(b"x");
    let package = package_of(Manifest::Comic { pages: vec![h] }, &[b"x"]);
    assert_eq!(package.blob(&h), Some(&b"x".to_vec()));
    assert_eq!(package.blob(&[0; 32]), None);
}

#[test]
fn routes() {
    let h1 = hash(b"<html>");
    let app = package_of(
        Manifest::App {
            handles: Type::Comic,
            paths: vec![("index.html".into(), h1)],
        },
        &[b"<html>"],
    );
    let page = hash(b"\xff\xd8\xff\xe0\x00\x10JFIF");
    let content = package_of(
        Manifest::Comic { pages: vec![page] },
        &[b"\xff\xd8\xff\xe0\x00\x10JFIF"],
    );

    let root = Server::file(&app, "", "index.html").unwrap();
    assert_eq!(root.content_type, "text/html");
    assert!(root.content.starts_with(b"<html>"));

    let first = Server::file(&content, "/content/", "0").unwrap();
    assert_eq!(first.content_type, "image/jpeg");
    assert!(first.content.starts_with(b"\xff\xd8\xff\xe0\x00\x10JFIF"));

    assert_eq!(
        Server::file(&content, "/content/", "foo").unwrap_err(),
        ServerError::NotFound {
            path: "/content/foo".into()
        }
    );
    assert_eq!(
        Server::file(&app, "/app/", "foo").unwrap_err(),
        ServerError::NotFound {
            path: "/app/foo".into()
        }
    );
}

#[test]
fn resource_new_keeps_fields() {
    let r = Resource::new("text/plain".into(), vec![1, 2]);
    assert_eq!(r.content_type, "text/plain");
    assert_eq!(r.content, vec![1, 2]);
}

#[test]
fn app_package_is_not_app() {
    let content = Manifest::Comic { pages: vec![] };
    assert_eq!(
        Server::check(&content, &content),
        Err(StartError::AppType { ty: Type::Comic })
    );
}

#[test]
fn app_doesnt_handle_content_type() {
    let app = Manifest::App {
        handles: Type::Comic,
        paths: vec![],
    };
    assert_eq!(
        Server::check(&app, &app),
        Err(StartError::ContentType {
            content: Type::App,
            handles: Type::Comic
        })
    );
    let comic = Manifest::Comic { pages: vec![] };
    assert_eq!(Server::check(&app, &comic), Ok(()));
}

#[test]
fn template_app_sorts_paths() {
    let hashes = vec![
        ("index.js".to_string(), ([2; 32], 3)),
        ("a/b.css".to_string(), ([1; 32], 3)),
        ("index.html".to_string(), ([3; 32], 3)),
    ];
    let manifest = Template::App {
        handles: Type::Comic,
    }
    .manifest(&hashes);
    assert_eq!(
        manifest,
        Manifest::App {
            handles: Type::Comic,
            paths: vec![
                ("a/b.css".into(), [1; 32]),
                ("index.html".into(), [3; 32]),
                ("index.js".into(), [2; 32]),
            ],
        }
    );
}

#[test]
fn template_comic_orders_pages() {
    let hashes = vec![
        ("1.jpg".to_string(), ([2; 32], 3)),
        ("0.jpg".to_string(), ([1; 32], 3)),
    ];
    let manifest = Template::Comic {
        pages: vec!["0.jpg".into(), "1.jpg".into()],
    }
    .manifest(&hashes);
    assert_eq!(
        manifest,
        Manifest::Comic {
            pages: vec![[1; 32], [2; 32]]
        }
    );
}
