use blobvault::cipher::CipherConfig;
use blobvault::error::StoreError;
use blobvault::ident::{content_identifier, NameGenerator};
use blobvault::store::{
    finish_hashed_write, finish_random_write, locator, plan_hashed_ingest, resize_from_query,
    retrieve, tally, HashIndex, HashedIngest, ReadOutcome, WriteOutcome,
};

const BASE: &str = "https://files.example/";

fn config() -> CipherConfig {
    CipherConfig::new(vec![3u8; 32], vec![5u8; 16]).unwrap()
}

#[test]
fn locator_joins_base_and_identifier() {
    assert_eq!(locator(BASE, "abc123"), "https://files.example/abc123");
}

#[test]
fn random_ingest_then_retrieve_hello() {
    let cfg = config();
    let mut names = NameGenerator::new();
    let token = names.propose().unwrap();
    let sealed = cfg.encrypt(b"hello").unwrap();
    let link = finish_random_write(BASE, &token, WriteOutcome::Written).unwrap().unwrap();
    assert!(link.starts_with(BASE));
    let tail = &link[BASE.len()..];
    assert_eq!(tail.len(), 10);
    assert!(tail.chars().all(|c| c.is_ascii_alphanumeric()));
    let got = retrieve(&cfg, ReadOutcome::Found(sealed), "").unwrap();
    assert_eq!(got.body, b"hello".to_vec());
    assert!(!got.is_jpeg);
}

#[test]
fn random_write_collision_asks_for_another_name() {
    assert!(finish_random_write(BASE, "x", WriteOutcome::AlreadyExists).is_none());
    assert_eq!(
        finish_random_write(BASE, "x", WriteOutcome::Failed),
        Some(Err(StoreError::IoError))
    );
}

#[test]
fn retrieve_missing_is_not_found() {
    let cfg = config();
    assert!(matches!(retrieve(&cfg, ReadOutcome::Missing, ""), Err(StoreError::NotFound)));
}

#[test]
fn retrieve_read_failure_is_io_error() {
    let cfg = config();
    assert!(matches!(retrieve(&cfg, ReadOutcome::Failed, ""), Err(StoreError::IoError)));
}

#[test]
fn retrieve_garbage_is_decode_error() {
    let cfg = config();
    let garbage = b"this is not ciphertext".to_vec();
    assert!(matches!(
        retrieve(&cfg, ReadOutcome::Found(garbage), ""),
        Err(StoreError::DecodeError)
    ));
}

#[test]
fn retrieve_with_resize_of_non_image_is_decode_error() {
    let cfg = config();
    let sealed = cfg.encrypt(b"hello").unwrap();
    assert!(matches!(
        retrieve(&cfg, ReadOutcome::Found(sealed), "resize=10x10"),
        Err(StoreError::DecodeError)
    ));
}

#[test]
fn retrieve_with_malformed_resize_returns_plaintext() {
    let cfg = config();
    let sealed = cfg.encrypt(b"hello").unwrap();
    let got = retrieve(&cfg, ReadOutcome::Found(sealed), "resize=axb").unwrap();
    assert_eq!(got.body, b"hello".to_vec());
    assert!(!got.is_jpeg);
}

#[test]
fn resize_from_query_reads_directive() {
    assert_eq!(resize_from_query("resize=0x100"), Some((0, 100)));
    assert_eq!(resize_from_query("foo=bar&resize=50x50"), Some((50, 50)));
    assert_eq!(resize_from_query("resize=big"), None);
    assert_eq!(resize_from_query(""), None);
}

#[test]
fn hashed_ingest_twice_writes_once() {
    let cfg = config();
    let mut index = HashIndex::new();
    let first = plan_hashed_ingest(&index, &cfg, b"same bytes").unwrap();
    let id = match first {
        HashedIngest::Write { identifier, ciphertext } => {
            assert_eq!(cfg.decrypt(&ciphertext).unwrap(), b"same bytes".to_vec());
            identifier
        }
        HashedIngest::Stored { .. } => panic!("first ingest must write"),
    };
    assert_eq!(id, content_identifier(b"same bytes"));
    let link = finish_hashed_write(&mut index, BASE, id.clone(), WriteOutcome::Written).unwrap();
    assert_eq!(link, format!("{}{}", BASE, id));
    assert_eq!(index.len(), 1);
    match plan_hashed_ingest(&index, &cfg, b"same bytes").unwrap() {
        HashedIngest::Stored { identifier } => assert_eq!(identifier, id),
        HashedIngest::Write { .. } => panic!("second ingest must not write"),
    }
    assert_eq!(index.len(), 1);
    assert!(index.contains(&id));
}

#[test]
fn hashed_ingest_of_distinct_content_writes_each() {
    let cfg = config();
    let mut index = HashIndex::new();
    for data in [&b"one"[..], &b"two"[..]] {
        match plan_hashed_ingest(&index, &cfg, data).unwrap() {
            HashedIngest::Write { identifier, .. } => {
                finish_hashed_write(&mut index, BASE, identifier, WriteOutcome::Written).unwrap();
            }
            HashedIngest::Stored { .. } => panic!("distinct content must write"),
        }
    }
    assert_eq!(index.len(), 2);
}

#[test]
fn hashed_write_failure_leaves_index() {
    let mut index = HashIndex::new();
    let id = content_identifier(b"x");
    assert_eq!(
        finish_hashed_write(&mut index, BASE, id.clone(), WriteOutcome::Failed),
        Err(StoreError::IoError)
    );
    assert_eq!(index.len(), 0);
    assert!(finish_hashed_write(&mut index, BASE, id.clone(), WriteOutcome::AlreadyExists).is_ok());
    assert_eq!(index.len(), 1);
    assert!(finish_hashed_write(&mut index, BASE, id, WriteOutcome::Written).is_ok());
    assert_eq!(index.len(), 1);
}

#[test]
fn tally_counts_and_sums() {
    let s = tally(&[1, 2, 3]);
    assert_eq!((s.object_count, s.total_bytes), (3, 6));
    let s = tally(&[]);
    assert_eq!((s.object_count, s.total_bytes), (0, 0));
}

#[test]
fn tally_saturates() {
    let s = tally(&[u64::MAX, 1]);
    assert_eq!((s.object_count, s.total_bytes), (2, u64::MAX));
}

#[test]
fn rebuild_keeps_only_content_identifiers() {
    let digest = content_identifier(b"kept");
    let names = vec![
        digest.clone(),
        "abc".to_string(),
        "aB3dE6gH9k".to_string(),
        digest.to_uppercase(),
        digest.clone(),
    ];
    let index = HashIndex::rebuild(&names);
    assert_eq!(index.len(), 1);
    assert!(index.contains(&digest));
    let cfg = config();
    match plan_hashed_ingest(&index, &cfg, b"kept").unwrap() {
        HashedIngest::Stored { identifier } => assert_eq!(identifier, digest),
        HashedIngest::Write { .. } => panic!("rebuilt index must dedup"),
    }
}

fn png(width: u32, height: u32) -> Vec<u8> {
    let img = image::DynamicImage::ImageRgb8(image::RgbImage::new(width, height));
    let mut out = Vec::new();
    img.write_to(
        &mut std::io::Cursor::new(&mut out),
        image::ImageOutputFormat::Png,
    )
    .unwrap();
    out
}

fn jpeg_dims(bytes: &[u8]) -> (u32, u32) {
    let img = image::load_from_memory_with_format(bytes, image::ImageFormat::Jpeg).unwrap();
    (img.width(), img.height())
}

#[test]
fn retrieve_resizes_stored_image() {
    let cfg = config();
    let sealed = cfg.encrypt(&png(200, 100)).unwrap();
    let got = retrieve(&cfg, ReadOutcome::Found(sealed.clone()), "resize=0x100").unwrap();
    assert!(got.is_jpeg);
    assert_eq!(jpeg_dims(&got.body), (200, 100));
    let got = retrieve(&cfg, ReadOutcome::Found(sealed), "resize=50x50").unwrap();
    assert!(got.is_jpeg);
    assert_eq!(jpeg_dims(&got.body), (50, 50));
}

#[test]
fn retrieve_empty_or_partial_block_is_decode_error() {
    let cfg = config();
    assert!(matches!(retrieve(&cfg, ReadOutcome::Found(Vec::new()), ""), Err(StoreError::DecodeError)));
    assert!(matches!(
        retrieve(&cfg, ReadOutcome::Found(vec![0u8; 17]), ""),
        Err(StoreError::DecodeError)
    ));
}

#[test]
fn hashed_identifier_is_sixty_four_hex_digits() {
    let cfg = config();
    let index = HashIndex::new();
    match plan_hashed_ingest(&index, &cfg, b"shape").unwrap() {
        HashedIngest::Write { identifier, ciphertext } => {
            assert_eq!(identifier.len(), 64);
            assert!(identifier.chars().all(|c| c.is_ascii_digit() || ('a'..='f').contains(&c)));
            assert_eq!(ciphertext.len(), 16);
        }
        HashedIngest::Stored { .. } => panic!("empty index must write"),
    }
}
