use pop_vcs::encoding::{decode_base64, encode_base64};
use pop_vcs::objects::{
    blake3_hex, blob_form, compress, decompress, frame, has_shard, join_chunks, names_object, shard, store_blob,
    take_part, unframe, BlobForm, BlobPlan, Kind, ObjectError, PartStep, CHUNK_SIZE, MAX_DECOMPRESSED_SIZE,
    READ_SIZE,
};

const KINDS: [Kind; 5] = [Kind::Blob, Kind::Big, Kind::Chunk, Kind::Tree, Kind::Layer];

#[test]
fn objects_are_named_by_their_digest() {
    assert_eq!(blake3_hex(b""), "af1349b9f5f9a1a6a0404dea36dcc9499bcb25c9adc112b7cc9a93cae41f3262");
    assert_eq!(blake3_hex(b"abc"), "6437b3ac38465133ffb63b75273a8db548c558465d79db03fd359c6cd5bd9d85");
    assert_ne!(blake3_hex(b"abc"), blake3_hex(b"abd"));
    assert_eq!(blake3_hex(b"abc"), hex::encode(blake3::hash(b"abc").as_bytes()));
}

#[test]
fn names_have_directories() {
    assert_eq!(shard("abcdef"), "ab");
    assert_eq!(shard("ab"), "ab");
    assert_eq!(shard("a"), "xx");
    assert_eq!(shard(""), "xx");
    assert!(has_shard("éa"));
    assert_eq!(shard("éa"), "é");
    assert!(!has_shard("aé"));
    assert!(has_shard(&blake3_hex(b"x")));
    assert!(names_object("ab") && !names_object("a") && names_object("é"));
}

#[test]
fn compression_gives_the_bytes_back() {
    for b in [vec![], b"hello".to_vec(), vec![7u8; 100_000], (0..50_000u32).map(|i| (i * i % 251) as u8).collect()] {
        let c = compress(&b).unwrap();
        assert_ne!(c, b);
        assert_eq!(decompress(&c).unwrap(), b);
    }
    assert!(compress(&vec![0u8; 1_000_000]).unwrap().len() < 1000);
    assert_eq!(compress(b"hello").unwrap(), zstd::encode_all(&b"hello"[..], 6).unwrap());
}

#[test]
fn stored_objects_are_read_back_as_what_they_are() {
    for k in KINDS {
        let c = compress(&frame(k, b"body")).unwrap();
        let raw = decompress(&c).unwrap();
        for other in KINDS {
            assert_eq!(unframe(other, &raw), if other == k { Some(b"body".to_vec()) } else { None });
        }
    }
}

#[test]
fn stored_files_are_read_back_from_their_objects() {
    for n in [0, 1, CHUNK_SIZE, CHUNK_SIZE + 1, 2 * CHUNK_SIZE + 5] {
        let b: Vec<u8> = (0..n).map(|i| (i % 253) as u8).collect();
        match store_blob(&b) {
            BlobPlan::Single { raw } => {
                assert!(n <= CHUNK_SIZE);
                let back = decompress(&compress(&raw).unwrap()).unwrap();
                assert_eq!(unframe(Kind::Blob, &back), Some(b));
            }
            BlobPlan::Chunked { chunks, .. } => {
                assert!(n > CHUNK_SIZE);
                let back: Vec<Vec<u8>> =
                    chunks.iter().map(|raw| decompress(&compress(raw).unwrap()).unwrap()).collect();
                assert_eq!(join_chunks(&back), Some(b));
            }
        }
    }
}

#[test]
fn broken_compression_is_found() {
    assert_eq!(decompress(b"no such thing"), Err(ObjectError::Broken));
    assert_eq!(decompress(b""), Err(ObjectError::Broken));
    let c = compress(&vec![9u8; 10_000]).unwrap();
    assert_eq!(decompress(&c[..c.len() - 1]), Err(ObjectError::Broken));
}

#[test]
fn a_frame_that_fits_is_read_whatever_its_window() {
    let wide = |n: usize| {
        let mut c = vec![0x28, 0xb5, 0x2f, 0xfd, 0x40, 0xa0];
        c.extend_from_slice(&((n - 256) as u16).to_le_bytes());
        c.extend_from_slice(&((n as u32) << 3 | 1).to_le_bytes()[..3]);
        c.extend(vec![7u8; n]);
        c
    };
    assert_eq!(decompress(&wide(300)), Ok(vec![7u8; 300]));
    assert_eq!(decompress(&wide(READ_SIZE + 1)), Err(ObjectError::Broken));
}

#[test]
fn parts_are_taken_up_to_the_limit() {
    let mut v = vec![];
    assert_eq!(take_part(&mut v, b"ab"), PartStep::More);
    assert_eq!(take_part(&mut v, b""), PartStep::Done);
    assert_eq!(v, b"ab");
    let mut full = vec![0u8; MAX_DECOMPRESSED_SIZE as usize - 1];
    assert_eq!(take_part(&mut full, b"ab"), PartStep::TooLarge);
    assert_eq!(take_part(&mut full, b"a"), PartStep::More);
    assert_eq!(full.len() as u64, MAX_DECOMPRESSED_SIZE);
}

#[test]
fn too_much_is_not_decompressed() {
    let part = compress(&vec![0u8; 64 * 1024 * 1024]).unwrap();
    let mut c = vec![];
    for _ in 0..17 {
        c.extend_from_slice(&part);
    }
    assert_eq!(decompress(&c), Err(ObjectError::TooLarge));
}

#[test]
fn frames_are_told_apart() {
    for k in KINDS {
        let raw = frame(k, b"body\n");
        for l in KINDS {
            let want = if k == l { Some(b"body\n".to_vec()) } else { None };
            assert_eq!(unframe(l, &raw), want);
        }
    }
    assert_eq!(frame(Kind::Tree, b"{}"), b"tree\n{}");
    assert_eq!(frame(Kind::Layer, b""), b"layer\n");
    assert_eq!(unframe(Kind::Blob, b"blob"), None);
}

#[test]
fn contents_are_read_by_their_form() {
    assert!(matches!(blob_form(b"blob\nxyz"), BlobForm::Whole(b) if b == b"xyz"));
    assert!(matches!(blob_form(b"big\n{}"), BlobForm::Listed(b) if b == b"{}"));
    assert!(matches!(blob_form(b"tree\n{}"), BlobForm::Neither));
    assert!(matches!(blob_form(b""), BlobForm::Neither));
}

#[test]
fn small_files_are_stored_whole() {
    assert!(matches!(store_blob(b""), BlobPlan::Single { raw } if raw == b"blob\n"));
    let b = vec![3u8; CHUNK_SIZE];
    assert!(matches!(store_blob(&b), BlobPlan::Single { raw } if raw.len() == CHUNK_SIZE + 5));
}

#[test]
fn large_files_are_stored_in_chunks() {
    let b: Vec<u8> = (0..2 * CHUNK_SIZE + 3).map(|i| (i % 253) as u8).collect();
    match store_blob(&b) {
        BlobPlan::Chunked { chunks, list } => {
            assert_eq!(chunks.len(), 3);
            assert_eq!(list.size, b.len() as u64);
            assert_eq!(chunks[2], [b"chunk\n".to_vec(), b[2 * CHUNK_SIZE..].to_vec()].concat());
            for (raw, name) in chunks.iter().zip(&list.chunks) {
                assert_eq!(&blake3_hex(raw), name);
            }
            assert_eq!(join_chunks(&chunks).unwrap(), b);
        }
        BlobPlan::Single { .. } => panic!("not cut"),
    }
    match store_blob(&vec![1u8; CHUNK_SIZE + 1]) {
        BlobPlan::Chunked { chunks, .. } => assert_eq!(chunks.len(), 2),
        BlobPlan::Single { .. } => panic!("not cut"),
    }
}

#[test]
fn only_chunks_are_joined() {
    assert_eq!(join_chunks(&vec![]), Some(vec![]));
    assert_eq!(join_chunks(&vec![b"chunk\na".to_vec(), b"chunk\nb".to_vec()]), Some(b"ab".to_vec()));
    assert_eq!(join_chunks(&vec![b"chunk\na".to_vec(), b"blob\nb".to_vec()]), None);
}

#[test]
fn base64_is_the_standard_one() {
    for (b, s) in [
        (&b""[..], ""),
        (b"f", "Zg=="),
        (b"fo", "Zm8="),
        (b"foo", "Zm9v"),
        (b"foobar", "Zm9vYmFy"),
        (&[255, 254, 253, 252, 0], "//79/AA="),
    ] {
        assert_eq!(encode_base64(b), s);
        assert_eq!(decode_base64(s).as_deref(), Some(b));
    }
    for s in ["Zg", "Zg=", "Zh==", "Z", "Zm9v\n", "Zm9vé", "====", "Zg==Zg==", "-_=="] {
        assert_eq!(decode_base64(s), None, "{}", s);
    }
}
