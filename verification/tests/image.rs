use zippy::error::{CompressionError, DecompressionError};
use zippy::extract::{check_entry, extract_entry};
use zippy::image::{
    calculate_hash, create_image, extract_image, BlockHash, FileEntry, ImageBuilder, ImageHeader,
    ImageOptions,
};
use zippy::store::BlockStore;
use zippy::tree::{ExtractedEntry, TreeEntry};
use zippy::zpak::{encode_image, parse_image_index};

fn options(level: i32) -> ImageOptions {
    ImageOptions {
        input_path: String::from("in"),
        output_path: String::from("out.zpak"),
        compression_level: level,
    }
}

fn file(path: &str, content: Vec<u8>) -> TreeEntry {
    TreeEntry { path: String::from(path), is_directory: false, modified: 1700000000, content }
}

fn dir(path: &str) -> TreeEntry {
    TreeEntry { path: String::from(path), is_directory: true, modified: 0, content: Vec::new() }
}

fn noise(len: usize, seed: u32) -> Vec<u8> {
    let mut x = seed.wrapping_mul(2654435761).wrapping_add(12345);
    (0..len)
        .map(|_| {
            x ^= x << 13;
            x ^= x >> 17;
            x ^= x << 5;
            (x >> 11) as u8
        })
        .collect()
}

fn restored(tree: &[TreeEntry]) -> Vec<(String, bool, Vec<u8>)> {
    tree.iter()
        .map(|e| {
            (
                e.path.clone(),
                e.is_directory,
                if e.is_directory { Vec::new() } else { e.content.clone() },
            )
        })
        .collect()
}

fn plain(out: &[ExtractedEntry]) -> Vec<(String, bool, Vec<u8>)> {
    out.iter().map(|e| (e.path.clone(), e.is_directory, e.content.clone())).collect()
}

#[test]
fn identical_files_share_their_blocks() {
    let content = noise(100 * 1024, 7);
    let tree = vec![file("a.txt", content.clone()), file("b.txt", content.clone())];
    let image = create_image(&options(3), &tree, 42).unwrap();
    let index = parse_image_index(&image).unwrap();
    assert_eq!(index.header.block_count, 2);
    assert_eq!(index.blocks.len(), 2);
    assert_eq!(index.files.len(), 2);
    assert_eq!(index.files[0].blocks.len(), 2);
    assert_eq!(index.files[0].blocks, index.files[1].blocks);
    assert_eq!(index.files[0].blocks[0], calculate_hash(&content[..65536]));
    assert_eq!(index.files[0].blocks[1], calculate_hash(&content[65536..]));
    assert_eq!(index.header.total_files, 2);
    assert_eq!(index.header.total_size, 200 * 1024);
}

#[test]
fn image_round_trip() {
    let tree = vec![
        dir("sub"),
        file("sub/a.bin", noise(70000, 1)),
        file("empty", Vec::new()),
        dir("sub/deeper"),
        file("sub/deeper/text.txt", b"line one  \nline two\t\n".to_vec()),
        file("zeros", vec![0u8; 200000]),
        file("copy.bin", noise(70000, 1)),
    ];
    let image = create_image(&options(5), &tree, 1).unwrap();
    let out = extract_image(&image).unwrap();
    assert_eq!(plain(&out), restored(&tree));
}

#[test]
fn empty_tree_gives_an_image_of_its_header() {
    let image = create_image(&options(1), &Vec::new(), 0x0102030405060708).unwrap();
    let mut expected = vec![1, 0, 0, 0];
    expected.extend_from_slice(&[8, 7, 6, 5, 4, 3, 2, 1]);
    expected.extend_from_slice(&[0u8; 32]);
    expected.extend_from_slice(&[0u8; 8]);
    assert_eq!(image, expected);
    assert_eq!(image.len(), 52);
    assert_eq!(extract_image(&image).unwrap().len(), 0);
}

#[test]
fn image_layout_byte_for_byte() {
    let header = ImageHeader {
        version: 1,
        created: 2,
        total_files: 3,
        total_size: 4,
        compressed_size: 5,
        block_count: 1,
    };
    let mut store = BlockStore::new();
    let digest = BlockHash::from([0xabu8; 32]);
    assert!(store.insert_compressed(digest, vec![9, 8, 7], 300));
    let files = vec![
        FileEntry {
            path: String::from("d"),
            size: 0,
            modified: 0,
            is_directory: true,
            blocks: Vec::new(),
        },
        FileEntry {
            path: String::from("é"),
            size: 300,
            modified: 0x11,
            is_directory: false,
            blocks: vec![digest],
        },
    ];
    let bytes = encode_image(&header, &store, &files);
    let mut expected: Vec<u8> = Vec::new();
    expected.extend_from_slice(&1u32.to_le_bytes());
    for x in [2u64, 3, 4, 5, 1] {
        expected.extend_from_slice(&x.to_le_bytes());
    }
    expected.extend_from_slice(&[0xab; 32]);
    expected.extend_from_slice(&300u64.to_le_bytes());
    expected.extend_from_slice(&3u64.to_le_bytes());
    expected.extend_from_slice(&[9, 8, 7]);
    expected.extend_from_slice(&2u64.to_le_bytes());
    expected.extend_from_slice(&1u64.to_le_bytes());
    expected.extend_from_slice(b"d");
    expected.extend_from_slice(&0u64.to_le_bytes());
    expected.extend_from_slice(&0u64.to_le_bytes());
    expected.push(1);
    expected.extend_from_slice(&0u64.to_le_bytes());
    expected.extend_from_slice(&2u64.to_le_bytes());
    expected.extend_from_slice(&[0xc3, 0xa9]);
    expected.extend_from_slice(&300u64.to_le_bytes());
    expected.extend_from_slice(&0x11u64.to_le_bytes());
    expected.push(0);
    expected.extend_from_slice(&1u64.to_le_bytes());
    expected.extend_from_slice(&[0xab; 32]);
    assert_eq!(bytes, expected);

    let index = parse_image_index(&bytes).unwrap();
    assert_eq!(index.header.created, 2);
    assert_eq!(index.header.block_count, 1);
    assert_eq!(index.blocks[0].digest, digest);
    assert_eq!(index.blocks[0].original_size, 300);
    assert_eq!(index.blocks[0].offset, 44 + 48);
    assert_eq!(index.blocks[0].compressed_size, 3);
    assert_eq!(index.files[0].path, "d");
    assert!(index.files[0].is_directory);
    assert_eq!(index.files[1].path, "é");
    assert_eq!(index.files[1].size, 300);
    assert_eq!(index.files[1].modified, 0x11);
    assert_eq!(index.files[1].blocks, vec![digest]);
}

#[test]
fn builder_counts_unique_and_duplicate_blocks() {
    let a = noise(65536 * 2, 3);
    let mut twice = a.clone();
    twice.extend_from_slice(&a);
    let builder = ImageBuilder::new(3);
    let builder = builder.add_directory(String::from("d"));
    let builder = builder.add_file(String::from("d/a"), 5, &a).unwrap();
    assert_eq!(builder.unique_blocks(), 2);
    assert_eq!(builder.duplicate_blocks(), 0);
    let builder = builder.add_file(String::from("d/b"), 6, &twice).unwrap();
    assert_eq!(builder.unique_blocks(), 2);
    assert_eq!(builder.duplicate_blocks(), 4);
    let image = builder.finish(9);
    let index = parse_image_index(&image).unwrap();
    assert_eq!(index.header.created, 9);
    assert_eq!(index.header.total_files, 2);
    assert_eq!(index.header.total_size, 65536 * 6);
    assert_eq!(index.header.block_count, 2);
    let stored: u64 = index.blocks.iter().map(|b| b.compressed_size as u64).sum();
    assert_eq!(index.header.compressed_size, stored);
    assert_eq!(index.files[2].blocks.len(), 4);
    assert_eq!(index.files[2].blocks[0], index.files[2].blocks[2]);
}

#[test]
fn payloads_lie_in_the_order_of_the_index() {
    let tree = vec![file("a", noise(65536 * 3 + 10, 11))];
    let image = create_image(&options(1), &tree, 0).unwrap();
    let index = parse_image_index(&image).unwrap();
    assert_eq!(index.blocks.len(), 4);
    let mut offset = 44 + 48 * 4;
    for b in &index.blocks {
        assert_eq!(b.offset, offset);
        offset += b.compressed_size;
    }
    assert_eq!(index.blocks[3].original_size, 10);
    assert_eq!(index.blocks[0].original_size, 65536);
}

#[test]
fn entries_are_extracted_one_by_one() {
    let tree = vec![dir("d"), file("d/x.bin", noise(1000, 2)), file("y", noise(10, 3))];
    let image = create_image(&options(3), &tree, 0).unwrap();
    let index = parse_image_index(&image).unwrap();
    for i in 0..3 {
        assert!(check_entry(&image, &index, i));
        let e = extract_entry(&image, &index, i).unwrap();
        assert_eq!(e.path, tree[i].path);
        assert_eq!(e.is_directory, tree[i].is_directory);
        assert_eq!(e.content, tree[i].content);
    }
}

#[test]
fn truncated_images_are_refused() {
    let tree = vec![dir("d"), file("d/x.bin", noise(1000, 2))];
    let image = create_image(&options(3), &tree, 0).unwrap();
    for cut in 0..image.len() {
        assert!(matches!(
            extract_image(&image[..cut]),
            Err(DecompressionError::InvalidFormat)
        ));
    }
    assert!(extract_image(&image).is_ok());
}

#[test]
fn trailing_bytes_are_not_read() {
    let tree = vec![file("x", noise(100, 2))];
    let mut image = create_image(&options(3), &tree, 0).unwrap();
    image.extend_from_slice(b"trailer");
    assert_eq!(plain(&extract_image(&image).unwrap()), restored(&tree));
}

#[test]
fn other_versions_are_refused() {
    let mut image = create_image(&options(3), &Vec::new(), 0).unwrap();
    image[0] = 2;
    assert!(matches!(extract_image(&image), Err(DecompressionError::InvalidFormat)));
}

#[test]
fn oversized_block_count_is_refused() {
    let mut image = create_image(&options(3), &vec![file("x", noise(100, 2))], 0).unwrap();
    image[36..44].copy_from_slice(&u64::MAX.to_le_bytes());
    assert!(matches!(parse_image_index(&image), Err(DecompressionError::InvalidFormat)));
    image[36..44].copy_from_slice(&(1u64 << 40).to_le_bytes());
    assert!(matches!(parse_image_index(&image), Err(DecompressionError::InvalidFormat)));
}

#[test]
fn oversized_compressed_length_is_refused() {
    let mut image = create_image(&options(3), &vec![file("x", noise(100, 2))], 0).unwrap();
    image[44 + 40..44 + 48].copy_from_slice(&u64::MAX.to_le_bytes());
    assert!(matches!(parse_image_index(&image), Err(DecompressionError::InvalidFormat)));
}

#[test]
fn oversized_path_length_is_refused() {
    let image = create_image(&options(3), &vec![dir("d")], 0).unwrap();
    let mut bad = image.clone();
    bad[52..60].copy_from_slice(&u64::MAX.to_le_bytes());
    assert!(matches!(parse_image_index(&bad), Err(DecompressionError::InvalidFormat)));
    let mut bad = image.clone();
    let at = bad.len() - 8;
    bad[at..].copy_from_slice(&(1u64 << 50).to_le_bytes());
    assert!(matches!(parse_image_index(&bad), Err(DecompressionError::InvalidFormat)));
}

#[test]
fn duplicate_digest_in_the_index_is_refused() {
    let header = ImageHeader {
        version: 1,
        created: 0,
        total_files: 0,
        total_size: 0,
        compressed_size: 0,
        block_count: 2,
    };
    let mut bytes: Vec<u8> = Vec::new();
    bytes.extend_from_slice(&header.version.to_le_bytes());
    for x in [0u64, 0, 0, 0, 2] {
        bytes.extend_from_slice(&x.to_le_bytes());
    }
    for _ in 0..2 {
        bytes.extend_from_slice(&[5u8; 32]);
        bytes.extend_from_slice(&0u64.to_le_bytes());
        bytes.extend_from_slice(&0u64.to_le_bytes());
    }
    bytes.extend_from_slice(&0u64.to_le_bytes());
    assert!(matches!(parse_image_index(&bytes), Err(DecompressionError::InvalidFormat)));
    bytes[44 + 48] = 6;
    assert!(parse_image_index(&bytes).is_ok());
}

#[test]
fn missing_block_is_a_format_error() {
    let header = ImageHeader {
        version: 1,
        created: 0,
        total_files: 1,
        total_size: 3,
        compressed_size: 0,
        block_count: 0,
    };
    let files = vec![FileEntry {
        path: String::from("f"),
        size: 3,
        modified: 0,
        is_directory: false,
        blocks: vec![BlockHash::from([1u8; 32])],
    }];
    let bytes = encode_image(&header, &BlockStore::new(), &files);
    assert!(matches!(extract_image(&bytes), Err(DecompressionError::InvalidFormat)));
    let index = parse_image_index(&bytes).unwrap();
    assert!(!check_entry(&bytes, &index, 0));
    assert!(matches!(
        extract_entry(&bytes, &index, 0),
        Err(DecompressionError::InvalidFormat)
    ));
}

#[test]
fn broken_payload_is_a_codec_error() {
    let header = ImageHeader {
        version: 1,
        created: 0,
        total_files: 1,
        total_size: 3,
        compressed_size: 4,
        block_count: 1,
    };
    let digest = BlockHash::from([1u8; 32]);
    let mut store = BlockStore::new();
    store.insert_compressed(digest, vec![1, 2, 3, 4], 3);
    let files = vec![FileEntry {
        path: String::from("f"),
        size: 3,
        modified: 0,
        is_directory: false,
        blocks: vec![digest],
    }];
    let bytes = encode_image(&header, &store, &files);
    match extract_image(&bytes) {
        Err(DecompressionError::DecompressionFailed(text)) => assert!(!text.is_empty()),
        other => panic!("unexpected: {:?}", other.map(|v| v.len())),
    }
}

#[test]
fn unsafe_paths_in_an_image_are_refused() {
    for bad in ["/etc/passwd", "", "..", "C:\\x"] {
        let image = create_image(&options(1), &vec![file(bad, vec![1])], 0).unwrap();
        assert!(matches!(extract_image(&image), Err(DecompressionError::InvalidFormat)));
    }
    let image = create_image(&options(1), &vec![file("../../etc/passwd", vec![1])], 0).unwrap();
    let out = extract_image(&image).unwrap();
    assert_eq!(out[0].path, "etc/passwd");
}

#[test]
fn path_that_is_no_utf8_is_refused() {
    let image = create_image(&options(1), &vec![dir("ab")], 0).unwrap();
    let mut bad = image.clone();
    bad[60] = 0xff;
    assert!(matches!(parse_image_index(&bad), Err(DecompressionError::InvalidFormat)));
    assert!(parse_image_index(&image).is_ok());
}

#[test]
fn directory_flag_is_one() {
    let image = create_image(&options(1), &vec![dir("ab")], 0).unwrap();
    assert_eq!(image[52..60], 2u64.to_le_bytes());
    assert_eq!(image[60..62], *b"ab");
    assert_eq!(image[78], 1);
    let mut other = image.clone();
    other[78] = 2;
    let index = parse_image_index(&other).unwrap();
    assert!(!index.files[0].is_directory);
}

#[test]
fn level_is_taken_from_the_options() {
    let tree = vec![file("z", vec![b'a'; 60000].into_iter().chain(noise(5000, 1)).collect())];
    let fast = create_image(&options(1), &tree, 0).unwrap();
    let small = create_image(&options(19), &tree, 0).unwrap();
    assert!(small.len() <= fast.len());
    assert_eq!(plain(&extract_image(&fast).unwrap()), restored(&tree));
    assert_eq!(plain(&extract_image(&small).unwrap()), restored(&tree));
}

#[test]
fn compression_errors_have_messages() {
    assert_eq!(CompressionError::InvalidFormat.message(), "Invalid file format");
    assert_eq!(CompressionError::PathTraversal.message(), "Path traversal attack detected");
    assert_eq!(
        CompressionError::CompressionFailed(String::from("x")).message(),
        "Compression failed: x"
    );
    assert_eq!(
        CompressionError::DictionaryError(String::from("y")).message(),
        "Dictionary generation failed: y"
    );
    assert_eq!(DecompressionError::InvalidFormat.message(), "Invalid file format");
    assert_eq!(
        DecompressionError::DecompressionFailed(String::from("z")).message(),
        "Decompression failed: z"
    );
    let io = std::io::Error::new(std::io::ErrorKind::Other, "disk on fire");
    assert_eq!(CompressionError::Io(io).message(), "I/O error: disk on fire");
    let io = std::io::Error::new(std::io::ErrorKind::Other, "gone");
    assert_eq!(DecompressionError::Io(io).message(), "I/O error: gone");
}

#[test]
fn any_level_is_taken() {
    let tree = vec![file("z", noise(3000, 4)), file("e", Vec::new())];
    for level in [i32::MIN, -7, 0, 1, 22, 23, 1000, i32::MAX] {
        let image = create_image(&options(level), &tree, 0).unwrap();
        assert_eq!(plain(&extract_image(&image).unwrap()), restored(&tree));
    }
}

#[test]
fn equal_blocks_inside_one_file_are_stored_once() {
    let block = noise(65536, 9);
    let mut content = Vec::new();
    for _ in 0..5 {
        content.extend_from_slice(&block);
    }
    content.extend_from_slice(&[1, 2, 3]);
    let tree = vec![file("rep", content)];
    let image = create_image(&options(1), &tree, 0).unwrap();
    let index = parse_image_index(&image).unwrap();
    assert_eq!(index.header.block_count, 2);
    assert_eq!(index.files[0].blocks.len(), 6);
    for i in 1..5 {
        assert_eq!(index.files[0].blocks[0], index.files[0].blocks[i]);
    }
    assert_ne!(index.files[0].blocks[0], index.files[0].blocks[5]);
    assert_eq!(plain(&extract_image(&image).unwrap()), restored(&tree));
}
