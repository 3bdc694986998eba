use zippy::compress::{
    build_solid_archive, compress_directory, compress_directory_solid, compress_entry,
    compress_folder, generate_global_dictionary, preprocess_text, process_file, select_samples,
    train_dictionary, write_archive, CompressionJob, CompressionOptions, DirectoryArchive,
};
use zippy::decompress::{
    decompress_archive, detect_form, extract_plain, extract_solid, ArchiveForm,
    DecompressionOptions,
};
use zippy::error::{CompressionError, DecompressionError};
use zippy::solid::{decode_solid, encode_solid, SolidEntry};
use zippy::tree::{ExtractedEntry, TreeEntry};
use zippy::zpp::{decode_plain, encode_plain, ArchiveEntry};

fn options(solid: bool, level: i32) -> CompressionOptions {
    CompressionOptions {
        input_path: String::from("input"),
        output_path: String::from("output/test.zpp"),
        threads: 2,
        level,
        solid,
    }
}

fn file(path: &str, content: &[u8]) -> TreeEntry {
    TreeEntry {
        path: String::from(path),
        is_directory: false,
        modified: 0,
        content: content.to_vec(),
    }
}

fn dir(path: &str) -> TreeEntry {
    TreeEntry { path: String::from(path), is_directory: true, modified: 0, content: Vec::new() }
}

fn noise(len: usize, seed: u32) -> Vec<u8> {
    let mut x = seed.wrapping_mul(2654435761).wrapping_add(12345);
    (0..len)
        .map(|_| {
            x ^= x << 13;
            x ^= x >> 17;
            x ^= x << 5;
            (x >> 11) as u8
        })
        .collect()
}

fn plain(out: &[ExtractedEntry]) -> Vec<(String, Vec<u8>)> {
    out.iter()
        .map(|e| {
            assert!(!e.is_directory);
            (e.path.clone(), e.content.clone())
        })
        .collect()
}

#[test]
fn test_compression() {
    let text_content =
        "Ceci est un fichier texte de test avec beaucoup de répétitions. ".repeat(1000);
    let binary_content = vec![0u8; 1024 * 1024];
    let tree = vec![
        file("test.txt", text_content.as_bytes()),
        file("test.bin", &binary_content),
    ];
    let out = compress_folder(&options(false, 22), &tree);
    assert!(!out.bytes.is_empty());
    assert_eq!(out.stored, vec![true, true]);
    assert!(out.failures.is_empty());
}

#[test]
fn test_compression_profiles() {
    let text_content = "Fichier texte de test".repeat(100);
    let binary_content = vec![0u8; 1024 * 10];
    let image_content = vec![0u8; 1024 * 100];
    let unity_content = "Unity asset test data".repeat(100);
    let tree = vec![
        file("text.txt", text_content.as_bytes()),
        file("binary.bin", &binary_content),
        file("image.jpg", &image_content),
        file("test.unity", unity_content.as_bytes()),
    ];
    let out = compress_folder(&options(false, 22), &tree);
    assert!(!out.bytes.is_empty());
    assert_eq!(out.stored, vec![true, true, true, true]);
    let back = extract_plain(&out.bytes).unwrap();
    assert_eq!(back.len(), 4);
    assert_eq!(back[1].content, binary_content);
    assert_eq!(back[2].content, image_content);
    assert_eq!(back[3].content, unity_content.as_bytes());
}

#[test]
fn plain_round_trip_of_files_that_are_no_text() {
    let tree = vec![
        dir("sub"),
        file("sub/a.bin", &noise(100000, 1)),
        file("b.dat", b"  trailing spaces stay  \n\n"),
        file("sub/deep/c", &[]),
        file("pic.PNG", &noise(5000, 2)),
    ];
    let out = compress_folder(&options(false, 3), &tree);
    assert_eq!(out.stored, vec![true, true, true, true]);
    let back = extract_plain(&out.bytes).unwrap();
    let expected: Vec<(String, Vec<u8>)> = tree
        .iter()
        .filter(|e| !e.is_directory)
        .map(|e| (e.path.clone(), e.content.clone()))
        .collect();
    assert_eq!(plain(&back), expected);
    assert_eq!(plain(&decompress_archive(&out.bytes, ArchiveForm::Plain).unwrap()), expected);
    assert_eq!(detect_form(&out.bytes), ArchiveForm::Plain);
}

#[test]
fn text_files_lose_white_space_at_line_ends() {
    let tree = vec![
        file("notes.txt", b"alpha  \nbeta\t\r\n\ngamma \n"),
        file("data.json", b"{ }   "),
        file("run.py", b"x = 1\n"),
        file("mod.lua", b"\n"),
    ];
    let out = compress_folder(&options(false, 3), &tree);
    let back = extract_plain(&out.bytes).unwrap();
    assert_eq!(back[0].content, b"alpha\nbeta\n\ngamma");
    assert_eq!(back[1].content, b"{ }");
    assert_eq!(back[2].content, b"x = 1");
    assert_eq!(back[3].content, b"");
}

#[test]
fn preprocessing_replaces_what_is_no_utf8() {
    assert_eq!(preprocess_text(b"ok \n"), b"ok");
    assert_eq!(preprocess_text(&[b'a', 0xff, b' ', b'\n']), "a\u{fffd}".as_bytes());
    assert_eq!(preprocess_text("é \u{3000}\nü".as_bytes()), "é\nü".as_bytes());
    assert_eq!(preprocess_text(b""), b"");
}

#[test]
fn process_file_compresses_what_was_prepared() {
    let content = b"line  \nline  \nline  \n".repeat(100);
    let frame = process_file("a/b.txt", &content, 5).unwrap();
    assert_ne!(frame, content);
    let entries = vec![ArchiveEntry {
        relative_path: String::from("a/b.txt"),
        compressed_bytes: frame,
    }];
    let back = extract_plain(&encode_plain(&entries)).unwrap();
    assert_eq!(back[0].content, preprocess_text(&content));
    let frame = process_file("a/b.bin", &content, 5).unwrap();
    let entries = vec![ArchiveEntry {
        relative_path: String::from("a/b.bin"),
        compressed_bytes: frame,
    }];
    let back = extract_plain(&encode_plain(&entries)).unwrap();
    assert_eq!(back[0].content, content);
}

#[test]
fn plain_layout_byte_for_byte() {
    let entries = vec![
        ArchiveEntry { relative_path: String::from("a/é"), compressed_bytes: vec![1, 2, 3] },
        ArchiveEntry { relative_path: String::from("b"), compressed_bytes: Vec::new() },
    ];
    let bytes = encode_plain(&entries);
    let mut expected: Vec<u8> = Vec::new();
    expected.extend_from_slice(&[b'a', b'/', 0xc3, 0xa9, 0]);
    expected.extend_from_slice(&3u64.to_le_bytes());
    expected.extend_from_slice(&[1, 2, 3]);
    expected.extend_from_slice(&[b'b', 0]);
    expected.extend_from_slice(&0u64.to_le_bytes());
    expected.push(0);
    assert_eq!(bytes, expected);
    let back = decode_plain(&bytes).unwrap();
    assert_eq!(back.len(), 2);
    assert_eq!(back[0].relative_path, "a/é");
    assert_eq!(back[0].compressed_bytes, vec![1, 2, 3]);
    assert_eq!(back[1].relative_path, "b");
    assert_eq!(back[1].compressed_bytes, Vec::<u8>::new());
}

#[test]
fn empty_plain_archive_is_one_zero_byte() {
    let bytes = encode_plain(&Vec::new());
    assert_eq!(bytes, vec![0]);
    assert_eq!(decode_plain(&bytes).unwrap().len(), 0);
    assert_eq!(extract_plain(&bytes).unwrap().len(), 0);
    let out = compress_folder(&options(false, 1), &vec![dir("only")]);
    assert_eq!(out.bytes, vec![0]);
    assert!(out.stored.is_empty());
}

#[test]
fn plain_archive_without_its_end_is_refused() {
    let entries = vec![ArchiveEntry {
        relative_path: String::from("a"),
        compressed_bytes: vec![1, 2, 3],
    }];
    let bytes = encode_plain(&entries);
    for cut in 0..bytes.len() {
        assert!(decode_plain(&bytes[..cut]).is_none());
        assert!(matches!(
            extract_plain(&bytes[..cut]),
            Err(DecompressionError::InvalidFormat)
        ));
    }
    assert!(decode_plain(&bytes).is_some());
}

#[test]
fn plain_archive_with_an_oversized_length_is_refused() {
    let mut bytes = vec![b'a', 0];
    bytes.extend_from_slice(&u64::MAX.to_le_bytes());
    bytes.extend_from_slice(&[1, 2, 3, 0]);
    assert!(decode_plain(&bytes).is_none());
    let mut bytes = vec![b'a', 0];
    bytes.extend_from_slice(&5u64.to_le_bytes());
    bytes.extend_from_slice(&[1, 2, 3, 0]);
    assert!(decode_plain(&bytes).is_none());
}

#[test]
fn plain_archive_with_a_path_that_is_no_utf8_is_refused() {
    let mut bytes = vec![0xff, 0];
    bytes.extend_from_slice(&0u64.to_le_bytes());
    bytes.push(0);
    assert!(decode_plain(&bytes).is_none());
}

#[test]
fn plain_archive_with_an_unsafe_path_is_refused() {
    let frame = process_file("x.bin", b"data", 1).unwrap();
    for bad in ["/abs", "C:x", ".."] {
        let entries = vec![ArchiveEntry {
            relative_path: String::from(bad),
            compressed_bytes: frame.clone(),
        }];
        assert!(matches!(
            extract_plain(&encode_plain(&entries)),
            Err(DecompressionError::InvalidFormat)
        ));
    }
    let entries = vec![ArchiveEntry {
        relative_path: String::from("../../etc/passwd"),
        compressed_bytes: frame,
    }];
    let back = extract_plain(&encode_plain(&entries)).unwrap();
    assert_eq!(back[0].path, "etc/passwd");
    assert_eq!(back[0].content, b"data");
}

#[test]
fn plain_archive_with_a_broken_payload_is_a_codec_error() {
    let entries = vec![ArchiveEntry {
        relative_path: String::from("a"),
        compressed_bytes: vec![1, 2, 3, 4, 5],
    }];
    assert!(matches!(
        extract_plain(&encode_plain(&entries)),
        Err(DecompressionError::DecompressionFailed(_))
    ));
}

#[test]
fn jobs_are_written_in_the_order_they_were_handed_in() {
    let jobs = vec![
        CompressionJob { relative_path: String::from("first"), result: Ok(vec![1]) },
        CompressionJob {
            relative_path: String::from("failed"),
            result: Err(CompressionError::CompressionFailed(String::from("no"))),
        },
        CompressionJob { relative_path: String::from("third"), result: Ok(vec![3, 3]) },
    ];
    let out = write_archive(jobs);
    assert_eq!(out.stored, vec![true, false, true]);
    assert_eq!(out.failures.len(), 1);
    assert!(matches!(out.failures[0], CompressionError::CompressionFailed(_)));
    let back = decode_plain(&out.bytes).unwrap();
    assert_eq!(back.len(), 2);
    assert_eq!(back[0].relative_path, "first");
    assert_eq!(back[0].compressed_bytes, vec![1]);
    assert_eq!(back[1].relative_path, "third");
    assert_eq!(back[1].compressed_bytes, vec![3, 3]);
}

#[test]
fn files_whose_paths_cannot_be_written_are_left_out() {
    let tree = vec![file("", b"x"), file("a\0b", b"y"), file("ok.bin", b"z")];
    let job = compress_entry(&tree[0]);
    assert!(matches!(job.result, Err(CompressionError::InvalidFormat)));
    let job = compress_entry(&tree[1]);
    assert!(matches!(job.result, Err(CompressionError::InvalidFormat)));
    let out = compress_folder(&options(false, 1), &tree);
    assert_eq!(out.stored, vec![false, false, true]);
    assert_eq!(out.failures.len(), 2);
    let back = extract_plain(&out.bytes).unwrap();
    assert_eq!(plain(&back), vec![(String::from("ok.bin"), b"z".to_vec())]);
}

#[test]
fn solid_archive_of_three_small_files() {
    let tree = vec![file("a.txt", b"hello"), file("b.txt", b"world"), file("c/d.txt", b"hello")];
    let bytes = compress_directory_solid(&options(true, 3), &tree).unwrap();
    let archive = decode_solid(&bytes).unwrap();
    assert!(archive.dictionary.is_empty());
    assert_eq!(archive.index.len(), 3);
    assert_eq!(
        archive.index.iter().map(|e| (e.path.as_str(), e.start, e.length)).collect::<Vec<_>>(),
        vec![("a.txt", 0, 5), ("b.txt", 5, 5), ("c/d.txt", 10, 5)]
    );
    let out = extract_solid(&bytes).unwrap();
    let mut joined = Vec::new();
    for e in &out {
        joined.extend_from_slice(&e.content);
    }
    assert_eq!(joined, b"helloworldhello");
    assert_eq!(
        plain(&out),
        vec![
            (String::from("a.txt"), b"hello".to_vec()),
            (String::from("b.txt"), b"world".to_vec()),
            (String::from("c/d.txt"), b"hello".to_vec()),
        ]
    );
}

#[test]
fn solid_round_trip_is_exact_for_text_too() {
    let tree = vec![
        dir("d"),
        file("d/notes.txt", b"keep  \nthese \t\nspaces  "),
        file("d/b.bin", &noise(100000, 5)),
        file("empty.json", b""),
    ];
    let bytes = compress_directory_solid(&options(true, 5), &tree).unwrap();
    let expected: Vec<(String, Vec<u8>)> = tree
        .iter()
        .filter(|e| !e.is_directory)
        .map(|e| (e.path.clone(), e.content.clone()))
        .collect();
    assert_eq!(plain(&extract_solid(&bytes).unwrap()), expected);
    assert_eq!(plain(&decompress_archive(&bytes, ArchiveForm::Solid).unwrap()), expected);
    assert_eq!(detect_form(&bytes), ArchiveForm::Solid);
}

fn sample_tree(count: usize) -> Vec<TreeEntry> {
    (0..count)
        .map(|i| {
            let body = format!(
                "{{\"id\": {}, \"name\": \"item number {}\", \"tags\": [\"alpha\", \"beta\", \"gamma\"], \"payload\": \"{}\"}}\n",
                i,
                i,
                "lorem ipsum dolor sit amet ".repeat(20 + i % 7)
            )
            .repeat(8);
            TreeEntry {
                path: format!("items/{}.json", i),
                is_directory: false,
                modified: 0,
                content: body.into_bytes(),
            }
        })
        .collect()
}

#[test]
fn few_samples_give_an_empty_dictionary() {
    let tree = sample_tree(7);
    assert_eq!(select_samples(&tree).len(), 7);
    assert_eq!(generate_global_dictionary(&tree).unwrap(), Vec::<u8>::new());
    assert_eq!(train_dictionary(&Vec::new()).unwrap(), Vec::<u8>::new());
}

#[test]
fn samples_are_the_first_files_cut_to_size() {
    let mut tree = vec![dir("d"), file("big", &noise(70000, 1)), file("small", b"abc")];
    for i in 0..120 {
        tree.push(file(&format!("f{}", i), &[i as u8; 8]));
    }
    let samples = select_samples(&tree);
    assert_eq!(samples.len(), 100);
    assert_eq!(samples[0], &tree[1].content[..65536]);
    assert_eq!(samples[1], b"abc".to_vec());
    assert_eq!(samples[2], vec![0u8; 8]);
    assert_eq!(samples[99], vec![97u8; 8]);
}

#[test]
fn trained_dictionary_is_used_for_the_round_trip() {
    let tree = sample_tree(60);
    let dictionary = generate_global_dictionary(&tree).unwrap();
    assert!(!dictionary.is_empty());
    assert!(dictionary.len() <= 65536);
    let bytes = compress_directory_solid(&options(true, 3), &tree).unwrap();
    let archive = decode_solid(&bytes).unwrap();
    assert_eq!(archive.dictionary, dictionary);
    assert_eq!(bytes[..8], (dictionary.len() as u64).to_le_bytes());
    let expected: Vec<(String, Vec<u8>)> =
        tree.iter().map(|e| (e.path.clone(), e.content.clone())).collect();
    assert_eq!(plain(&extract_solid(&bytes).unwrap()), expected);
}

#[test]
fn blob_read_with_another_dictionary_does_not_give_the_files() {
    let tree = sample_tree(60);
    let bytes = compress_directory_solid(&options(true, 3), &tree).unwrap();
    let archive = decode_solid(&bytes).unwrap();
    let other = encode_solid(&[], &archive.blob, &archive.index);
    let expected: Vec<(String, Vec<u8>)> =
        tree.iter().map(|e| (e.path.clone(), e.content.clone())).collect();
    match extract_solid(&other) {
        Ok(out) => assert_ne!(plain(&out), expected),
        Err(e) => assert!(matches!(e, DecompressionError::DecompressionFailed(_))),
    }
}

fn training_ends(tree: &Vec<TreeEntry>) {
    match generate_global_dictionary(tree) {
        Err(CompressionError::DictionaryError(text)) => assert!(!text.is_empty()),
        Ok(d) => assert!(8 <= d.len() && d.len() <= 65536),
        Err(other) => panic!("unexpected: {:?}", other),
    }
}

fn tree_of_sizes(sizes: &[usize]) -> Vec<TreeEntry> {
    sizes
        .iter()
        .enumerate()
        .map(|(i, n)| file(&format!("f{}", i), &noise(*n, i as u32 + 1)))
        .collect()
}

#[test]
fn eight_samples_of_eight_bytes_are_enough_to_train_on() {
    let tree: Vec<TreeEntry> = (0..8).map(|i| file(&format!("f{}", i), b"12345678")).collect();
    assert_eq!(select_samples(&tree).len(), 8);
    let dictionary = generate_global_dictionary(&tree).unwrap();
    assert!(!dictionary.is_empty());
    let bytes = compress_directory_solid(&options(true, 3), &tree).unwrap();
    assert_eq!(decode_solid(&bytes).unwrap().dictionary, dictionary);
    let out = extract_solid(&bytes).unwrap();
    assert_eq!(out.len(), 8);
    assert_eq!(out[7].content, b"12345678");
}

#[test]
fn small_and_empty_files_are_samples_too() {
    let mut tree: Vec<TreeEntry> = (0..20).map(|i| file(&format!("f{}", i), b"1234567")).collect();
    tree.push(file("none", b""));
    tree.push(dir("sub"));
    tree.push(file("long", b"12345678"));
    let samples = select_samples(&tree);
    assert_eq!(samples.len(), 22);
    assert_eq!(samples[0], b"1234567".to_vec());
    assert_eq!(samples[20], Vec::<u8>::new());
    assert_eq!(samples[21], b"12345678".to_vec());
    assert!(zippy::compress::is_trainable(&samples));
    training_ends(&tree);
}

#[test]
fn training_share_is_the_first_three_quarters() {
    let sizes = |sizes: &[usize]| -> Vec<Vec<u8>> { sizes.iter().map(|n| vec![7u8; *n]).collect() };
    assert!(!zippy::compress::is_trainable(&sizes(&[1; 8])));
    assert!(!zippy::compress::is_trainable(&sizes(&[1, 1, 1, 1, 1, 2, 100, 100])));
    assert!(zippy::compress::is_trainable(&sizes(&[1, 1, 1, 1, 2, 2, 0, 0])));
    assert!(!zippy::compress::is_trainable(&sizes(&[1; 10])));
    assert!(zippy::compress::is_trainable(&sizes(&[1; 11])));
    assert!(!zippy::compress::is_trainable(&sizes(&[8])));
    assert!(!zippy::compress::is_trainable(&sizes(&[0, 0, 0, 8])));
    assert!(zippy::compress::is_trainable(&sizes(&[0, 0, 8, 0])));
    assert!(!zippy::compress::is_trainable(&sizes(&[])));
}

#[test]
fn training_on_eight_samples_of_two_bytes_ends() {
    training_ends(&tree_of_sizes(&[2; 8]));
}

#[test]
fn training_on_a_share_of_exactly_eight_bytes_ends() {
    training_ends(&tree_of_sizes(&[1, 1, 1, 1, 2, 2, 0, 0]));
    training_ends(&tree_of_sizes(&[8, 0, 0, 0, 0, 0, 0, 0]));
    training_ends(&tree_of_sizes(&[0, 0, 0, 0, 0, 8, 0, 0]));
}

#[test]
fn training_on_eleven_samples_of_one_byte_ends() {
    training_ends(&tree_of_sizes(&[1; 11]));
}

#[test]
fn training_on_a_hundred_samples_of_one_byte_ends() {
    training_ends(&tree_of_sizes(&[1; 100]));
}

#[test]
fn training_on_small_samples_before_large_ones_ends() {
    training_ends(&tree_of_sizes(&[3, 0, 5, 1, 0, 2, 70000, 4000, 9, 0, 300, 1]));
    training_ends(&tree_of_sizes(&[0, 0, 0, 0, 0, 0, 0, 0, 0, 0, 0, 9, 5000, 5000, 5000, 5000]));
}

#[test]
fn a_training_share_under_eight_bytes_is_refused() {
    let tree = tree_of_sizes(&[1; 8]);
    assert!(matches!(
        generate_global_dictionary(&tree),
        Err(CompressionError::DictionaryError(_))
    ));
    assert!(matches!(
        compress_directory_solid(&options(true, 3), &tree),
        Err(CompressionError::DictionaryError(_))
    ));
    let tree = tree_of_sizes(&[0, 0, 0, 0, 0, 0, 5000, 5000]);
    assert!(matches!(
        generate_global_dictionary(&tree),
        Err(CompressionError::DictionaryError(_))
    ));
}

#[test]
fn a_dictionary_is_kept_up_to_its_largest_size() {
    assert_eq!(zippy::compress::accept_dictionary(vec![1u8; 65536]).unwrap(), vec![1u8; 65536]);
    assert_eq!(zippy::compress::accept_dictionary(Vec::new()).unwrap(), Vec::<u8>::new());
    assert!(matches!(
        zippy::compress::accept_dictionary(vec![1u8; 65537]),
        Err(CompressionError::DictionaryError(_))
    ));
}

#[test]
fn training_on_eight_samples_of_nine_bytes_ends() {
    training_ends(&(0..8).map(|i| file(&format!("f{}", i), b"123456789")).collect());
}

#[test]
fn training_on_a_hundred_small_samples_ends() {
    training_ends(&(0..100u32).map(|i| file(&format!("f{}", i), &noise(8 + (i as usize % 5), i))).collect());
}

#[test]
fn training_on_samples_of_mixed_sizes_ends() {
    training_ends(
        &(0..40u32)
            .map(|i| file(&format!("f{}", i), &noise(8 + (i as usize * 997) % 3000, i)))
            .collect(),
    );
}

#[test]
fn training_on_eight_large_samples_ends() {
    training_ends(&(0..8u32).map(|i| file(&format!("f{}", i), &noise(70000, i))).collect());
}

#[test]
fn training_on_equal_samples_ends() {
    training_ends(&(0..30).map(|i| file(&format!("f{}", i), &[b'a'; 500])).collect());
}

#[test]
fn training_on_zeros_ends() {
    training_ends(&(0..12).map(|i| file(&format!("f{}", i), &[0u8; 8])).collect());
}

#[test]
fn solid_layout_byte_for_byte() {
    let index = vec![
        SolidEntry { path: String::from("a"), start: 0, length: 2 },
        SolidEntry { path: String::from("bé"), start: 2, length: 0x0102 },
    ];
    let bytes = encode_solid(&[7, 7, 7], &[1, 2, 3, 4], &index);
    let mut expected: Vec<u8> = Vec::new();
    expected.extend_from_slice(&3u64.to_le_bytes());
    expected.extend_from_slice(&[7, 7, 7]);
    expected.extend_from_slice(&[1, 2, 3, 4]);
    expected.extend_from_slice(&2u64.to_le_bytes());
    expected.extend_from_slice(&1u64.to_le_bytes());
    expected.push(b'a');
    expected.extend_from_slice(&0u64.to_le_bytes());
    expected.extend_from_slice(&2u64.to_le_bytes());
    expected.extend_from_slice(&3u64.to_le_bytes());
    expected.extend_from_slice(&[b'b', 0xc3, 0xa9]);
    expected.extend_from_slice(&2u64.to_le_bytes());
    expected.extend_from_slice(&[2, 1, 0, 0, 0, 0, 0, 0]);
    assert_eq!(bytes, expected);
}

#[test]
fn solid_archive_is_read_back_as_it_was_written() {
    let tree = vec![file("a", &noise(3000, 1)), file("b", &[])];
    let bytes = build_solid_archive(&tree, b"raw content dictionary", 3).unwrap();
    let archive = decode_solid(&bytes).unwrap();
    assert_eq!(archive.dictionary, b"raw content dictionary");
    assert_eq!(archive.index.len(), 2);
    assert_eq!(archive.index[1].start, 3000);
    assert_eq!(archive.index[1].length, 0);
    let blob_len = bytes.len() - 8 - 22 - 8 - (8 + 1 + 16) * 2;
    assert_eq!(archive.blob.len(), blob_len);
    assert_eq!(archive.blob, &bytes[30..30 + blob_len]);
    let out = extract_solid(&bytes).unwrap();
    assert_eq!(out[0].content, tree[0].content);
    assert_eq!(out[1].content, Vec::<u8>::new());
}

#[test]
fn solid_archive_of_nothing() {
    let bytes = compress_directory_solid(&options(true, 3), &Vec::new()).unwrap();
    assert_eq!(bytes[..8], 0u64.to_le_bytes());
    assert_eq!(bytes[bytes.len() - 8..], 0u64.to_le_bytes());
    assert!(bytes.len() > 16);
    assert_eq!(extract_solid(&bytes).unwrap().len(), 0);
}

#[test]
fn dictionary_above_the_ceiling_is_refused() {
    let tree = vec![file("a", b"hello")];
    let mut bytes = compress_directory_solid(&options(true, 3), &tree).unwrap();
    bytes[..8].copy_from_slice(&(100u64 * 1024 * 1024 + 1).to_le_bytes());
    assert!(decode_solid(&bytes).is_none());
    assert!(matches!(extract_solid(&bytes), Err(DecompressionError::InvalidFormat)));
    bytes[..8].copy_from_slice(&u64::MAX.to_le_bytes());
    assert!(matches!(extract_solid(&bytes), Err(DecompressionError::InvalidFormat)));
    let mut huge = (100u64 * 1024 * 1024 + 1).to_le_bytes().to_vec();
    huge.extend_from_slice(&[0u8; 64]);
    assert!(matches!(
        decompress_archive(&huge, ArchiveForm::Solid),
        Err(DecompressionError::InvalidFormat)
    ));
    assert_eq!(detect_form(&huge), ArchiveForm::Plain);
}

#[test]
fn dictionary_at_the_ceiling_is_read() {
    let dictionary = vec![b'd'; 100 * 1024 * 1024];
    let tree = vec![file("a", b"hello")];
    let bytes = build_solid_archive(&tree, &dictionary, 1).unwrap();
    let out = extract_solid(&bytes).unwrap();
    assert_eq!(out[0].content, b"hello");
}

#[test]
fn truncated_solid_archives_are_refused() {
    let tree = vec![file("a", &noise(500, 1)), file("b", b"xyz")];
    let bytes = compress_directory_solid(&options(true, 3), &tree).unwrap();
    for cut in 0..bytes.len() {
        assert!(extract_solid(&bytes[..cut]).is_err());
        assert!(decode_solid(&bytes[..cut]).is_none());
    }
}

#[test]
fn solid_index_outside_the_blob_is_refused() {
    let tree = vec![file("a", b"hello")];
    let bytes = compress_directory_solid(&options(true, 3), &tree).unwrap();
    let archive = decode_solid(&bytes).unwrap();
    for (start, length) in [(0u64, 6u64), (5, 1), (6, 0), (u64::MAX, 1), (1, u64::MAX)] {
        let index = vec![SolidEntry { path: String::from("a"), start, length }];
        let bad = encode_solid(&archive.dictionary, &archive.blob, &index);
        assert!(matches!(extract_solid(&bad), Err(DecompressionError::InvalidFormat)));
    }
    let index = vec![SolidEntry { path: String::from("a"), start: 5, length: 0 }];
    let fine = encode_solid(&archive.dictionary, &archive.blob, &index);
    assert_eq!(extract_solid(&fine).unwrap()[0].content, Vec::<u8>::new());
}

#[test]
fn solid_archive_with_an_unsafe_path_is_refused() {
    let bytes = compress_directory_solid(&options(true, 3), &vec![file("/abs", b"x")]).unwrap();
    assert!(matches!(extract_solid(&bytes), Err(DecompressionError::InvalidFormat)));
    let bytes =
        compress_directory_solid(&options(true, 3), &vec![file("../../etc/passwd", b"x")])
            .unwrap();
    assert_eq!(extract_solid(&bytes).unwrap()[0].path, "etc/passwd");
}

#[test]
fn solid_archive_with_a_broken_blob_is_refused() {
    let tree = vec![file("a", &noise(500, 1))];
    let bytes = compress_directory_solid(&options(true, 3), &tree).unwrap();
    let archive = decode_solid(&bytes).unwrap();
    let mut blob = archive.blob.clone();
    let mid = blob.len() / 2;
    blob[mid] ^= 0xff;
    blob[mid + 1] ^= 0xff;
    let bad = encode_solid(&archive.dictionary, &blob, &archive.index);
    match extract_solid(&bad) {
        Ok(out) => assert_ne!(out[0].content, tree[0].content),
        Err(_) => {}
    }
    let mut cut = archive.blob.clone();
    cut.truncate(cut.len() - 3);
    let bad = encode_solid(&archive.dictionary, &cut, &archive.index);
    assert!(extract_solid(&bad).is_err());
}

#[test]
fn compress_directory_follows_the_options() {
    let tree = vec![file("a.bin", b"hello"), file("b.bin", b"world")];
    match compress_directory(&options(true, 3), &tree).unwrap() {
        DirectoryArchive::Solid(bytes) => {
            assert_eq!(bytes, compress_directory_solid(&options(true, 3), &tree).unwrap());
        }
        DirectoryArchive::Plain(_) => panic!("asked for a solid archive"),
    }
    match compress_directory(&options(false, 3), &tree).unwrap() {
        DirectoryArchive::Plain(out) => {
            assert_eq!(out.bytes, compress_folder(&options(false, 3), &tree).bytes);
        }
        DirectoryArchive::Solid(_) => panic!("asked for a plain archive"),
    }
}

#[test]
fn plain_archive_uses_the_level_of_each_profile() {
    let content = b"abcabcabc".repeat(5000);
    let tree = vec![file("x.jpg", &content)];
    let out = compress_folder(&options(false, 22), &tree);
    let entries = decode_plain(&out.bytes).unwrap();
    let at_one = process_file("x.jpg", &content, 1).unwrap();
    assert_eq!(entries[0].compressed_bytes, at_one);
}

#[test]
fn what_is_no_archive_is_refused() {
    for form in [ArchiveForm::Plain, ArchiveForm::Solid] {
        assert!(matches!(decompress_archive(&[], form), Err(DecompressionError::InvalidFormat)));
        assert!(matches!(
            decompress_archive(b"garbage", form),
            Err(DecompressionError::InvalidFormat)
        ));
    }
    assert_eq!(detect_form(&[]), ArchiveForm::Plain);
}

#[test]
fn default_decompression_options_are_empty() {
    let o = DecompressionOptions::default();
    assert_eq!(o.input_path, "");
    assert_eq!(o.output_path, "");
}

#[test]
fn solid_archive_at_any_level() {
    let tree = vec![file("a", &noise(3000, 1)), file("b", b"xyz")];
    for level in [i32::MIN, -3, 0, 22, 99] {
        let bytes = compress_directory_solid(&options(true, level), &tree).unwrap();
        let out = extract_solid(&bytes).unwrap();
        assert_eq!(out[0].content, tree[0].content);
        assert_eq!(out[1].content, tree[1].content);
    }
}

#[test]
fn blob_is_found_whatever_the_index_holds() {
    let tree = vec![file("\u{28}\u{b5}\u{2f}\u{fd}", b"hello"), file("zz", b"world")];
    let bytes = build_solid_archive(&tree, &[0x28, 0xb5, 0x2f, 0xfd, 1, 2, 3], 3).unwrap();
    let archive = decode_solid(&bytes).unwrap();
    assert_eq!(archive.dictionary, vec![0x28, 0xb5, 0x2f, 0xfd, 1, 2, 3]);
    assert_eq!(archive.index.len(), 2);
    let out = extract_solid(&bytes).unwrap();
    assert_eq!(out[0].content, b"hello");
    assert_eq!(out[1].content, b"world");
}

#[test]
fn a_dictionary_that_the_compressor_refuses_is_a_codec_error() {
    let mut dictionary = vec![0x37, 0xa4, 0x30, 0xec];
    dictionary.extend_from_slice(&[0xffu8; 64]);
    let tree = vec![file("a", b"hello")];
    match build_solid_archive(&tree, &dictionary, 3) {
        Err(CompressionError::CompressionFailed(text)) => assert!(!text.is_empty()),
        other => panic!("unexpected: {:?}", other.map(|v| v.len())),
    }
}

#[test]
fn bytes_behind_the_end_of_a_plain_archive_are_not_read() {
    let entries = vec![ArchiveEntry {
        relative_path: String::from("a"),
        compressed_bytes: vec![1, 2, 3],
    }];
    let mut bytes = encode_plain(&entries);
    bytes.extend_from_slice(b"whatever follows");
    let back = decode_plain(&bytes).unwrap();
    assert_eq!(back.len(), 1);
    assert_eq!(back[0].compressed_bytes, vec![1, 2, 3]);
}

#[test]
fn samples_that_cannot_be_trained_on_are_refused() {
    let mut samples: Vec<Vec<u8>> = (0..8).map(|_| b"12345678".to_vec()).collect();
    assert!(zippy::compress::is_trainable(&samples));
    assert!(train_dictionary(&samples).is_ok());
    let tiny: Vec<Vec<u8>> = (0..8).map(|_| b"1".to_vec()).collect();
    assert!(!zippy::compress::is_trainable(&tiny));
    match train_dictionary(&tiny) {
        Err(CompressionError::DictionaryError(text)) => assert!(!text.is_empty()),
        other => panic!("unexpected: {:?}", other.map(|d| d.len())),
    }
    samples[3] = vec![0u8; 65537];
    assert!(!zippy::compress::is_trainable(&samples));
    assert!(matches!(train_dictionary(&samples), Err(CompressionError::DictionaryError(_))));
    let many: Vec<Vec<u8>> = (0..101).map(|_| b"12345678".to_vec()).collect();
    assert!(matches!(train_dictionary(&many), Err(CompressionError::DictionaryError(_))));
    let few: Vec<Vec<u8>> = (0..7).map(|_| b"1".to_vec()).collect();
    assert_eq!(train_dictionary(&few).unwrap(), Vec::<u8>::new());
}

#[test]
fn an_archive_with_an_overlong_record_is_refused_in_either_form() {
    let mut bytes = vec![b'a', 0];
    bytes.extend_from_slice(&1000u64.to_le_bytes());
    bytes.extend_from_slice(&[1, 2, 3, 0]);
    for form in [ArchiveForm::Plain, ArchiveForm::Solid] {
        assert!(matches!(
            decompress_archive(&bytes, form),
            Err(DecompressionError::InvalidFormat)
        ));
    }
}

#[test]
fn an_archive_with_an_absolute_path_is_refused() {
    let frame = process_file("x.bin", b"data", 1).unwrap();
    for bad in ["/etc/passwd", "C:x"] {
        let entries = vec![
            ArchiveEntry { relative_path: String::from(bad), compressed_bytes: frame.clone() },
            ArchiveEntry { relative_path: String::from("later"), compressed_bytes: frame.clone() },
        ];
        assert!(matches!(
            decompress_archive(&encode_plain(&entries), ArchiveForm::Plain),
            Err(DecompressionError::InvalidFormat)
        ));
    }
}

#[test]
fn records_before_a_broken_one_are_still_extracted() {
    let good = process_file("a.bin", b"first", 3).unwrap();
    let entries = vec![
        ArchiveEntry { relative_path: String::from("a.bin"), compressed_bytes: good },
        ArchiveEntry { relative_path: String::from("b.bin"), compressed_bytes: vec![1, 2, 3] },
        ArchiveEntry { relative_path: String::from("/c.bin"), compressed_bytes: Vec::new() },
    ];
    let bytes = encode_plain(&entries);
    assert!(extract_plain(&bytes).is_err());
    let records = decode_plain(&bytes).unwrap();
    assert_eq!(records.len(), 3);
    let first = zippy::decompress::extract_record(&records[0]).unwrap();
    assert_eq!(first.path, "a.bin");
    assert!(!first.is_directory);
    assert_eq!(first.content, b"first".to_vec());
    assert!(matches!(
        zippy::decompress::extract_record(&records[1]),
        Err(DecompressionError::DecompressionFailed(_))
    ));
    assert!(matches!(
        zippy::decompress::extract_record(&records[2]),
        Err(DecompressionError::InvalidFormat)
    ));
}

#[test]
fn a_record_is_extracted_under_its_safe_path() {
    let entry = ArchiveEntry {
        relative_path: String::from(" ../x/./y?.bin "),
        compressed_bytes: process_file("y.bin", b"abc", 1).unwrap(),
    };
    let out = zippy::decompress::extract_record(&entry).unwrap();
    assert_eq!(out.path, "x/y_.bin");
    assert_eq!(out.content, b"abc".to_vec());
}

#[test]
fn solid_records_are_extracted_one_by_one() {
    let tree = vec![file("a.txt", b"hello  \n"), file("b/c.bin", b"world")];
    let bytes = compress_directory_solid(&options(true, 3), &tree).unwrap();
    let mut archive = decode_solid(&bytes).unwrap();
    let buffer = zippy::decompress::read_blob(&archive).unwrap();
    assert_eq!(buffer, b"hello  \nworld".to_vec());
    let first = zippy::decompress::extract_solid_entry(&buffer, &archive.index[0]).unwrap();
    assert_eq!((first.path.as_str(), first.content.as_slice()), ("a.txt", &b"hello  \n"[..]));
    let second = zippy::decompress::extract_solid_entry(&buffer, &archive.index[1]).unwrap();
    assert_eq!((second.path.as_str(), second.content.as_slice()), ("b/c.bin", &b"world"[..]));
    let outside = SolidEntry { path: String::from("d"), start: 10, length: 4 };
    assert!(matches!(
        zippy::decompress::extract_solid_entry(&buffer, &outside),
        Err(DecompressionError::InvalidFormat)
    ));
    let rooted = SolidEntry { path: String::from("C:d"), start: 0, length: 1 };
    assert!(matches!(
        zippy::decompress::extract_solid_entry(&buffer, &rooted),
        Err(DecompressionError::InvalidFormat)
    ));
    archive.blob.truncate(4);
    assert!(matches!(
        zippy::decompress::read_blob(&archive),
        Err(DecompressionError::DecompressionFailed(_))
    ));
}

#[test]
fn every_file_with_a_path_that_can_be_written_is_stored() {
    let tree = vec![file("a.bin", b"x"), file("", b"y"), dir("d"), file("b\0c", b"z"), file("e", b"")];
    let out = compress_folder(&options(false, 3), &tree);
    assert_eq!(out.stored, vec![true, false, false, true]);
    assert_eq!(out.failures.len(), 2);
    assert!(out.failures.iter().all(|e| matches!(e, CompressionError::InvalidFormat)));
}
