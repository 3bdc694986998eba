use zippy::compress::{compress_entry, write_archive, CompressionJob};
use zippy::error::CompressionError;
use zippy::schedule::{collect_in_order, IndexedJob};
use zippy::tree::TreeEntry;
use zippy::zpp::decode_plain;

fn job(name: &str, payload: &[u8]) -> CompressionJob {
    CompressionJob { relative_path: String::from(name), result: Ok(payload.to_vec()) }
}

fn names(jobs: &[CompressionJob]) -> Vec<String> {
    jobs.iter().map(|j| j.relative_path.clone()).collect()
}

#[test]
fn results_go_back_to_the_places_of_their_jobs() {
    let done = vec![
        IndexedJob { index: 2, job: job("c", &[3]) },
        IndexedJob { index: 0, job: job("a", &[1]) },
        IndexedJob { index: 3, job: job("d", &[4]) },
        IndexedJob { index: 1, job: job("b", &[2]) },
    ];
    let jobs = collect_in_order(done).unwrap();
    assert_eq!(names(&jobs), vec!["a", "b", "c", "d"]);
    assert_eq!(jobs[2].result.as_ref().unwrap(), &vec![3u8]);
}

#[test]
fn failed_jobs_keep_their_places() {
    let done = vec![
        IndexedJob {
            index: 1,
            job: CompressionJob {
                relative_path: String::from("bad"),
                result: Err(CompressionError::CompressionFailed(String::from("x"))),
            },
        },
        IndexedJob { index: 0, job: job("good", &[1]) },
    ];
    let jobs = collect_in_order(done).unwrap();
    assert_eq!(names(&jobs), vec!["good", "bad"]);
    assert!(jobs[1].result.is_err());
}

#[test]
fn no_jobs_give_no_results() {
    assert_eq!(collect_in_order(Vec::new()).unwrap().len(), 0);
}

#[test]
fn a_place_that_occurs_twice_is_refused() {
    let done = vec![
        IndexedJob { index: 0, job: job("a", &[]) },
        IndexedJob { index: 0, job: job("b", &[]) },
    ];
    assert!(collect_in_order(done).is_none());
}

#[test]
fn a_place_beyond_the_jobs_is_refused() {
    let done = vec![
        IndexedJob { index: 0, job: job("a", &[]) },
        IndexedJob { index: 2, job: job("b", &[]) },
    ];
    assert!(collect_in_order(done).is_none());
    let done = vec![IndexedJob { index: usize::MAX, job: job("a", &[]) }];
    assert!(collect_in_order(done).is_none());
}

#[test]
fn archive_is_the_same_whatever_the_order_of_completion() {
    let tree: Vec<TreeEntry> = (0..6u8)
        .map(|i| TreeEntry {
            path: format!("f{}.bin", i),
            is_directory: false,
            modified: 0,
            content: vec![i; 1000 + i as usize],
        })
        .collect();
    let in_order: Vec<CompressionJob> = tree.iter().map(compress_entry).collect();
    let expected = write_archive(in_order).bytes;
    for order in [[5usize, 4, 3, 2, 1, 0], [3, 0, 5, 1, 4, 2], [0, 1, 2, 3, 4, 5]] {
        let done: Vec<IndexedJob> = order
            .iter()
            .map(|&i| IndexedJob { index: i, job: compress_entry(&tree[i]) })
            .collect();
        let jobs = collect_in_order(done).unwrap();
        let out = write_archive(jobs);
        assert_eq!(out.bytes, expected);
        let entries = decode_plain(&out.bytes).unwrap();
        assert_eq!(entries.len(), 6);
        for (i, e) in entries.iter().enumerate() {
            assert_eq!(e.relative_path, format!("f{}.bin", i));
        }
    }
}
