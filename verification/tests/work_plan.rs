use pid_ga::work::{chunk_size_of, gather, split_chunks, work_pool, Work};

#[test]
fn chunk_size_is_the_quotient_rounded_up() {
    assert_eq!(chunk_size_of(10, 4), 3);
    assert_eq!(chunk_size_of(12, 4), 3);
    assert_eq!(chunk_size_of(13, 4), 4);
    assert_eq!(chunk_size_of(1000, 4), 250);
    assert_eq!(chunk_size_of(3, 4), 1);
    assert_eq!(chunk_size_of(0, 4), 0);
    assert_eq!(chunk_size_of(10, 1), 10);
    assert_eq!(chunk_size_of(10, 0), 10);
    assert_eq!(chunk_size_of(usize::MAX, 2), usize::MAX / 2 + 1);
}

#[test]
fn batch_is_cut_into_consecutive_chunks() {
    let chunks = split_chunks((0..10).collect::<Vec<u32>>(), 4);
    assert_eq!(chunks, vec![vec![0, 1, 2], vec![3, 4, 5], vec![6, 7, 8], vec![9]]);
    let chunks = split_chunks((0..12).collect::<Vec<u32>>(), 4);
    assert_eq!(chunks, vec![vec![0, 1, 2], vec![3, 4, 5], vec![6, 7, 8], vec![9, 10, 11]]);
    // Nine tasks in chunks of three leave the fourth worker without a chunk.
    let chunks = split_chunks((0..9).collect::<Vec<u32>>(), 4);
    assert_eq!(chunks, vec![vec![0, 1, 2], vec![3, 4, 5], vec![6, 7, 8]]);
}

#[test]
fn small_batch_is_cut_into_single_tasks() {
    let chunks = split_chunks(vec!['a', 'b', 'c'], 8);
    assert_eq!(chunks, vec![vec!['a'], vec!['b'], vec!['c']]);
}

#[test]
fn batch_without_workers_is_one_chunk() {
    assert_eq!(split_chunks(vec![1, 2, 3], 0), vec![vec![1, 2, 3]]);
    assert_eq!(split_chunks(vec![1, 2, 3], 1), vec![vec![1, 2, 3]]);
}

#[test]
fn empty_batch_has_no_chunk() {
    assert!(split_chunks(Vec::<u8>::new(), 4).is_empty());
    assert!(split_chunks(Vec::<u8>::new(), 0).is_empty());
}

#[test]
fn chunks_are_no_more_than_workers() {
    for n in 0..60usize {
        for w in 1..12usize {
            let chunks = split_chunks((0..n).collect::<Vec<usize>>(), w);
            assert!(chunks.len() <= w);
            let size = chunk_size_of(n, w);
            for (k, chunk) in chunks.iter().enumerate() {
                assert!(!chunk.is_empty() && chunk.len() <= size);
                if k + 1 < chunks.len() {
                    assert_eq!(chunk.len(), size);
                }
            }
            assert_eq!(chunks.concat(), (0..n).collect::<Vec<usize>>());
        }
    }
}

#[test]
fn gathering_drops_the_workers_that_did_not_finish() {
    let all = gather(vec![Some(vec![1, 2]), None, Some(vec![]), Some(vec![3]), None]);
    assert_eq!(all, vec![1, 2, 3]);
    assert_eq!(gather(Vec::<Option<Vec<u8>>>::new()), Vec::<u8>::new());
    assert_eq!(gather(vec![None::<Vec<u8>>, None]), Vec::<u8>::new());
}

/// Doubles its inputs and tags each output with the chunk it was in.
#[derive(Clone)]
struct Doubler {
    id: usize,
}

impl Work for Doubler {
    type Input = u32;
    type Output = (usize, u32);

    fn work(&mut self, input: Vec<u32>) -> Vec<(usize, u32)> {
        input.into_iter().map(|x| (self.id, 2 * x)).collect()
    }

    fn set_id(&mut self, id: usize) {
        self.id = id;
    }
}

#[test]
fn pool_hands_each_chunk_to_a_numbered_copy() {
    let out = work_pool(3, (0..7).collect(), Doubler { id: 99 });
    assert_eq!(out, vec![(0, 0), (0, 2), (0, 4), (1, 6), (1, 8), (1, 10), (2, 12)]);
}

#[test]
fn pool_without_workers_uses_the_worker_itself() {
    let out = work_pool(0, vec![1, 2, 3], Doubler { id: 99 });
    assert_eq!(out, vec![(99, 2), (99, 4), (99, 6)]);
}

#[test]
fn pool_of_an_empty_batch_returns_nothing() {
    assert!(work_pool(4, Vec::new(), Doubler { id: 0 }).is_empty());
}

/// Returns only the even inputs, last first.
#[derive(Clone)]
struct Picky;

impl Work for Picky {
    type Input = u32;
    type Output = u32;

    fn work(&mut self, input: Vec<u32>) -> Vec<u32> {
        input.into_iter().rev().filter(|x| x % 2 == 0).collect()
    }

    fn set_id(&mut self, _id: usize) {}
}

#[test]
fn pool_takes_what_the_workers_return() {
    assert_eq!(work_pool(2, (0..8).collect(), Picky), vec![2, 0, 6, 4]);
}
