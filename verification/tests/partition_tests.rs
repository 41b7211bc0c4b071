use nbody::partition::{count_chunks, partition, Chunk};

fn bounds(chunks: &Vec<Chunk>) -> Vec<(usize, usize)> {
    chunks.iter().map(|c| (c.lo, c.hi)).collect()
}

#[test]
fn partition_is_balanced() {
    assert_eq!(bounds(&partition(10, 3)), vec![(0, 4), (4, 7), (7, 10)]);
    assert_eq!(bounds(&partition(10, 4)), vec![(0, 3), (3, 6), (6, 8), (8, 10)]);
    assert_eq!(bounds(&partition(8, 2)), vec![(0, 4), (4, 8)]);
    assert_eq!(bounds(&partition(65536, 1)), vec![(0, 65536)]);
}

#[test]
fn partition_never_has_more_chunks_than_indices() {
    assert_eq!(bounds(&partition(3, 8)), vec![(0, 1), (1, 2), (2, 3)]);
    assert_eq!(bounds(&partition(1, 112)), vec![(0, 1)]);
    assert_eq!(count_chunks(3, 8), 3);
    assert_eq!(count_chunks(100, 8), 8);
}

#[test]
fn partition_without_workers_or_indices_is_one_chunk() {
    assert_eq!(bounds(&partition(5, 0)), vec![(0, 5)]);
    assert_eq!(bounds(&partition(0, 4)), vec![(0, 0)]);
    assert_eq!(bounds(&partition(0, 0)), vec![(0, 0)]);
    assert_eq!(count_chunks(0, 0), 1);
}

#[test]
fn partition_is_a_disjoint_cover() {
    for n in 0..60usize {
        for workers in 0..70usize {
            let chunks = partition(n, workers);
            let mut seen = vec![0usize; n];
            for c in &chunks {
                assert!(c.lo <= c.hi && c.hi <= n);
                for i in c.lo..c.hi {
                    seen[i] += 1;
                }
            }
            assert!(seen.iter().all(|&count| count == 1));
            let sizes: Vec<usize> = chunks.iter().map(|c| c.hi - c.lo).collect();
            let most = *sizes.iter().max().unwrap();
            let least = *sizes.iter().min().unwrap();
            assert!(most - least <= 1);
        }
    }
}
