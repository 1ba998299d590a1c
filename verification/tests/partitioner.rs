use lockfree::AtomicChunksMut;
use lockfree::ChunkHandle;

fn drain(it: &AtomicChunksMut<i32>) -> Vec<ChunkHandle> {
    let mut handles = vec![];
    while let Some(h) = it.next() {
        handles.push(h);
    }
    handles
}

#[test]
fn test_ait() {
    let v = vec![0, 1, 2, 3, 4, 5, 6, 7, 8, 9, 10];
    let it = AtomicChunksMut::new(v, 3);
    let c = drain(&it);

    assert_eq!(c.iter().map(|h| h.index).collect::<Vec<_>>(), vec![0, 1, 2, 3]);
    assert_eq!(c.iter().map(|h| *it.get(h.start)).collect::<Vec<_>>(), vec![0, 3, 6, 9]);
}

#[test]
fn stress_test_ait() {
    let v: Vec<usize> = (0..10000).collect();
    let it = AtomicChunksMut::new(v, 3);

    crossbeam::scope(|scope| {
        let mut threads = vec![];
        for _ in 0..10 {
            let it = &it;
            threads.push(scope.spawn(move |_| {
                let mut v = vec![];
                while let Some(h) = it.next() {
                    v.push(*it.get(h.start));
                }
                v
            }));
        }

        let mut seen = vec![false; 10000];
        for thread in threads {
            for first in thread.join().unwrap() {
                assert!(first % 3 == 0);
                assert!(!seen[first]);
                seen[first] = true;
            }
        }
    })
    .unwrap();
}

#[test]
fn chunk_ranges_partition_the_buffer() {
    let v = vec![0; 11];
    let it = AtomicChunksMut::new(v, 3);
    let c: Vec<(usize, usize, usize)> = {
        let mut out = vec![];
        while let Some(h) = it.next() {
            out.push((h.index, h.start, h.end));
        }
        out
    };
    assert_eq!(c, vec![(0, 0, 3), (1, 3, 6), (2, 6, 9), (3, 9, 11)]);
}

#[test]
fn exhausted_partitioner_stays_exhausted() {
    let v = vec![7; 5];
    let it = AtomicChunksMut::new(v, 2);
    while it.next().is_some() {}
    assert_eq!(it.next(), None);
    assert_eq!(it.next(), None);
    assert_eq!(it.next(), None);
}

#[test]
fn empty_buffer_yields_no_chunk() {
    let v: Vec<u8> = vec![];
    let it = AtomicChunksMut::new(v, 4);
    assert_eq!(it.next(), None);
}

#[test]
fn stride_longer_than_buffer_yields_one_chunk() {
    let v = vec![1, 2, 3];
    let it = AtomicChunksMut::new(v, 10);
    assert_eq!(it.next(), Some(ChunkHandle { index: 0, start: 0, end: 3 }));
    assert_eq!(it.next(), None);
}

#[test]
fn markers_land_only_in_their_own_chunk() {
    let v: Vec<usize> = vec![usize::MAX; 11];
    let mut it = AtomicChunksMut::new(v, 3);
    let handles = {
        let mut out = vec![];
        while let Some(h) = it.next() {
            out.push(h);
        }
        out
    };
    // Fill each claimed chunk with its worker's own marker, last chunk first,
    // as if the workers finished in an arbitrary order.
    for h in handles.iter().rev() {
        it.write_chunk(h, 100 + h.index);
    }
    let data = it.into_data();
    assert_eq!(data.len(), 11);
    for (x, &value) in data.iter().enumerate() {
        assert_eq!(value, 100 + x / 3);
    }
}

#[test]
fn concurrent_claims_cover_all_indices_once() {
    let v = vec![0u8; 1000];
    let it = AtomicChunksMut::new(v, 7);

    let collected: Vec<Vec<usize>> = crossbeam::scope(|scope| {
        let mut threads = vec![];
        for _ in 0..8 {
            let it = &it;
            threads.push(scope.spawn(move |_| {
                let mut out = vec![];
                while let Some(h) = it.next() {
                    assert_eq!(h.index, h.start / 7);
                    assert_eq!(h.end, (h.start + 7).min(1000));
                    out.push(h.index);
                }
                out
            }));
        }
        threads.into_iter().map(|t| t.join().unwrap()).collect()
    })
    .unwrap();

    let expected_chunks = 1000usize.div_ceil(7);
    let mut seen = vec![false; expected_chunks];
    for thread_indices in &collected {
        for &i in thread_indices {
            assert!(i < expected_chunks);
            assert!(!seen[i]);
            seen[i] = true;
        }
    }
    assert!(seen.iter().all(|&s| s));
}
