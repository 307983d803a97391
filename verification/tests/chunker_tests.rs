use rtc_core::chunker::{chunk_all, Chunker, CHUNK_SIZE};

#[test]
fn test_process_in_chunks() {
    let mut test_vec = vec![0u8; CHUNK_SIZE * 2 + 5];
    test_vec[CHUNK_SIZE..CHUNK_SIZE * 2]
        .iter_mut()
        .for_each(|x| *x = 1);
    test_vec[CHUNK_SIZE * 2..].iter_mut().for_each(|x| *x = 2);

    let chunks = chunk_all(&vec![test_vec]);

    assert_eq!(chunks.len(), 3);
    assert_eq!(chunks[0].len(), CHUNK_SIZE);
    assert_eq!(chunks[1].len(), CHUNK_SIZE);
    assert_eq!(chunks[2].len(), 5);

    assert_eq!(chunks[0].iter().all(|x| *x == 0), true);
    assert_eq!(chunks[1].iter().all(|x| *x == 1), true);
    assert_eq!(chunks[2].iter().all(|x| *x == 2), true);
}

#[test]
fn chunk_all_empty_input_yields_no_chunks() {
    let chunks = chunk_all(&Vec::new());
    assert_eq!(chunks.len(), 0);
    let chunks = chunk_all(&vec![Vec::new(), Vec::new()]);
    assert_eq!(chunks.len(), 0);
}

#[test]
fn chunk_all_exact_boundary() {
    let chunks = chunk_all(&vec![vec![7u8; CHUNK_SIZE]]);
    assert_eq!(chunks.len(), 1);
    assert_eq!(chunks[0].len(), CHUNK_SIZE);
}

#[test]
fn chunk_all_concatenation_is_preserved() {
    // inputs of scattered sizes, 39980 bytes in all: ceil gives 3 chunks
    let inputs = vec![vec![1u8; 10], vec![2u8; 20000], vec![3u8; 19970]];
    let total: Vec<u8> = inputs.iter().flatten().copied().collect();
    let chunks = chunk_all(&inputs);
    assert_eq!(chunks.len(), 3);
    assert_eq!(chunks[0].len(), CHUNK_SIZE);
    assert_eq!(chunks[1].len(), CHUNK_SIZE);
    assert_eq!(chunks[2].len(), 39980 - 2 * CHUNK_SIZE);
    let glued: Vec<u8> = chunks.iter().flatten().copied().collect();
    assert_eq!(glued, total);
}

#[test]
fn chunker_streams_and_flushes_tail() {
    let mut ch = Chunker::new();
    let out = ch.push(&vec![9u8; CHUNK_SIZE - 1]);
    assert_eq!(out.len(), 0);
    let out = ch.push(&vec![9u8; 2]);
    assert_eq!(out.len(), 1);
    assert_eq!(out[0].len(), CHUNK_SIZE);
    let tail = ch.finish();
    assert_eq!(tail.unwrap(), vec![9u8; 1]);
    let mut ch = Chunker::new();
    assert!(ch.finish().is_none());
}
