use powdr::continuations::{chunk_inputs, next_chunk};

#[test]
fn a_short_chunk_ends_the_run() {
    assert_eq!(next_chunk(0, 0, 10, 0, 9, &vec![]), None);
    assert_eq!(next_chunk(25, 3, 10, 2, 4, &vec![(30, 4096)]), None);
}

#[test]
fn the_first_chunk_proves_all_its_rows() {
    // Accesses as (step, address); the next chunk covers steps 10..20.
    let accesses = vec![
        (3, 0),
        (10, 5 * 1024 + 8),
        (12, 2048),
        (15, 5 * 1024),
        (19, 7 * 1024 - 1),
        (20, 9 * 1024),
    ];
    let (proven, pages) = next_chunk(0, 0, 10, 4, 10, &accesses).unwrap();
    assert_eq!(proven, 10);
    assert_eq!(pages, vec![2, 5, 6]);
}

#[test]
fn later_chunks_skip_their_start_and_the_row_proven_before() {
    let accesses = vec![(10, 100), (16, 3000), (25, 1 << 20), (26, 1 << 21)];
    // 10 + 10 - 3 - 1 = 16: the next chunk covers steps 16..26.
    let (proven, pages) = next_chunk(10, 1, 10, 3, 12, &accesses).unwrap();
    assert_eq!(proven, 16);
    assert_eq!(pages, vec![2, 1024]);
}

#[test]
fn chunk_inputs_hold_registers_and_page_words() {
    let registers = vec![7, 8];
    let pages = vec![0, 2];
    let memory = vec![(4, 11), (2048 + 1020, 12), (8, 13)];
    let r = chunk_inputs(&registers, &pages, &memory);
    assert_eq!(r.len(), 2 + 1 + 2 * 257);
    assert_eq!(&r[..3], &[7, 8, 2]);
    assert_eq!(r[3], 0);
    assert_eq!(&r[4..7], &[0, 11, 13]);
    assert!(r[7..260].iter().all(|w| *w == 0));
    assert_eq!(r[260], 2048);
    assert_eq!(r[260 + 256], 12);
}
