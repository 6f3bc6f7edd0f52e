use la_tools::download::{
    backoff_ms, check_body, chunk_at, chunk_count, plan_chunks, push_decimal, range_header,
    url_for_hash, Chunk, ChunkError, ChunkRetry, ChunkStep, Response, CHUNK_SIZE,
};

#[test]
fn two_chunks_for_a_bit_over_one() {
    assert_eq!(chunk_count(20000000), 2);
    let chunks = plan_chunks(20000000);
    assert_eq!(
        chunks,
        vec![
            Chunk { index: 0, begin: 0, end: 16777216 },
            Chunk { index: 1, begin: 16777216, end: 20000000 },
        ]
    );
    assert_eq!(range_header(&chunks[0]), "bytes=0-16777215");
    assert_eq!(range_header(&chunks[1]), "bytes=16777216-19999999");
}

#[test]
fn chunks_partition_the_object() {
    for len in [1u64, 5, CHUNK_SIZE - 1, CHUNK_SIZE, CHUNK_SIZE + 1, 3 * CHUNK_SIZE + 17] {
        let chunks = plan_chunks(len);
        let mut next = 0u64;
        for (i, c) in chunks.iter().enumerate() {
            assert_eq!(c.index, i as u64);
            assert_eq!(c.begin, next);
            assert!(c.begin < c.end && c.end - c.begin <= CHUNK_SIZE);
            next = c.end;
        }
        assert_eq!(next, len);
    }
}

#[test]
fn empty_object_has_no_chunks() {
    assert_eq!(chunk_count(0), 0);
    assert!(plan_chunks(0).is_empty());
}

#[test]
fn exact_chunk_size_is_one_chunk() {
    assert_eq!(chunk_count(CHUNK_SIZE), 1);
    assert_eq!(chunk_at(CHUNK_SIZE, 0), Chunk { index: 0, begin: 0, end: CHUNK_SIZE });
    assert_eq!(chunk_count(2 * CHUNK_SIZE), 2);
    assert_eq!(chunk_at(2 * CHUNK_SIZE, 1).end, 2 * CHUNK_SIZE);
}

#[test]
fn largest_object_splits_without_overflow() {
    let n = chunk_count(u64::MAX);
    assert_eq!(n, u64::MAX / CHUNK_SIZE + 1);
    let last = chunk_at(u64::MAX, n - 1);
    assert_eq!(last.end, u64::MAX);
}

#[test]
fn staging_chunks_rebuilds_the_object() {
    let len = 2 * CHUNK_SIZE + 10;
    let full: Vec<u8> = (0..len).map(|i| (i % 253) as u8).collect();
    let mut staging = vec![0u8; len as usize];
    for c in plan_chunks(len).iter().rev() {
        let body = &full[c.begin as usize..c.end as usize];
        assert_eq!(check_body(c, body.len()), Ok(()));
        staging[c.begin as usize..c.end as usize].copy_from_slice(body);
    }
    assert!(staging == full);
}

#[test]
fn body_of_wrong_length_is_refused() {
    let c = Chunk { index: 0, begin: 0, end: 10 };
    assert_eq!(check_body(&c, 10), Ok(()));
    assert_eq!(check_body(&c, 20), Err(ChunkError::LengthMismatch));
    assert_eq!(check_body(&c, 9), Err(ChunkError::LengthMismatch));
}

#[test]
fn backoff_doubles_from_the_base() {
    assert_eq!(backoff_ms(0), 100);
    assert_eq!(backoff_ms(1), 200);
    assert_eq!(backoff_ms(2), 400);
    assert_eq!(backoff_ms(10), 102400);
    assert_eq!(backoff_ms(57), 100 * (1u64 << 57));
    assert_eq!(backoff_ms(58), u64::MAX);
    assert_eq!(backoff_ms(u32::MAX), u64::MAX);
}

#[test]
fn transient_503_is_retried_then_accepted() {
    let mut r = ChunkRetry::new();
    let mut delays = Vec::new();
    for _ in 0..3 {
        match r.next_step(Response::Status(503)) {
            ChunkStep::Retry { delay_ms } => delays.push(delay_ms),
            ChunkStep::Accept => panic!("503 accepted"),
        }
    }
    assert_eq!(delays, vec![100, 200, 400]);
    assert_eq!(r.next_step(Response::Status(206)), ChunkStep::Accept);
    assert_eq!(r.retry, 3);
}

#[test]
fn full_200_response_is_not_accepted() {
    let mut r = ChunkRetry::new();
    assert_eq!(r.next_step(Response::Status(200)), ChunkStep::Retry { delay_ms: 100 });
    assert_eq!(r.next_step(Response::TransportError), ChunkStep::Retry { delay_ms: 200 });
    assert_eq!(r.next_step(Response::Status(206)), ChunkStep::Accept);
}

#[test]
fn object_url_splits_after_first_byte() {
    let hash: Vec<u8> = (1..=20).collect();
    assert_eq!(
        url_for_hash(&hash),
        "http://la.cdn.gameon.jp/la/patch/objects/01/02030405060708090a0b0c0d0e0f1011121314"
    );
    let high = [0xffu8; 20];
    assert_eq!(
        url_for_hash(&high),
        format!("http://la.cdn.gameon.jp/la/patch/objects/ff/{}", "ff".repeat(19))
    );
}

#[test]
fn decimal_text_appends() {
    let mut s = String::from("n=");
    push_decimal(&mut s, 0);
    push_decimal(&mut s, 905);
    assert_eq!(s, "n=0905");
}
