//! The FIFO between a producer and a consumer.

use itertools::assert_equal;
use persisted_hashmap::bytes_buffer::{StreamBuffer, StreamBufferStep};
use rand::rngs::StdRng;
use rand::{RngExt, SeedableRng};

#[test]
fn test() {
    let mut rng = StdRng::seed_from_u64(0);

    // Test scenario:
    // - Producer produces chunks of random sizes.
    // - Consumer tries to consume contiguous chunks of a random size.
    //   If not enough data or data is not contiguous, consumer not proceeds.

    for _ in 0..100 {
        let mut buf = StreamBuffer::new();

        let mut consumer_pos = 0;
        let mut consumer_target = rng.random_range(1..100);

        let mut producer_pos = 0;

        for _ in 0..20 {
            // Producer produces some data.
            let next_producer_pos = producer_pos + rng.random_range(1..100);
            let new_data = (producer_pos..next_producer_pos).collect::<Vec<_>>();
            producer_pos = next_producer_pos;

            buf.process(&new_data, |part1, part2| {
                // Check that the data is correct.
                assert_equal(
                    part1.iter().chain(part2.iter()).copied(),
                    consumer_pos..consumer_pos + part1.len() + part2.len(),
                );

                let want_consume = consumer_target - consumer_pos;

                let result;
                if part1.len() >= want_consume {
                    // Chunk is contiguous, consume it.
                    result = StreamBufferStep::Consumed(want_consume);
                    // On next iteration, ask for next chunk.
                    consumer_pos = consumer_target;
                    consumer_target += rng.random_range(1..100);
                } else {
                    // Chunk is not contiguous, ask for more data.
                    result = StreamBufferStep::WantContiguos(want_consume);
                }
                result
            });
        }
    }
}

#[test]
fn new_items_are_served_in_place() {
    let mut buf = StreamBuffer::new();
    let items = [1u8, 2, 3, 4];
    let mut seen = Vec::new();
    buf.process(&items, |part1, part2| {
        seen.push((part1.to_vec(), part2.to_vec()));
        StreamBufferStep::Consumed(2)
    });
    assert_eq!(seen, vec![(vec![1, 2, 3, 4], vec![]), (vec![3, 4], vec![])]);
}

#[test]
fn wanted_items_become_contiguous() {
    let mut buf = StreamBuffer::new();
    buf.process(&[1u8, 2], |_, _| StreamBufferStep::WantContiguos(4));
    let mut seen = Vec::new();
    buf.process(&[3, 4, 5], |part1, part2| {
        seen.push((part1.to_vec(), part2.to_vec()));
        if part1.len() < 4 {
            StreamBufferStep::WantContiguos(4)
        } else {
            StreamBufferStep::Consumed(5)
        }
    });
    assert_eq!(
        seen,
        vec![(vec![1, 2], vec![3, 4, 5]), (vec![1, 2, 3, 4], vec![5])]
    );
}

#[test]
fn what_is_not_consumed_is_kept() {
    let mut buf = StreamBuffer::new();
    buf.process(&[1u8, 2, 3], |_, _| StreamBufferStep::not_enough_data());
    buf.process(&[4], |_, _| StreamBufferStep::not_enough_data());
    let mut all = Vec::new();
    buf.process(&[5], |part1, part2| {
        all = part1.iter().chain(part2.iter()).copied().collect();
        StreamBufferStep::Consumed(5)
    });
    assert_eq!(all, vec![1, 2, 3, 4, 5]);
}

#[test]
fn stored_items_stay_in_front_when_consumed_in_part() {
    let mut buf = StreamBuffer::new();
    buf.process(&[1u8, 2, 3], |_, _| StreamBufferStep::not_enough_data());
    let mut firsts = Vec::new();
    buf.process(&[4, 5], |part1, _| {
        firsts.push(part1[0]);
        StreamBufferStep::Consumed(1)
    });
    assert_eq!(firsts, vec![1, 2, 3, 4, 5]);
}

#[test]
fn consuming_beyond_the_stored_items_skips_new_ones() {
    let mut buf = StreamBuffer::new();
    buf.process(&[1u8, 2], |_, _| StreamBufferStep::not_enough_data());
    let mut seen = Vec::new();
    buf.process(&[3, 4, 5], |part1, part2| {
        seen.push((part1.to_vec(), part2.to_vec()));
        if part2.is_empty() {
            StreamBufferStep::Consumed(2)
        } else {
            StreamBufferStep::Consumed(3)
        }
    });
    assert_eq!(
        seen,
        vec![(vec![1, 2], vec![3, 4, 5]), (vec![4, 5], vec![])]
    );
}

#[test]
fn an_empty_fifo_serves_nothing() {
    let mut buf: StreamBuffer<u8> = StreamBuffer::new();
    buf.process(&[], |_, _| panic!("there is nothing to consume"));
}

#[test]
fn not_enough_data_never_advances() {
    let mut buf = StreamBuffer::new();
    buf.process(&[1, 2], |_, _| StreamBufferStep::not_enough_data());
    buf.process(&[3], |_, _| StreamBufferStep::not_enough_data());
    let mut seen = Vec::new();
    buf.process(&[], |part1, part2| {
        seen.push((part1.to_vec(), part2.to_vec()));
        StreamBufferStep::not_enough_data()
    });
    assert_eq!(seen, vec![(vec![1, 2, 3], vec![])]);
}

#[test]
fn pieces_do_not_depend_on_how_the_items_are_cut() {
    let targets = [2, 3, 1, 4, 5, 2];
    let items: Vec<u8> = (0..16).collect();
    let cuts: [&[usize]; 4] = [&[16], &[1; 16], &[3, 0, 7, 6], &[5, 5, 5, 1]];
    for cut in cuts {
        let mut buf = StreamBuffer::new();
        let mut pieces: Vec<Vec<u8>> = Vec::new();
        let mut from = 0;
        for len in cut {
            let new_items = &items[from..from + len];
            from += len;
            buf.process(new_items, |part1, part2| {
                let done: usize = pieces.iter().map(|piece| piece.len()).sum();
                let whole: Vec<u8> = part1.iter().chain(part2.iter()).copied().collect();
                assert_eq!(whole, items[done..from].to_vec());
                let target = targets[pieces.len()];
                if part1.len() >= target {
                    pieces.push(part1[..target].to_vec());
                    StreamBufferStep::Consumed(target)
                } else {
                    StreamBufferStep::WantContiguos(target)
                }
            });
        }
        let expected: [&[u8]; 5] =
            [&[0, 1], &[2, 3, 4], &[5], &[6, 7, 8, 9], &[10, 11, 12, 13, 14]];
        assert_eq!(pieces, expected);
    }
}
