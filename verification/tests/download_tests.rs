use warc_curator::pump::{pump_step, PumpAction, PumpEvent, CONCURRENT_REQUEST_LIMIT, QUEUE_CAPACITY};
use warc_curator::range::{
    check_range_status, chunk_count, chunk_request, default_chunk_size, probe_total_size,
    range_header, ProbeError, RangeError,
};
use warc_curator::reassembly::ReassemblyBuffer;

#[test]
fn range_arithmetic_clamps_last_chunk() {
    assert_eq!(chunk_count(250, 100), 3);
    let first = chunk_request(250, 100, 0);
    assert_eq!((first.index, first.byte_start, first.byte_end), (0, 0, 99));
    let second = chunk_request(250, 100, 1);
    assert_eq!((second.index, second.byte_start, second.byte_end), (1, 100, 199));
    let third = chunk_request(250, 100, 2);
    assert_eq!((third.index, third.byte_start, third.byte_end), (2, 200, 249));
}

#[test]
fn chunk_count_rounds_up() {
    assert_eq!(chunk_count(0, 100), 0);
    assert_eq!(chunk_count(1, 100), 1);
    assert_eq!(chunk_count(100, 100), 1);
    assert_eq!(chunk_count(101, 100), 2);
    assert_eq!(chunk_count(u64::MAX, 1), u64::MAX);
    assert_eq!(chunk_count(u64::MAX, u64::MAX), 1);
    assert_eq!(chunk_count(u64::MAX, 2), 1 << 63);
}

#[test]
fn chunks_tile_the_resource() {
    for (total, chunk) in [(1u64, 1u64), (250, 100), (300, 100), (7, 3), (5, 10)] {
        let count = chunk_count(total, chunk);
        let mut next_start = 0;
        for index in 0..count {
            let request = chunk_request(total, chunk, index);
            assert_eq!(request.byte_start, next_start);
            assert!(request.byte_start <= request.byte_end);
            next_start = request.byte_end + 1;
        }
        assert_eq!(next_start, total);
    }
}

#[test]
fn last_chunk_at_the_end_of_the_address_space() {
    let request = chunk_request(u64::MAX, u64::MAX - 1, 1);
    assert_eq!((request.byte_start, request.byte_end), (u64::MAX - 1, u64::MAX - 1));
}

#[test]
fn range_header_names_both_ends() {
    assert_eq!(range_header(0, 99), "bytes=0-99");
    assert_eq!(range_header(200, 249), "bytes=200-249");
    assert_eq!(range_header(0, u64::MAX), format!("bytes=0-{}", u64::MAX));
}

#[test]
fn only_partial_content_is_a_chunk() {
    assert_eq!(check_range_status(206), Ok(()));
    assert_eq!(check_range_status(200), Err(RangeError::NotPartialContent(200)));
    assert_eq!(check_range_status(304), Err(RangeError::NotPartialContent(304)));
    assert_eq!(check_range_status(404), Err(RangeError::ErrorStatus(404)));
    assert_eq!(check_range_status(416), Err(RangeError::ErrorStatus(416)));
    assert_eq!(check_range_status(503), Err(RangeError::ErrorStatus(503)));
    assert_eq!(check_range_status(600), Err(RangeError::NotPartialContent(600)));
}

#[test]
fn probe_needs_ranges_and_length() {
    let bytes: &[u8] = b"bytes";
    assert_eq!(probe_total_size(200, Some(bytes), Some(b"250")), Ok(250));
    assert_eq!(probe_total_size(200, Some(bytes), Some(b"+250")), Ok(250));
    assert_eq!(probe_total_size(200, Some(bytes), Some(b"18446744073709551615")), Ok(u64::MAX));
    assert_eq!(probe_total_size(404, Some(bytes), Some(b"250")), Err(ProbeError::ErrorStatus(404)));
    assert_eq!(probe_total_size(500, None, None), Err(ProbeError::ErrorStatus(500)));
    assert_eq!(probe_total_size(200, None, Some(b"250")), Err(ProbeError::MissingAcceptRanges));
    assert_eq!(probe_total_size(200, Some(b"none"), Some(b"250")), Err(ProbeError::RangesNotInBytes));
    assert_eq!(probe_total_size(200, Some(b"Bytes"), Some(b"250")), Err(ProbeError::RangesNotInBytes));
    assert_eq!(probe_total_size(200, Some(b"bytes "), Some(b"250")), Err(ProbeError::RangesNotInBytes));
    assert_eq!(probe_total_size(200, Some(bytes), None), Err(ProbeError::MissingContentLength));
    assert_eq!(probe_total_size(200, Some(bytes), Some(b"25\x80")), Err(ProbeError::ContentLengthNotText));
    assert_eq!(probe_total_size(200, Some(bytes), Some(b"25\n")), Err(ProbeError::ContentLengthNotText));
    assert_eq!(probe_total_size(200, Some(bytes), Some(b"")), Err(ProbeError::ContentLengthNotANumber));
    assert_eq!(probe_total_size(200, Some(bytes), Some(b" 250")), Err(ProbeError::ContentLengthNotANumber));
    assert_eq!(probe_total_size(200, Some(bytes), Some(b"2\t5")), Err(ProbeError::ContentLengthNotANumber));
    assert_eq!(probe_total_size(200, Some(bytes), Some(b"18446744073709551616")), Err(ProbeError::ContentLengthNotANumber));
}

#[test]
fn default_chunk_size_is_a_hundredth() {
    assert_eq!(default_chunk_size(0), 0);
    assert_eq!(default_chunk_size(99), 0);
    assert_eq!(default_chunk_size(100), 1);
    assert_eq!(default_chunk_size(1_000_000), 10_000);
}

#[test]
fn reassembly_in_order_arrivals_pass_through() {
    let mut buffer: ReassemblyBuffer<&str> = ReassemblyBuffer::new();
    assert_eq!(buffer.next_expected(), 0);
    assert_eq!(buffer.accept(0, "a"), vec!["a"]);
    assert_eq!(buffer.accept(1, "b"), vec!["b"]);
    assert_eq!(buffer.next_expected(), 2);
    assert_eq!(buffer.waiting(), 0);
}

#[test]
fn reassembly_holds_back_until_the_gap_closes() {
    let mut buffer: ReassemblyBuffer<&str> = ReassemblyBuffer::new();
    assert_eq!(buffer.accept(2, "c"), Vec::<&str>::new());
    assert_eq!(buffer.accept(1, "b"), Vec::<&str>::new());
    assert_eq!(buffer.waiting(), 2);
    assert_eq!(buffer.next_expected(), 0);
    assert_eq!(buffer.accept(0, "a"), vec!["a", "b", "c"]);
    assert_eq!(buffer.waiting(), 0);
    assert_eq!(buffer.next_expected(), 3);
    assert_eq!(buffer.accept(4, "e"), Vec::<&str>::new());
    assert_eq!(buffer.accept(3, "d"), vec!["d", "e"]);
}

#[test]
fn reassembly_gives_sequential_order_for_every_permutation() {
    let data: Vec<u8> = (0..250u32).map(|i| (i % 251) as u8).collect();
    let total = data.len() as u64;
    let chunk = 100u64;
    let count = chunk_count(total, chunk);
    let orders: [[u64; 3]; 6] = [[0, 1, 2], [0, 2, 1], [1, 0, 2], [1, 2, 0], [2, 0, 1], [2, 1, 0]];
    for order in orders {
        let mut buffer: ReassemblyBuffer<Vec<u8>> = ReassemblyBuffer::new();
        let mut stream: Vec<u8> = Vec::new();
        for index in order {
            assert!(index < count);
            let request = chunk_request(total, chunk, index);
            let payload = data[request.byte_start as usize..=request.byte_end as usize].to_vec();
            for ready in buffer.accept(index, payload) {
                stream.extend(ready);
            }
        }
        assert_eq!(stream, data);
        assert_eq!(buffer.next_expected(), count);
        assert_eq!(buffer.waiting(), 0);
    }
}

#[test]
fn reassembly_passes_a_failed_chunk_on_in_its_place() {
    let mut buffer: ReassemblyBuffer<Result<Vec<u8>, String>> = ReassemblyBuffer::new();
    assert!(buffer.accept(1, Err("timed out".to_string())).is_empty());
    assert!(buffer.accept(2, Ok(vec![3])).is_empty());
    let out = buffer.accept(0, Ok(vec![1]));
    assert_eq!(out, vec![Ok(vec![1]), Err("timed out".to_string()), Ok(vec![3])]);
    assert_eq!(buffer.next_expected(), 3);
}

#[test]
fn reassembly_replaces_a_chunk_that_still_waits() {
    let mut buffer: ReassemblyBuffer<&str> = ReassemblyBuffer::new();
    assert!(buffer.accept(1, "old").is_empty());
    assert!(buffer.accept(1, "new").is_empty());
    assert_eq!(buffer.waiting(), 1);
    assert_eq!(buffer.accept(0, "a"), vec!["a", "new"]);
}

#[test]
fn pump_forwards_until_something_ends() {
    assert!(matches!(pump_step(PumpEvent::Chunk(vec![1, 2])), PumpAction::Deliver(b) if b == vec![1, 2]));
    assert!(matches!(pump_step(PumpEvent::Delivered), PumpAction::Read));
    assert!(matches!(pump_step(PumpEvent::SourceFailed), PumpAction::Stop));
    assert!(matches!(pump_step(PumpEvent::SourceEnded), PumpAction::Stop));
    assert!(matches!(pump_step(PumpEvent::DeliveryFailed), PumpAction::Stop));
    assert_eq!(QUEUE_CAPACITY, 10_000);
    assert_eq!(CONCURRENT_REQUEST_LIMIT, 100);
}
