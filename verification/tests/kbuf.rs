use libkernel::memory::kbuf::{copy_slices, KBufCore, SplicePoll};
use libkernel::memory::PAGE_SIZE;
use libkernel::sync::waker_set::wait_until;

/// A waker is the name of its task.
type Waker = &'static str;

// Helper to create a KBufCore for testing.
fn make_kbuf(size: usize) -> KBufCore<Waker> {
    KBufCore::new(size)
}

/// Pushes what has to fit.
fn push_all(kbuf: &mut KBufCore<Waker>, data: &[u8]) {
    let mut wait = wait_until();
    let (written, _, _) = kbuf.push_slice(&mut wait, data, "writer");
    assert_eq!(written, Some(data.len()));
}

/// Pops what is there, up to `n` bytes.
fn pop_all(kbuf: &mut KBufCore<Waker>, n: usize) -> Vec<u8> {
    let mut out = vec![0; n];
    let (read, _) = kbuf.try_pop_slice(&mut out);
    out.truncate(read);
    out
}

/// What a splice moved.
fn moved(poll: SplicePoll<Waker>) -> Option<usize> {
    match poll {
        SplicePoll::Ready { count, .. } => Some(count),
        SplicePoll::Pending => None,
    }
}

#[test]
fn simple_read_write() {
    let mut kbuf = make_kbuf(16);
    let in_buf = [1, 2, 3];
    let mut out_buf = [0; 3];
    let mut wait = wait_until();

    let (written, _, _) = kbuf.push_slice(&mut wait, &in_buf, "task");
    assert_eq!(written, Some(3));

    // read_ready should complete immediately since there's data.
    assert!(kbuf.read_ready(&mut wait, "task").is_some());

    let (read, _) = kbuf.pop_slice(&mut wait, &mut out_buf, "task");
    assert_eq!(read, Some(3));

    assert_eq!(in_buf, out_buf);
}

#[test]
fn read_blocks_when_empty() {
    let mut kbuf = make_kbuf(16);
    let mut out_buf = [0; 3];
    let mut wait = wait_until();

    // The read does not complete because the buffer is empty.
    let (read, _) = kbuf.pop_slice(&mut wait, &mut out_buf, "reader");
    assert_eq!(read, None);
    assert_eq!(out_buf, [0; 3]);
    // It waits for a writer.
    assert_eq!(kbuf.try_push(7), (Ok(()), Some("reader")));
}

#[test]
fn write_blocks_when_full() {
    let mut kbuf = make_kbuf(16);
    let big_buf = [0; 16];
    let small_buf = [1];
    let mut wait = wait_until();

    // Fill the buffer completely.
    let (written, _, _) = kbuf.push_slice(&mut wait, &big_buf, "writer");
    assert_eq!(written, Some(16));
    assert!(kbuf.write_ready(&mut wait_until(), "other").is_none());

    // The next write should block.
    let (written, _, _) = kbuf.push_slice(&mut wait, &small_buf, "writer");
    assert_eq!(written, None);
    assert_eq!(kbuf.try_push(1), (Err(1), None));
    assert_eq!(kbuf.try_push_slice(&small_buf), (0, None));
}

#[test]
fn write_wakes_reader() {
    let mut kbuf = make_kbuf(16);
    let mut wait = wait_until();

    // A task blocks reading from the empty buffer.
    assert_eq!(kbuf.pop(&mut wait, "reader"), (None, None));
    // Now, write to the buffer. This should wake up the reader.
    assert_eq!(kbuf.push(&mut wait_until(), 10, "writer"), (Ok(()), Some("reader")));
    assert_eq!(kbuf.pop(&mut wait_until(), "reader"), (Some(10), None));

    // The reader blocks again, and is woken again.
    assert_eq!(kbuf.pop(&mut wait_until(), "reader"), (None, None));
    assert_eq!(kbuf.push(&mut wait_until(), 20, "writer"), (Ok(()), Some("reader")));

    assert_eq!(kbuf.try_push(30), (Ok(()), None));
    assert_eq!(kbuf.try_push(40), (Ok(()), None));
    assert_eq!(pop_all(&mut kbuf, 16), [20, 30, 40]);
}

#[test]
fn write_slice_wakes_reader() {
    let mut kbuf = make_kbuf(16);
    let in_buf = [10, 20, 30];
    let mut out_buf = [0; 3];
    let mut wait = wait_until();

    assert_eq!(kbuf.pop_slice(&mut wait, &mut out_buf, "reader"), (None, None));
    let (written, writer, reader) = kbuf.push_slice(&mut wait_until(), &in_buf, "writer");
    assert_eq!((written, writer, reader), (Some(3), None, Some("reader")));
    assert_eq!(kbuf.pop_slice(&mut wait, &mut out_buf, "reader"), (Some(3), None));
    assert_eq!(out_buf, in_buf);
}

#[test]
fn read_wakes_writer() {
    let mut kbuf = make_kbuf(8);
    let mut buf = [0; 8];

    // Fill the buffer.
    push_all(&mut kbuf, &[1; 8]);

    // A task blocks writing to the full buffer.
    assert_eq!(kbuf.push(&mut wait_until(), 10, "writer"), (Err(10), None));
    // Now, read from the buffer. This should wake up the writer.
    assert_eq!(kbuf.pop(&mut wait_until(), "reader"), (Some(1), Some("writer")));
    assert_eq!(kbuf.push(&mut wait_until(), 10, "writer"), (Ok(()), None));

    // The writer blocks again, and is woken again.
    assert_eq!(kbuf.push(&mut wait_until(), 20, "writer"), (Err(20), None));
    assert_eq!(kbuf.pop(&mut wait_until(), "reader"), (Some(1), Some("writer")));
    assert_eq!(kbuf.push(&mut wait_until(), 20, "writer"), (Ok(()), None));

    assert_eq!(kbuf.try_pop(), (Some(1), None));
    assert_eq!(kbuf.try_pop(), (Some(1), None));
    push_all(&mut kbuf, &[30, 40]);

    kbuf.pop_slice(&mut wait_until(), &mut buf, "reader");
    assert_eq!(&buf, &[1, 1, 1, 1, 10, 20, 30, 40]);
}

#[test]
fn read_slice_wakes_writer() {
    let mut kbuf = make_kbuf(8);
    let mut out_buf = [0; 4];
    let mut wait = wait_until();

    // Fill the buffer.
    push_all(&mut kbuf, &[1; 8]);

    // A task blocks trying to write to the full buffer.
    let (written, _, _) = kbuf.push_slice(&mut wait, &[2; 4], "writer");
    assert_eq!(written, None);

    // Now, read from the buffer. This should make space and wake the writer.
    let read = kbuf.pop_slice(&mut wait_until(), &mut out_buf, "reader");
    assert_eq!(read, (Some(4), Some("writer")));

    // The writer should now complete.
    let (written, _, _) = kbuf.push_slice(&mut wait, &[2; 4], "writer");
    assert_eq!(written, Some(4));

    // The buffer should contain the remaining 4 ones and the 4 twos from the writer.
    kbuf.pop_slice(&mut wait_until(), &mut out_buf, "reader");
    assert_eq!(out_buf, [1, 1, 1, 1]);
    kbuf.pop_slice(&mut wait_until(), &mut out_buf, "reader");
    assert_eq!(out_buf, [2, 2, 2, 2]);
}

#[test]
fn concurrent_producer_consumer() {
    const ITERATIONS: usize = 5000;
    let mut kbuf = make_kbuf(64);
    let (mut sent, mut received) = (0, 0);
    // Producer and consumer take turns that do not divide the capacity.
    while received < ITERATIONS {
        for _ in 0..23 {
            if sent < ITERATIONS {
                let byte = (sent % 256) as u8;
                if let (Some(1), _, _) = kbuf.push_slice(&mut wait_until(), &[byte], "producer") {
                    sent += 1;
                }
            }
        }
        for _ in 0..19 {
            let mut buf = [0; 1];
            if let (1, _) = kbuf.try_pop_slice(&mut buf) {
                assert_eq!(buf[0], (received % 256) as u8);
                received += 1;
            }
        }
    }
}

#[test]
fn unfilled_buffer_lets_another_writer_go_on() {
    let mut kbuf = make_kbuf(4);
    push_all(&mut kbuf, &[1; 4]);
    assert!(kbuf.write_ready(&mut wait_until(), "first").is_none());
    assert!(kbuf.write_ready(&mut wait_until(), "second").is_none());
    assert_eq!(pop_all(&mut kbuf, 2), [1, 1]);
    // One slot is left over after this write.
    let (written, writer, _) = kbuf.push_slice(&mut wait_until(), &[9], "first");
    assert_eq!((written, writer), (Some(1), Some("second")));
}

#[test]
fn capacity_is_what_was_asked_for() {
    assert_eq!(make_kbuf(17).capacity(), 17);
}

// --- Splice Tests ---

#[test]
fn splice_simple_transfer() {
    let mut src = make_kbuf(PAGE_SIZE);
    let mut dest = make_kbuf(PAGE_SIZE);
    let data: Vec<u8> = (0..100).collect();

    push_all(&mut src, &data);

    let spliced = dest.splice_from(&mut src, 100, ("splice", "splice"));
    assert_eq!(moved(spliced), Some(100));

    assert_eq!(pop_all(&mut src, 100), []);
    assert_eq!(pop_all(&mut dest, 100), data);
}

#[test]
fn splice_limited_by_count() {
    let mut src = make_kbuf(PAGE_SIZE);
    let mut dest = make_kbuf(PAGE_SIZE);
    let data: Vec<u8> = (0..100).collect();

    push_all(&mut src, &data);
    let spliced = dest.splice_from(&mut src, 50, ("splice", "splice"));
    assert_eq!(moved(spliced), Some(50));

    assert_eq!(pop_all(&mut src, 100), &data[50..]);
    assert_eq!(pop_all(&mut dest, 100), &data[0..50]);
}

#[test]
fn splice_limited_by_dest_capacity() {
    let mut src = make_kbuf(200);
    let mut dest = make_kbuf(100); // Smaller destination
    let data: Vec<u8> = (0..200).collect();

    push_all(&mut src, &data);
    // Splice more than dest has capacity for.
    let spliced = dest.splice_from(&mut src, 200, ("splice", "splice"));
    assert_eq!(moved(spliced), Some(100));

    assert!(dest.write_ready(&mut wait_until(), "writer").is_none());
    assert_eq!(pop_all(&mut src, 200).len(), 100);
    assert_eq!(pop_all(&mut dest, 200).len(), 100);
}

#[test]
fn splice_blocks_on_full_dest_and_wakes() {
    let mut src = make_kbuf(100);
    let mut dest = make_kbuf(50);

    push_all(&mut src, &(0..100).collect::<Vec<u8>>());
    push_all(&mut dest, &(0..50).collect::<Vec<u8>>());

    // This splice will block because dest is full.
    let spliced = dest.splice_from(&mut src, 100, ("on source", "on destination"));
    assert_eq!(moved(spliced), None);

    // Make space in the destination buffer.
    let mut read_buf = [0; 25];
    let read = dest.pop_slice(&mut wait_until(), &mut read_buf, "reader");
    assert_eq!(read, (Some(25), Some("on destination")));

    // The splice should now complete.
    let spliced = dest.splice_from(&mut src, 100, ("on source", "on destination"));
    assert_eq!(moved(spliced), Some(25));
}

#[test]
fn splice_waits_for_an_empty_source() {
    let mut src = make_kbuf(8);
    let mut dest = make_kbuf(8);
    let spliced = dest.splice_from(&mut src, 4, ("on source", "on destination"));
    assert_eq!(moved(spliced), None);
    assert_eq!(src.try_push(1), (Ok(()), Some("on source")));
    // There is space in the destination, so nobody waits for it.
    assert_eq!(dest.try_push(1), (Ok(()), None));
    assert_eq!(dest.try_pop(), (Some(1), None));
}

#[test]
fn splice_of_nothing_is_ready() {
    let mut src = make_kbuf(8);
    let mut dest = make_kbuf(8);
    assert_eq!(moved(dest.splice_from(&mut src, 0, ("a", "b"))), Some(0));
}

#[test]
fn splice_wakes_reader_and_writer() {
    let mut src = make_kbuf(2);
    let mut dest = make_kbuf(8);
    push_all(&mut src, &[1, 2]);
    assert!(src.write_ready(&mut wait_until(), "writer").is_none());
    assert!(dest.read_ready(&mut wait_until(), "reader").is_none());
    match dest.splice_from(&mut src, 8, ("a", "b")) {
        SplicePoll::Ready {
            count,
            reader,
            writer,
        } => assert_eq!((count, reader, writer), (2, Some("reader"), Some("writer"))),
        SplicePoll::Pending => panic!("data should have been moved"),
    }
}

#[test]
fn splice_into_partially_full_buffer() {
    let mut src = make_kbuf(PAGE_SIZE);
    let mut dest = make_kbuf(PAGE_SIZE);

    // Setup: `dest` already has 20 bytes of data.
    let old_data = vec![255; 20];
    push_all(&mut dest, &old_data);

    // `src` has 50 bytes of new data to be spliced.
    let splice_data: Vec<u8> = (0..50).collect();
    push_all(&mut src, &splice_data);

    // There is enough room, so the full amount should be spliced.
    let spliced = dest.splice_from(&mut src, 50, ("splice", "splice"));
    assert_eq!(
        moved(spliced),
        Some(50),
        "Should have spliced the requested 50 bytes"
    );

    // `src` should now be empty.
    assert_eq!(src.try_pop(), (None, None));

    let final_dest_data = pop_all(&mut dest, 100);
    assert_eq!(final_dest_data.len(), old_data.len() + splice_data.len());
    // Check that the original data is at the start.
    assert_eq!(&final_dest_data[0..20], &old_data[..]);
    // Check that the spliced data comes after it.
    assert_eq!(&final_dest_data[20..70], &splice_data[..]);
}

#[test]
fn splice_into_almost_full_buffer_is_limited() {
    let mut src = make_kbuf(PAGE_SIZE);
    // Use a smaller destination buffer to make capacity relevant.
    let mut dest = make_kbuf(100);

    // `dest` has 80 bytes, leaving only 20 bytes of free space.
    let old_data = vec![255; 80];
    push_all(&mut dest, &old_data);

    // `src` has 50 bytes, more than the available space in `dest`.
    let splice_data: Vec<u8> = (0..50).collect();
    push_all(&mut src, &splice_data);

    // Attempt to splice 50 bytes. This should be limited by `dest`'s capacity.
    let spliced = dest.splice_from(&mut src, 50, ("splice", "splice"));
    assert_eq!(
        moved(spliced),
        Some(20),
        "Splice should be limited to the 20 bytes of available space"
    );

    // `dest` should now be completely full.
    assert!(dest.write_ready(&mut wait_until(), "writer").is_none());

    // Verify the contents of `dest`.
    let final_dest_data = pop_all(&mut dest, 100);
    assert_eq!(&final_dest_data[0..80], &old_data[..]);
    assert_eq!(&final_dest_data[80..100], &splice_data[0..20]); // Only the first 20 bytes

    // Verify the remaining contents of `src`.
    assert_eq!(pop_all(&mut src, 100), &splice_data[20..50]); // The last 30 bytes
}

/// A buffer whose data starts at `start` of its array.
fn rotated(size: usize, start: usize, data: &[u8]) -> KBufCore<Waker> {
    let mut kbuf = make_kbuf(size);
    assert_eq!(kbuf.try_push_slice(&vec![0; start]), (start, None));
    assert_eq!(pop_all(&mut kbuf, start).len(), start);
    assert_eq!(kbuf.try_push_slice(data), (data.len(), None));
    kbuf
}

#[test]
fn splice_of_wrapped_buffers() {
    let data: Vec<u8> = (1..=6).collect();

    // The source wraps after 2 bytes, and the destination has 8 free slots in a row.
    let mut src = rotated(8, 6, &data);
    let mut dest = make_kbuf(8);
    assert_eq!(moved(dest.splice_from(&mut src, 8, ("a", "b"))), Some(6));
    assert_eq!(pop_all(&mut dest, 8), data);

    // The source has 6 bytes in a row, and the destination wraps after 3 slots.
    let mut src = rotated(8, 0, &data);
    let mut dest = rotated(8, 5, &[]);
    assert_eq!(moved(dest.splice_from(&mut src, 8, ("a", "b"))), Some(6));
    assert_eq!(pop_all(&mut dest, 8), data);

    // The source wraps after 2 bytes, and the destination after 3 slots: the rest is left
    // to the next splice.
    let mut src = rotated(8, 6, &data);
    let mut dest = rotated(8, 5, &[]);
    assert_eq!(moved(dest.splice_from(&mut src, 8, ("a", "b"))), Some(3));
    assert_eq!(moved(dest.splice_from(&mut src, 8, ("a", "b"))), Some(3));
    assert_eq!(pop_all(&mut dest, 8), data);
}

#[test]
fn copy_slices_fills_in_order() {
    let (mut head, mut tail) = (vec![0; 3], vec![0; 3]);
    assert_eq!(copy_slices((&[1, 2], &[3, 4]), &mut head, &mut tail, 4), 3);
    assert_eq!((head, tail), (vec![1, 2, 3], vec![0, 0, 0]));

    let (mut head, mut tail) = (vec![0; 1], vec![0; 3]);
    assert_eq!(copy_slices((&[1, 2, 3], &[4]), &mut head, &mut tail, 2), 2);
    assert_eq!((head, tail), (vec![1], vec![2, 0, 0]));
}

#[test]
fn wrapped_data_stays_in_order() {
    let mut kbuf = rotated(4, 3, &[1, 2, 3, 4]);
    assert_eq!(kbuf.try_pop(), (Some(1), None));
    assert_eq!(kbuf.try_push(5), (Ok(()), None));
    assert_eq!(pop_all(&mut kbuf, 8), [2, 3, 4, 5]);
}

#[test]
fn cancelled_waits_are_not_woken() {
    let mut kbuf = make_kbuf(2);
    let mut wait = wait_until();
    assert!(kbuf.read_ready(&mut wait, "reader").is_none());
    kbuf.cancel_read(wait);
    assert_eq!(kbuf.try_push(1), (Ok(()), None));
    assert_eq!(kbuf.try_push(2), (Ok(()), None));

    let mut first = wait_until();
    let mut second = wait_until();
    assert!(kbuf.write_ready(&mut first, "first").is_none());
    assert!(kbuf.write_ready(&mut second, "second").is_none());
    kbuf.cancel_write(first);
    assert_eq!(kbuf.try_pop(), (Some(1), Some("second")));
    assert_eq!(kbuf.try_pop(), (Some(2), None));
}
