use axon_core::local::pubsub::LocalPubSub;
use axon_core::local::ring::{
    check_slot, payload_capacity_from_stride, plan_read, plan_write, slot_stride_for_payload,
    ReadFault, RingBuffer, RingErrorKind,
};
use axon_core::local::segment::{
    allocation_step, available_shm_bytes, check_name, is_compatible_with_request,
    max_ring_data_bytes, open_step, race_step, ring_slots, segment_name, segment_size, stayed_busy,
    wait_open_step, AllocOutcome, AllocStep, OpenEvent, OpenStep, RaceEvent, RaceStep, TryOpen,
    WaitStep,
};

#[test]
fn test_ring_buffer_write_read() {
    let mut buf = RingBuffer::create(4, 64).unwrap();
    let data: &[u8] = b"hello axon";

    let slot = buf.write(data).unwrap();
    assert_eq!(slot, 0);

    let mut out = vec![0u8; 64];
    let n = buf.read(0, &mut out).unwrap();
    assert_eq!(n, data.len());
    assert_eq!(&out[..n], data);
}

#[test]
fn test_ring_buffer_wraparound() {
    let mut buf = RingBuffer::create(4, 64).unwrap();
    let mut out = vec![0u8; 64];

    // Fill buffer with 4 messages
    for i in 0..4 {
        let msg = format!("hello_{}", i);
        buf.write(msg.as_bytes()).unwrap();
    }
    // Consume first 4
    for i in 0..4 {
        let n = buf.read(i, &mut out).unwrap();
        assert_eq!(&out[..n], format!("hello_{}", i).as_bytes());
    }
    // Write 4 more (wrap around — reuses slots 0-3)
    for i in 4..8 {
        let msg = format!("hello_{}", i);
        buf.write(msg.as_bytes()).unwrap();
    }
    // Consume next 4 (wrapped)
    for i in 4..8 {
        let n = buf.read(i, &mut out).unwrap();
        assert_eq!(&out[..n], format!("hello_{}", i).as_bytes());
    }
}

#[test]
fn test_ring_buffer_rejects_stale_wrapped_slot_before_publish() {
    let mut buf = RingBuffer::create(1, 64).unwrap();
    assert_eq!(buf.write(b"old_clock").unwrap(), 0);

    buf.write_index += 1;

    let mut out = vec![0u8; 64];
    assert_eq!(buf.read(1, &mut out), Err("slot not yet written"));
    assert_eq!(buf.slot_data_size(1), Err("slot not yet written"));
}

#[test]
fn test_write_does_not_regress_read_index_when_reader_is_ahead() {
    // A reader that consumed a slot reserved by a faster concurrent
    // writer can leave read_index ahead of a slower writer's reserved
    // write_idx. The overwrite fallback must not drag read_index
    // backwards in that case.
    let mut buf = RingBuffer::create(2, 64).unwrap();
    buf.write_index = 1;
    buf.read_index = 2;
    buf.write(b"slow writer").unwrap();
    assert_eq!(buf.read_index, 2, "read_index must not move backwards");
}

#[test]
fn test_keep_all_ring_overwrites_oldest_when_bounded() {
    let mut buf = RingBuffer::create(2, 64).unwrap();
    assert_eq!(buf.write(b"first").unwrap(), 0);
    assert_eq!(buf.write(b"second").unwrap(), 1);
    assert_eq!(buf.write(b"third").unwrap(), 2);

    let mut out = vec![0u8; 64];
    assert!(buf.read(0, &mut out).is_err());
    let n = buf.read(1, &mut out).unwrap();
    assert_eq!(&out[..n], b"second");
    let n = buf.read(2, &mut out).unwrap();
    assert_eq!(&out[..n], b"third");
}

#[test]
fn test_ring_buffer_empty_read() {
    let mut buf = RingBuffer::create(4, 64).unwrap();
    let mut out = vec![0u8; 64];
    let result = buf.read(0, &mut out);
    assert!(result.is_err());
}

#[test]
fn test_localpubsub_single_message() {
    let mut pubsub = LocalPubSub::new(8, 256, 5).unwrap_or_else(|e| panic!("{}", e.message));

    let data = b"hello world";
    pubsub.publish(data, 1).unwrap();

    let mut out = vec![0u8; 256];
    let n = pubsub.receive(0, &mut out).unwrap();
    assert_eq!(&out[..n], data);
}

#[test]
fn test_localpubsub_multiple_messages() {
    let mut pubsub = LocalPubSub::new(8, 256, 5).unwrap_or_else(|e| panic!("{}", e.message));

    for i in 0..5 {
        let msg = format!("msg_{}", i);
        pubsub.publish(msg.as_bytes(), i).unwrap();
    }

    for i in 0..5 {
        let expected = format!("msg_{}", i);
        let mut out = vec![0u8; 256];
        let n = pubsub.receive(i, &mut out).unwrap();
        assert_eq!(&out[..n], expected.as_bytes());
    }
}

#[test]
fn test_localpubsub_eventfd_valid() {
    let mut pubsub = LocalPubSub::new(8, 256, 5).unwrap_or_else(|e| panic!("{}", e.message));
    // Eventfd should be a valid fd
    assert!(pubsub.event_fd() >= 0);
    pubsub.publish(b"test", 1).unwrap();
    assert_eq!(pubsub.signal(), vec![5]);
}

#[test]
fn test_loaned_message_roundtrip() {
    let mut pubsub = LocalPubSub::new(8, 256, 5).unwrap_or_else(|e| panic!("{}", e.message));
    let (at, _size) = pubsub.borrow_buffer(64).unwrap();
    assert!(pubsub.commit_buffer(at, b"hello loaned"));
    let data = pubsub.take_loaned(0).unwrap();
    assert_eq!(data.len(), 12);
    assert_eq!(data, b"hello loaned");
}

#[test]
fn test_generation_hides_stale_transient_local_data() {
    // Generation 1: a publisher writes retained frames, then "dies".
    let mut ring = RingBuffer::create(4, 64).unwrap();
    ring.write(b"old-frame-0").unwrap();
    ring.write(b"old-frame-1").unwrap();
    let stale_write_idx = ring.current_seq();
    assert_eq!(stale_write_idx, 2);

    // Generation 2: a new publisher works on the same ring.
    let mut gen2 = ring;
    assert_eq!(
        gen2.current_seq(),
        stale_write_idx,
        "reused segment keeps the previous run's write index"
    );
    let mut out = vec![0u8; 64];
    assert!(
        gen2.read(0, &mut out).is_ok(),
        "previous-run frame still present in the reused ring"
    );

    gen2.mark_generation();
    assert_eq!(gen2.generation_start(), stale_write_idx);

    // A TRANSIENT_LOCAL subscriber floors its start at the generation, so
    // it skips every frame from the previous run.
    let sub_start = gen2.oldest_available_seq().max(gen2.generation_start());
    assert_eq!(
        sub_start, stale_write_idx,
        "subscriber skips all stale frames"
    );
    assert!(
        gen2.read(sub_start, &mut out).is_err(),
        "nothing to deliver until the new generation publishes"
    );

    // Once the new publisher writes, the subscriber sees only fresh data.
    gen2.write(b"new-frame").unwrap();
    let n = gen2.read(sub_start, &mut out).unwrap();
    assert_eq!(&out[..n], b"new-frame");
}

#[test]
fn test_create_or_open_keeps_existing_smaller_depth() {
    let mut publisher_ring = RingBuffer::create(7, 64).unwrap();
    publisher_ring.write(b"publisher data").unwrap();

    // Who asks for more slots of that size uses the ring that is there.
    assert_eq!(
        race_step(
            RaceEvent::Opened(publisher_ring.slot_count, publisher_ring.slot_size),
            slot_stride_for_payload(64).unwrap()
        ),
        RaceStep::Use
    );
    assert_eq!(publisher_ring.current_seq(), 1);

    let mut out = vec![0u8; 64];
    let n = publisher_ring.read(0, &mut out).unwrap();
    assert_eq!(&out[..n], b"publisher data");
}

#[test]
fn an_empty_message_is_not_read_back() {
    let mut buf = RingBuffer::create(2, 64).unwrap();
    assert_eq!(buf.write(b"").unwrap(), 0);
    let mut out = vec![0u8; 64];
    assert_eq!(buf.read(0, &mut out), Err("slot not yet written"));
}

#[test]
fn a_message_that_does_not_fit_is_refused() {
    let mut buf = RingBuffer::create(2, 8).unwrap();
    let capacity = payload_capacity_from_stride(buf.slot_size);
    assert_eq!(capacity, 8);
    assert!(buf.write(&vec![1; capacity]).is_ok());
    assert!(buf.write(&vec![1; capacity + 1]).is_err());
    let mut small = vec![0u8; 4];
    assert_eq!(buf.read(0, &mut small), Err("output buffer too small"));
    assert_eq!(small, vec![0u8; 4]);
    assert_eq!(buf.slot_data_size(0), Ok(8));
}

#[test]
fn looking_does_not_consume() {
    let mut buf = RingBuffer::create(2, 64).unwrap();
    assert!(!buf.data_available());
    buf.write(b"x").unwrap();
    assert!(buf.data_available());
    assert!(buf.data_available_from(0));
    assert!(!buf.data_available_from(1));
    let mut out = vec![0u8; 64];
    assert_eq!(buf.read_without_consuming(0, &mut out), Ok(1));
    assert_eq!(buf.read_index, 0);
    assert_eq!(buf.read(0, &mut out), Ok(1));
    assert_eq!(buf.read_index, 1);
    assert!(!buf.data_available());
}

#[test]
fn slots_are_planned() {
    assert_eq!(slot_stride_for_payload(10).unwrap(), 32);
    assert!(slot_stride_for_payload(u32::MAX).is_err());
    let plan = plan_write(4, 32, 9, 2);
    assert_eq!(plan.slot, 1);
    assert_eq!(plan.offset, 32);
    assert_eq!(plan.read_index, 6);
    assert!(matches!(plan_read(4, 32, 9, 9), Err(ReadFault::NoData)));
    assert!(matches!(plan_read(4, 32, 9, 4), Err(ReadFault::Overwritten)));
    assert!(matches!(plan_read(4, 32, 9, 5), Ok((1, 32))));
    assert!(matches!(check_slot(5, 3, 5), Ok(3)));
    assert!(check_slot(4, 3, 5).is_err());
    assert!(check_slot(5, 0, 5).is_err());
}

#[test]
fn a_channel_tells_who_published_what_and_when() {
    let mut pubsub = LocalPubSub::new(2, 64, 5).unwrap_or_else(|e| panic!("{}", e.message));
    pubsub.publish_with_gid(b"abc", 77, 1234).unwrap();
    let mut out = vec![0u8; 64];
    let got = pubsub.receive_peek(0, &mut out).unwrap();
    assert_eq!(got, 3);
    assert_eq!(pubsub.message_size(0), Ok(3));
    assert_eq!(pubsub.timestamps.get(&0), Some(&1234));
    assert_eq!(pubsub.publisher_gids.get(&0), Some(&77));
    assert_eq!(pubsub.current_seq(), 1);
    assert!(pubsub.data_available());
    pubsub.skip_all_pending();
    assert!(!pubsub.data_available());
    assert_eq!(pubsub.payload_capacity(), 64);
}

#[test]
fn a_loan_is_refused_where_it_does_not_fit() {
    let mut pubsub = LocalPubSub::new(1, 64, 5).unwrap_or_else(|e| panic!("{}", e.message));
    assert!(pubsub.borrow_buffer(65).is_none());
    let (at, size) = pubsub.borrow_buffer(64).unwrap();
    assert_eq!(size, 64);
    assert!(pubsub.borrow_buffer(1).is_none());
    assert!(pubsub.take_loaned(0).is_none());
    assert!(!pubsub.commit_buffer(at + 1, b"x"));
    assert!(pubsub.commit_buffer(at, b"x"));
    assert!(!pubsub.commit_buffer(at, b"x"));
    assert_eq!(pubsub.take_loaned(0), Some(b"x".to_vec()));
    assert_eq!(pubsub.take_loaned(0), None);
}

#[test]
fn a_ring_takes_what_memory_there_is() {
    assert_eq!(available_shm_bytes(4096, 2), Some(8192));
    assert_eq!(available_shm_bytes(usize::MAX, 2), None);
    assert_eq!(max_ring_data_bytes(Some("nonsense")), max_ring_data_bytes(None));
    assert_eq!(ring_slots(10, 100, 350, None), 3);
    assert_eq!(ring_slots(10, 100, 10, None), 1);
    assert_eq!(segment_size(64, 3, 100), 364);
    assert!(matches!(
        allocation_step(AllocOutcome::Done, 4, 0),
        AllocStep::Use
    ));
    assert!(matches!(
        allocation_step(AllocOutcome::NoSpace("full".to_string()), 5, 0),
        AllocStep::Retry(2)
    ));
    assert!(matches!(
        allocation_step(AllocOutcome::NoSpace("full".to_string()), 1, 70),
        AllocStep::Fail(e) if e.kind == RingErrorKind::StorageFull
            && e.message == "insufficient shared memory for 70 byte ring buffer: full"
    ));
}

#[test]
fn an_existing_segment_is_opened_step_by_step() {
    assert!(matches!(
        open_step(OpenEvent::Opened(10), 64),
        OpenStep::Fail(_)
    ));
    assert!(matches!(
        open_step(OpenEvent::Opened(4096), 64),
        OpenStep::ReserveHeader
    ));
    assert!(matches!(
        open_step(OpenEvent::HeaderReserved(Ok(())), 64),
        OpenStep::ReadHeader
    ));
    assert!(matches!(
        open_step(OpenEvent::HeaderRead(0, 32), 64),
        OpenStep::Fail(_)
    ));
    assert!(matches!(
        open_step(OpenEvent::HeaderRead(2, 32), 64),
        OpenStep::Reserve(128)
    ));
    assert!(matches!(
        open_step(OpenEvent::Reserved(128, Ok(())), 64),
        OpenStep::Attach(128)
    ));
    assert!(matches!(
        open_step(OpenEvent::Reserved(128, Err("no".to_string())), 64),
        OpenStep::Fail(_)
    ));
}

#[test]
fn creators_and_openers_race() {
    assert!(is_compatible_with_request(1, 32, 32));
    assert!(!is_compatible_with_request(0, 32, 32));
    assert!(!is_compatible_with_request(1, 24, 32));
    assert_eq!(wait_open_step(TryOpen::Opened(1, 32), 32, 1), WaitStep::Use);
    assert_eq!(wait_open_step(TryOpen::Opened(1, 24), 32, 1), WaitStep::Replace);
    assert_eq!(
        wait_open_step(TryOpen::Failed(RingErrorKind::InvalidData), 32, 2),
        WaitStep::Wait
    );
    assert_eq!(
        wait_open_step(TryOpen::Failed(RingErrorKind::InvalidData), 32, 1),
        WaitStep::Replace
    );
    assert_eq!(
        wait_open_step(TryOpen::Failed(RingErrorKind::Other), 32, 2),
        WaitStep::Fail
    );
    assert_eq!(race_step(RaceEvent::Missing, 32), RaceStep::Create);
    assert_eq!(race_step(RaceEvent::Created, 32), RaceStep::SetUp);
    assert_eq!(race_step(RaceEvent::Busy, 32), RaceStep::WaitAndRetry);
    assert_eq!(race_step(RaceEvent::Refused, 32), RaceStep::Fail);
    assert_eq!(race_step(RaceEvent::Opened(1, 8), 32), RaceStep::RemoveAndRetry);
    assert_eq!(
        race_step(RaceEvent::Unusable(RingErrorKind::StorageFull), 32),
        RaceStep::RemoveAndFail
    );
    assert_eq!(segment_name("x"), "/axon_x");
    assert_eq!(
        stayed_busy("x").message,
        "shared memory segment /axon_x stayed busy during create/open race"
    );
    assert!(check_name("ok").is_ok());
    assert!(check_name("n\0").is_err());
}

#[test]
fn test_create_or_open_roundtrip() {
    let stride = slot_stride_for_payload(64).unwrap();
    assert_eq!(race_step(RaceEvent::Missing, stride), RaceStep::Create);
    assert_eq!(race_step(RaceEvent::Created, stride), RaceStep::SetUp);
    let mut created = RingBuffer::create(4, 64).unwrap();
    assert_eq!(created.current_seq(), 0);
    assert_eq!(
        race_step(RaceEvent::Opened(created.slot_count, created.slot_size), stride),
        RaceStep::Use
    );

    created.write(b"cross-process data").unwrap();
    let mut out = vec![0u8; 64];
    let n = created.read(0, &mut out).unwrap();
    assert_eq!(&out[..n], b"cross-process data");
}

#[test]
fn test_create_or_open_shared_memory() {
    let mut a = RingBuffer::create(8, 256).unwrap();
    a.write(b"msg_from_a").unwrap();

    let stride = slot_stride_for_payload(256).unwrap();
    assert!(is_compatible_with_request(a.slot_count, a.slot_size, stride));
    let mut out = vec![0u8; 256];
    let n = a.read(0, &mut out).unwrap();
    assert_eq!(&out[..n], b"msg_from_a");
}

#[test]
fn a_reader_that_fell_behind_finds_what_the_ring_still_holds() {
    let mut rb = RingBuffer::create(2, 64).unwrap();
    assert_eq!(rb.write(b"a"), Ok(0));
    assert_eq!(rb.write(b"b"), Ok(1));
    assert_eq!(rb.write(b"c"), Ok(2));
    let mut out = vec![0u8; 64];
    assert_eq!(rb.read(2, &mut out), Ok(1));
    assert_eq!(rb.read_index, 3);
    assert!(rb.data_available_from(0));
    assert!(rb.data_available_from(1));
    assert!(rb.data_available_from(2));
    assert!(!rb.data_available_from(3));
}

#[test]
fn a_ring_has_at_most_4096_slots() {
    assert_eq!(RingBuffer::create(5000, 8).unwrap().slot_count, 4096);
    assert_eq!(RingBuffer::create(4096, 8).unwrap().slot_count, 4096);
    assert_eq!(RingBuffer::create(4095, 8).unwrap().slot_count, 4095);
}
