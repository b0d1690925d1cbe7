use mdi::models::Tick;
use mdi::queue::RingBuffer;
use mdi::MdiError;

#[test]
fn test_ring_buffer_basic() {
    let mut buffer = RingBuffer::new(1000);

    let tick = Tick::new("BTCUSDT".to_string(), 1000, 1000, 100, 1, true, 1);

    assert!(buffer.push(tick.clone()).is_ok());
    assert_eq!(buffer.len(), 1);

    let popped = buffer.pop();
    assert!(popped.is_some());
    assert_eq!(buffer.len(), 0);
}

#[test]
fn test_ring_buffer_batch() {
    let mut buffer = RingBuffer::new(100);

    for i in 0..10 {
        let tick = Tick::new(
            "BTCUSDT".to_string(),
            i * 1000,
            i * 1000,
            100 + i,
            1,
            true,
            i as u64,
        );
        buffer.push(tick).unwrap();
    }

    let batch = buffer.pop_batch(5);
    assert_eq!(batch.len(), 5);
    assert_eq!(buffer.len(), 5);
}

#[test]
fn test_ring_buffer_capacity() {
    let mut buffer = RingBuffer::new(2);

    let tick = Tick::new("BTCUSDT".to_string(), 1000, 1000, 100, 1, true, 1);

    assert!(buffer.push(tick.clone()).is_ok());
    assert!(buffer.push(tick.clone()).is_ok());
    assert!(buffer.push(tick).is_err()); // over capacity
}

#[test]
fn fifo_order_is_kept() {
    let mut buffer = RingBuffer::new(100);
    for i in 0..6u64 {
        let tick = Tick::new("BTCUSDT".to_string(), i, i, 100, 1, true, i);
        buffer.push(tick).unwrap();
    }
    for i in 0..3u64 {
        assert_eq!(buffer.pop().unwrap().trade_id, i);
    }
    let rest = buffer.pop_batch(10);
    assert_eq!(rest.len(), 3);
    for (n, tick) in rest.iter().enumerate() {
        assert_eq!(tick.trade_id, n as u64 + 3);
    }
    assert!(buffer.pop().is_none());
}

#[test]
fn full_queue_rejects_and_keeps_size() {
    let mut buffer = RingBuffer::new(2);
    let tick = Tick::new("BTCUSDT".to_string(), 1000, 1000, 100, 1, true, 1);
    buffer.push(tick.clone()).unwrap();
    buffer.push(tick.clone()).unwrap();
    let rejected = buffer.push(tick);
    assert!(matches!(rejected, Err(MdiError::QueueError(_))));
    if let Err(MdiError::QueueError(msg)) = buffer.push(Tick::new(
        "BTCUSDT".to_string(),
        1000,
        1000,
        100,
        1,
        true,
        2,
    )) {
        assert_eq!(msg, "RingBuffer full: 2/2");
    } else {
        panic!("expected QueueError");
    }
    assert_eq!(buffer.len(), 2);
    assert_eq!(buffer.usage_percent(), 100);
}

#[test]
fn clear_empties_the_buffer() {
    let mut buffer = RingBuffer::new(10);
    for i in 0..4u64 {
        buffer
            .push(Tick::new("BTCUSDT".to_string(), i, i, 100, 1, true, i))
            .unwrap();
    }
    assert_eq!(buffer.usage_percent(), 40);
    buffer.clear();
    assert!(buffer.is_empty());
    assert_eq!(buffer.capacity(), 10);
    assert_eq!(buffer.pop_batch(3).len(), 0);
}
