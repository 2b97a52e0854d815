use pulz_schedule::event::Events;

// --- new / is_empty ---

#[test]
fn events_new_is_empty() {
    let events: Events<i32> = Events::new();
    assert!(events.is_empty());
}

// --- send / send_batch ---

#[test]
fn events_send_single() {
    let mut events = Events::new();
    events.send(42);
    assert!(!events.is_empty());
    assert_eq!(events.last(), Some(&42));
}

#[test]
fn events_send_batch() {
    let mut events = Events::new();
    events.send_batch(vec![1, 2, 3]);
    assert_eq!(events.last(), Some(&3));
}

#[test]
fn events_last_empty() {
    let events: Events<i32> = Events::new();
    assert!(events.last().is_none());
}

// --- clear ---

#[test]
fn events_clear() {
    let mut events = Events::new();
    events.send(1);
    events.send(2);
    events.clear();
    assert!(events.is_empty());
    assert!(events.last().is_none());
}

// --- Extend ---

#[test]
fn events_extend() {
    let mut events = Events::new();
    events.extend(vec![10, 20, 30]);
    assert_eq!(events.last(), Some(&30));
}

// --- further cases ---

#[test]
fn events_are_kept_for_two_frames() {
    let mut events = Events::new();
    events.send(1);
    events.update();
    // sent in the frame before: still there
    assert_eq!(events.last(), Some(&1));
    events.send(2);
    events.update();
    // 1 is two frames old now, 2 is kept
    assert_eq!(events.last(), Some(&2));
    events.update();
    assert!(events.is_empty());
}

#[test]
fn events_default_is_empty() {
    let events: Events<u8> = Events::default();
    assert!(events.is_empty());
}

#[test]
fn events_subscriber_reads_each_event_once() {
    let mut events = Events::new();
    events.send(1);
    events.send(2);
    let mut cursor: usize = 0;
    assert_eq!(events.read_unread(&mut cursor), 0);
    assert_eq!(cursor, 2);
    // nothing new: the read starts past the newest event
    assert_eq!(events.read_unread(&mut cursor), 2);
    events.send(3);
    let offset = events.read_unread(&mut cursor);
    assert_eq!(offset, 2);
    assert_eq!(events.len(), 3);
    assert_eq!(*events.get(offset), 3);
    assert_eq!(cursor, 3);
    // after the oldest events are dropped, a new event is found at its new position
    events.update();
    events.update();
    events.send(4);
    let offset = events.read_unread(&mut cursor);
    assert_eq!(events.len(), 1);
    assert_eq!(offset, 0);
    assert_eq!(*events.get(offset), 4);
    assert_eq!(cursor, 4);
}
