use robot_sim::event::{Event, EventType};
use robot_sim::geometry::Point;
use robot_sim::queue::EventQueue;

fn at(timestamp: u64) -> Event {
    Event::move_robot(timestamp, 0, Point::new(0, 500, 0), None)
}

fn drain(queue: &mut EventQueue) -> Vec<Event> {
    let mut seen = Vec::new();
    while let Some(event) = queue.pop() {
        seen.push(event);
    }
    seen
}

#[test]
fn drains_in_timestamp_order() {
    let mut queue = EventQueue::new();
    for t in [5u64, 1, 3] {
        queue.push(at(t));
    }
    let mut seen = Vec::new();
    while let Some(event) = queue.pop_due(10) {
        seen.push(event.timestamp);
    }
    assert_eq!(seen, vec![1, 3, 5]);
    assert!(queue.is_empty());
}

#[test]
fn drains_in_timestamp_order_whatever_the_insertion_order() {
    let orders: [[u64; 3]; 6] =
        [[1, 3, 5], [1, 5, 3], [3, 1, 5], [3, 5, 1], [5, 1, 3], [5, 3, 1]];
    for order in orders.iter() {
        let mut queue = EventQueue::new();
        for t in order.iter() {
            queue.push(at(*t));
        }
        let seen: Vec<u64> = drain(&mut queue).iter().map(|e| e.timestamp).collect();
        assert_eq!(seen, vec![1, 3, 5]);
    }
}

#[test]
fn pop_due_leaves_future_events() {
    let mut queue = EventQueue::new();
    queue.push(at(7));
    queue.push(at(2));
    assert_eq!(queue.pop_due(1).map(|e| e.timestamp), None);
    assert_eq!(queue.len(), 2);
    assert_eq!(queue.pop_due(2).map(|e| e.timestamp), Some(2));
    assert_eq!(queue.pop_due(6).map(|e| e.timestamp), None);
    assert_eq!(queue.pop_due(7).map(|e| e.timestamp), Some(7));
    assert_eq!(queue.pop_due(100).map(|e| e.timestamp), None);
}

#[test]
fn peek_shows_the_earliest_without_removing_it() {
    let mut queue = EventQueue::new();
    assert_eq!(queue.peek(), None);
    queue.push(at(9));
    queue.push(at(4));
    queue.push(at(6));
    assert_eq!(queue.peek(), Some(&at(4)));
    assert_eq!(queue.len(), 3);
    assert_eq!(queue.peek_due(3), None);
    assert_eq!(queue.peek_due(4), Some(&at(4)));
    assert_eq!(queue.len(), 3);
}

#[test]
fn pop_of_an_empty_queue_is_none() {
    let mut queue = EventQueue::new();
    assert!(queue.is_empty());
    assert_eq!(queue.len(), 0);
    assert_eq!(queue.pop(), None);
    assert_eq!(queue.pop_due(u64::MAX), None);
    assert_eq!(queue.peek_due(u64::MAX), None);
}

#[test]
fn clear_drops_every_event() {
    let mut queue = EventQueue::new();
    for t in 0..20u64 {
        queue.push(at(t));
    }
    assert_eq!(queue.len(), 20);
    queue.clear();
    assert!(queue.is_empty());
    assert_eq!(queue.pop(), None);
    queue.push(at(3));
    assert_eq!(queue.pop(), Some(at(3)));
}

#[test]
fn equal_events_are_all_kept() {
    let mut queue = EventQueue::new();
    queue.push(at(2));
    queue.push(at(2));
    queue.push(at(2));
    assert_eq!(queue.len(), 3);
    assert_eq!(drain(&mut queue), vec![at(2), at(2), at(2)]);
}

#[test]
fn many_events_come_out_sorted() {
    let mut queue = EventQueue::new();
    let mut expected = Vec::new();
    let mut x: u64 = 12345;
    for _ in 0..500 {
        x = (x * 6364136223846793005u128 as u64).wrapping_add(1442695040888963407) % 1000;
        queue.push(at(x));
        expected.push(x);
    }
    expected.sort();
    let seen: Vec<u64> = drain(&mut queue).iter().map(|e| e.timestamp).collect();
    assert_eq!(seen, expected);
}

#[test]
fn interleaved_pushes_and_pops() {
    let mut queue = EventQueue::new();
    queue.push(at(10));
    queue.push(at(30));
    assert_eq!(queue.pop(), Some(at(10)));
    queue.push(at(20));
    queue.push(at(5));
    assert_eq!(queue.pop(), Some(at(5)));
    assert_eq!(queue.pop(), Some(at(20)));
    queue.push(at(40));
    assert_eq!(queue.pop(), Some(at(30)));
    assert_eq!(queue.pop(), Some(at(40)));
    assert_eq!(queue.pop(), None);
}

#[test]
fn equal_timestamps_leave_in_payload_order() {
    let p = Point::new(0, 500, 0);
    let q = Point::new(0, 500, 1);
    let events = vec![
        Event::move_robot(7, 2, p, None),
        Event::move_robot(7, 1, p, Some(3)),
        Event::move_robot(7, 1, q, Some(0)),
        Event::move_robot(7, 1, p, Some(0)),
        Event::move_robot(7, 1, p, None),
        Event::move_robot(6, 9, q, Some(9)),
    ];
    let mut queue = EventQueue::new();
    for e in events.iter() {
        queue.push(*e);
    }
    let seen = drain(&mut queue);
    assert_eq!(
        seen,
        vec![
            Event::move_robot(6, 9, q, Some(9)),
            Event::move_robot(7, 1, p, None),
            Event::move_robot(7, 1, p, Some(0)),
            Event::move_robot(7, 1, q, Some(0)),
            Event::move_robot(7, 1, p, Some(3)),
            Event::move_robot(7, 2, p, None),
        ]
    );
}

#[test]
fn move_robot_builds_the_event() {
    let e = Event::move_robot(3, 4, Point::new(1, 2, 3), Some(5));
    assert_eq!(e.timestamp, 3);
    assert_eq!(
        e.event_type,
        EventType::MoveRobot { robot_id: 4, target: Point::new(1, 2, 3), task_id: Some(5) }
    );
}

#[test]
fn the_earlier_timestamp_goes_first() {
    let early = Event::move_robot(1, 9, Point::new(9, 9, 9), Some(9));
    let late = Event::move_robot(2, 0, Point::new(0, 0, 0), None);
    assert!(early.is_before_or_same(&late));
    assert!(!late.is_before_or_same(&early));
    assert!(early.is_before_or_same(&early));
}

#[test]
fn the_order_of_events_is_total() {
    let points = [Point::new(0, 0, 0), Point::new(0, 0, 1), Point::new(0, 1, 0), Point::new(-1, 5, 5)];
    let mut events = Vec::new();
    for t in [0u64, 1] {
        for r in [0usize, 1] {
            for task in [None, Some(0usize), Some(1)] {
                for p in points.iter() {
                    events.push(Event::move_robot(t, r, *p, task));
                }
            }
        }
    }
    for a in events.iter() {
        for b in events.iter() {
            let ab = a.is_before_or_same(b);
            let ba = b.is_before_or_same(a);
            assert!(ab || ba);
            assert_eq!(ab && ba, a == b);
            for c in events.iter() {
                if ab && b.is_before_or_same(c) {
                    assert!(a.is_before_or_same(c));
                }
            }
        }
    }
}
