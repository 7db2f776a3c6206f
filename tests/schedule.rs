use emu_utils::schedule::Schedule;

#[derive(Clone, Copy, Debug, PartialEq, Eq)]
enum Event {
    Idle,
    Timer,
    Dma,
    Vblank,
}

impl Default for Event {
    fn default() -> Self {
        Event::Idle
    }
}

#[test]
fn empty_schedule() {
    let mut s: Schedule<Event, 4> = Schedule::new();
    assert_eq!(s.next_event(), None);
    assert_eq!(s.next_event_time(), u64::MAX);
    assert!(!s.is_scheduled(1));
    assert!(s.is_scheduled(0));
    assert_eq!(s.pop_pending_event(1000), None);
}

#[test]
fn events_fire_in_time_order() {
    let mut s: Schedule<Event, 4> = Schedule::new();
    s.set_event(1, Event::Timer);
    s.set_event(2, Event::Dma);
    s.set_event(3, Event::Vblank);
    s.schedule(1, 50);
    s.schedule(2, 20);
    s.schedule(3, 35);
    assert!(s.is_scheduled(2));
    assert_eq!(s.next_event(), Some(Event::Dma));
    assert_eq!(s.next_event_time(), 20);
    assert_eq!(s.pop_pending_event(10), None);
    assert_eq!(s.pop_pending_event(40), Some((Event::Dma, 20)));
    assert_eq!(s.pop_pending_event(40), Some((Event::Vblank, 35)));
    assert_eq!(s.pop_pending_event(40), None);
    assert_eq!(s.next_event_time(), 50);
    assert!(!s.is_scheduled(2));
    assert_eq!(s.pop_pending_event(50), Some((Event::Timer, 50)));
    assert_eq!(s.next_event_time(), u64::MAX);
}

#[test]
fn equal_times_order() {
    // Equal to the first: goes first. Later but equal to another: goes after it.
    let mut s: Schedule<Event, 4> = Schedule::new();
    s.set_event(1, Event::Timer);
    s.set_event(2, Event::Dma);
    s.set_event(3, Event::Vblank);
    s.schedule(1, 10);
    s.schedule(2, 10);
    assert_eq!(s.next_event(), Some(Event::Dma));
    s.schedule(3, 10);
    assert_eq!(s.pop_pending_event(10), Some((Event::Vblank, 10)));
    assert_eq!(s.pop_pending_event(10), Some((Event::Dma, 10)));
    assert_eq!(s.pop_pending_event(10), Some((Event::Timer, 10)));
    let mut s: Schedule<Event, 4> = Schedule::new();
    s.set_event(1, Event::Timer);
    s.set_event(2, Event::Dma);
    s.set_event(3, Event::Vblank);
    s.schedule(1, 5);
    s.schedule(2, 10);
    s.schedule(3, 10);
    assert_eq!(s.pop_pending_event(10), Some((Event::Timer, 5)));
    assert_eq!(s.pop_pending_event(10), Some((Event::Dma, 10)));
    assert_eq!(s.pop_pending_event(10), Some((Event::Vblank, 10)));
}

#[test]
fn cancel_removes_events() {
    let mut s: Schedule<Event, 4> = Schedule::new();
    s.set_event(1, Event::Timer);
    s.set_event(2, Event::Dma);
    s.set_event(3, Event::Vblank);
    s.schedule(1, 30);
    s.schedule(2, 10);
    s.schedule(3, 20);
    s.cancel(2);
    assert!(!s.is_scheduled(2));
    assert_eq!(s.next_event_time(), 20);
    s.cancel(1);
    assert_eq!(s.pop_pending_event(100), Some((Event::Vblank, 20)));
    assert_eq!(s.pop_pending_event(100), None);
    s.schedule(2, 7);
    assert_eq!(s.next_event(), Some(Event::Dma));
}
