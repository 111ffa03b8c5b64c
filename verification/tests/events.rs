use std::rc::{Rc, Weak};

use fuchsia_support::events::{responders, EventRegistry, RoutedEvent, Upgrade};

struct Handle(Weak<u32>);

impl Upgrade for Handle {
    type Target = Rc<u32>;

    fn upgrade_handle(&self) -> Option<Rc<u32>> {
        self.0.upgrade()
    }
}

fn sub(name: &str, target: &Rc<u32>) -> RoutedEvent<Handle> {
    RoutedEvent { source_name: name.to_string(), dispatcher: Handle(Rc::downgrade(target)) }
}

#[test]
fn drop_dispatcher_when_event_stream_dropped() {
    let discovered = "discovered".to_string();
    let mut registry: EventRegistry<Handle> = EventRegistry::new();
    assert_eq!(registry.dispatchers_per_event_type(&discovered), 0);

    let stream_a = Rc::new(1);
    registry.subscribe(vec![sub("discovered", &stream_a)]);
    assert_eq!(registry.dispatchers_per_event_type(&discovered), 1);

    let stream_b = Rc::new(2);
    registry.subscribe(vec![sub("discovered", &stream_b)]);
    assert_eq!(registry.dispatchers_per_event_type(&discovered), 2);

    // both streams receive the event
    let live = registry.take_live_dispatchers(&discovered).unwrap();
    assert_eq!(live.iter().map(|t| **t).collect::<Vec<_>>(), vec![1, 2]);
    drop(live);
    assert_eq!(registry.dispatchers_per_event_type(&discovered), 2);

    drop(stream_a);
    // the registry won't drop dispatchers until an event is dispatched
    assert_eq!(registry.dispatchers_per_event_type(&discovered), 2);

    let live = registry.take_live_dispatchers(&discovered).unwrap();
    assert_eq!(live.iter().map(|t| **t).collect::<Vec<_>>(), vec![2]);
    drop(live);
    assert_eq!(registry.dispatchers_per_event_type(&discovered), 1);

    drop(stream_b);
    let live = registry.take_live_dispatchers(&discovered).unwrap();
    assert!(live.is_empty());
    assert_eq!(registry.dispatchers_per_event_type(&discovered), 0);
}

#[test]
fn events_without_subscribers_are_not_dispatched() {
    let mut registry: EventRegistry<Handle> = EventRegistry::new();
    let target = Rc::new(7);
    registry.subscribe(vec![sub("started", &target), sub("stopped", &target), sub("started", &target)]);
    assert_eq!(registry.dispatchers_per_event_type(&"started".to_string()), 2);
    assert_eq!(registry.dispatchers_per_event_type(&"stopped".to_string()), 1);
    assert!(registry.take_live_dispatchers(&"destroyed".to_string()).is_none());
    assert_eq!(registry.take_live_dispatchers(&"started".to_string()).unwrap().len(), 2);
}

#[test]
fn responders_of_accepting_dispatchers() {
    let results: Vec<Result<Option<u8>, ()>> = vec![Ok(Some(1)), Ok(None), Err(()), Ok(Some(4))];
    assert_eq!(responders(results), vec![1, 4]);
    let none: Vec<Result<Option<u8>, ()>> = vec![];
    assert_eq!(responders(none), Vec::<u8>::new());
}

#[test]
fn retain_live_keeps_exactly_the_live_ones_in_order() {
    let mut registry: EventRegistry<u8> = EventRegistry::new();
    registry.add("resolved".to_string(), 1);
    registry.add("resolved".to_string(), 2);
    registry.add("resolved".to_string(), 3);
    registry.add("purged".to_string(), 9);
    let name = "resolved".to_string();
    let live = registry.retain_live(&name, vec![Some('a'), None, Some('c')]);
    assert_eq!(live, vec!['a', 'c']);
    assert_eq!(registry.dispatchers_per_event_type(&name), 2);
    assert_eq!(registry.dispatchers_per_event_type(&"purged".to_string()), 1);
    // the name stays registered when nothing is alive
    let live: Vec<char> = registry.retain_live(&name, vec![None, None]);
    assert!(live.is_empty());
    assert_eq!(registry.dispatchers_per_event_type(&name), 0);
}
