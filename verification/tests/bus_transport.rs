//! The multiplexer and the transport model: delivery order, unsubscribe,
//! and the bounded non-blocking send.

use chat_core::bus::EventMultiplexer;
use chat_core::transport::TransportChannel;

fn b(s: &str) -> Vec<u8> {
    s.as_bytes().to_vec()
}

#[test]
fn publish_delivers_in_order() {
    let mut mux = EventMultiplexer::new();
    let h = mux.subscribe();
    mux.publish(&b("f1"));
    mux.publish(&b("f2"));
    assert_eq!(mux.take_inbox(h), Some(vec![b("f1"), b("f2")]));
}

#[test]
fn take_inbox_drains() {
    let mut mux = EventMultiplexer::new();
    let h = mux.subscribe();
    mux.publish(&b("f1"));
    assert_eq!(mux.take_inbox(h), Some(vec![b("f1")]));
    assert_eq!(mux.take_inbox(h), Some(Vec::new()));
}

#[test]
fn publish_reaches_every_subscriber() {
    let mut mux = EventMultiplexer::new();
    let h1 = mux.subscribe();
    let h2 = mux.subscribe();
    mux.publish(&b("f"));
    assert_eq!(mux.take_inbox(h1), Some(vec![b("f")]));
    assert_eq!(mux.take_inbox(h2), Some(vec![b("f")]));
}

#[test]
fn unsubscribe_stops_delivery() {
    let mut mux = EventMultiplexer::new();
    let h1 = mux.subscribe();
    let h2 = mux.subscribe();
    mux.unsubscribe(h1);
    mux.publish(&b("late"));
    assert_eq!(mux.take_inbox(h1), None);
    assert_eq!(mux.take_inbox(h2), Some(vec![b("late")]));
}

#[test]
fn handles_are_never_reused() {
    let mut mux = EventMultiplexer::new();
    let h1 = mux.subscribe();
    mux.unsubscribe(h1);
    let h2 = mux.subscribe();
    assert_ne!(h1, h2);
}

#[test]
fn subscriber_joining_late_misses_earlier_frames() {
    let mut mux = EventMultiplexer::new();
    let h1 = mux.subscribe();
    mux.publish(&b("early"));
    let h2 = mux.subscribe();
    mux.publish(&b("late"));
    assert_eq!(mux.take_inbox(h1), Some(vec![b("early"), b("late")]));
    assert_eq!(mux.take_inbox(h2), Some(vec![b("late")]));
}

#[test]
fn send_on_open_channel_is_accepted() {
    let mut wss = TransportChannel::open_with_capacity(2);
    assert!(wss.send(b("a")).is_ok());
    assert!(wss.send(b("b")).is_ok());
    assert_eq!(wss.take_outbound(), vec![b("a"), b("b")]);
}

#[test]
fn send_on_full_buffer_fails() {
    let mut wss = TransportChannel::open_with_capacity(1);
    assert!(wss.send(b("a")).is_ok());
    assert!(wss.send(b("b")).is_err());
    assert_eq!(wss.take_outbound(), vec![b("a")]);
    assert!(wss.send(b("c")).is_ok());
}

#[test]
fn send_on_closed_channel_fails() {
    let mut wss = TransportChannel::open_with_capacity(4);
    wss.close();
    assert!(!wss.is_open());
    assert!(wss.send(b("a")).is_err());
    assert_eq!(wss.pending(), 0);
    assert_eq!(wss.take_outbound(), Vec::<Vec<u8>>::new());
}

#[test]
fn close_keeps_already_accepted_frames() {
    let mut wss = TransportChannel::open_with_capacity(4);
    assert!(wss.send(b("a")).is_ok());
    wss.close();
    assert_eq!(wss.take_outbound(), vec![b("a")]);
}
