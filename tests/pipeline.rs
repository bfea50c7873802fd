use solar_tracer::acquisition::{
    on_open_failure, Acquisition, LoadCommand, OpenDecision, OpenFailure, PortAction,
    RECONNECT_AFTER,
};
use solar_tracer::buffer::{SampleBuffer, BUFFER_LIMIT};
use solar_tracer::decimal::Decimal;
use solar_tracer::menu::{select_next, select_previous};
use solar_tracer::sample::Sample;
use solar_tracer::switch::LoadToggleSwitch;

const GOOD: &[u8] = b"12.6:18.3:2.1:0.0:14.4:1.0:0.0:25.5:0.0:1.0:9999999";

fn sample(n: i64) -> Sample {
    Sample::with_timestamp(&[Decimal::from_int(n); 10], n)
}

#[test]
fn buffer_keeps_order_below_capacity() {
    let mut b = SampleBuffer::with_capacity(4);
    for i in 0..3 {
        assert!(b.append(sample(i)).is_none());
    }
    assert_eq!(b.len(), 3);
    assert_eq!(b.take_all(), vec![sample(0), sample(1), sample(2)]);
    assert_eq!(b.len(), 0);
}

#[test]
fn buffer_flushes_at_capacity() {
    let mut b = SampleBuffer::with_capacity(3);
    assert!(b.append(sample(1)).is_none());
    assert!(b.append(sample(2)).is_none());
    let batch = b.append(sample(3)).unwrap();
    assert_eq!(batch, vec![sample(1), sample(2), sample(3)]);
    assert_eq!(b.len(), 0);
}

#[test]
fn default_buffer_holds_full_batch() {
    let mut b = SampleBuffer::new();
    assert_eq!(b.capacity(), BUFFER_LIMIT);
    for i in 0..(BUFFER_LIMIT as i64 - 1) {
        assert!(b.append(sample(i)).is_none());
    }
    assert_eq!(b.len(), BUFFER_LIMIT - 1);
    let batch = b.append(sample(999)).unwrap();
    assert_eq!(batch.len(), BUFFER_LIMIT);
    assert_eq!(batch[0], sample(0));
    assert_eq!(batch[BUFFER_LIMIT - 1], sample(999));
    assert_eq!(b.len(), 0);
}

#[test]
fn shutdown_hands_over_pending() {
    let mut a = Acquisition::with_capacity(10);
    for _ in 0..3 {
        let c = a.on_line(Some(GOOD), 7);
        assert!(c.batch.is_none());
    }
    assert_eq!(a.pending_len(), 3);
    let rest = a.begin_cycle(true).unwrap();
    assert_eq!(rest.len(), 3);
    assert_eq!(rest[0], Sample::decode(GOOD, 7).unwrap());
    assert!(!a.is_running());
    assert_eq!(a.pending_len(), 0);
}

#[test]
fn no_stop_goes_on() {
    let mut a = Acquisition::new();
    assert!(a.begin_cycle(false).is_none());
    assert!(a.is_running());
}

#[test]
fn good_line_is_published_and_kept() {
    let mut a = Acquisition::with_capacity(2);
    let c = a.on_line(Some(GOOD), 3);
    assert_eq!(c.sample, Sample::decode(GOOD, 3).unwrap());
    assert!(!c.reconnect);
    assert!(c.batch.is_none());
    let c = a.on_line(Some(GOOD), 4);
    assert_eq!(c.batch.unwrap().len(), 2);
    assert_eq!(a.pending_len(), 0);
}

#[test]
fn five_failures_reconnect() {
    let mut a = Acquisition::new();
    for k in 1..RECONNECT_AFTER {
        let c = if k % 2 == 0 { a.on_line(None, 1) } else { a.on_line(Some(b"junk"), 1) };
        assert!(!c.reconnect);
        assert_eq!(c.sample, Sample::placeholder(1));
        assert_eq!(a.failures(), k);
    }
    let c = a.on_line(None, 2);
    assert!(c.reconnect);
    assert_eq!(a.failures(), 0);
    assert_eq!(a.pending_len(), 0);
}

#[test]
fn success_clears_failures() {
    let mut a = Acquisition::new();
    for _ in 0..4 {
        a.on_line(None, 1);
    }
    a.on_line(Some(GOOD), 1);
    assert_eq!(a.failures(), 0);
    for _ in 0..4 {
        assert!(!a.on_line(None, 1).reconnect);
    }
    assert!(a.on_line(None, 1).reconnect);
}

#[test]
fn load_on_then_off_writes_in_order() {
    let mut writes: Vec<Vec<u8>> = Vec::new();
    for cmd in [LoadCommand::from_switch(true), LoadCommand::from_switch(false)] {
        for action in cmd.actions() {
            if let PortAction::Write(bytes) = action {
                writes.push(bytes);
            }
        }
    }
    assert_eq!(writes, vec![b"LON\n".to_vec(), b"LOFF\n".to_vec()]);
}

#[test]
fn command_actions_discard_then_flush() {
    let a = LoadCommand::Off.actions();
    assert_eq!(a[0], PortAction::DiscardLine);
    assert_eq!(a[1], PortAction::Write(b"LOFF\n".to_vec()));
    assert_eq!(a[2], PortAction::Flush);
    assert_eq!(LoadCommand::On.encode(), b"LON\n".to_vec());
}

#[test]
fn open_failures() {
    assert_eq!(on_open_failure(OpenFailure::NoDevice), OpenDecision::RetryAfter(1));
    assert_eq!(on_open_failure(OpenFailure::Other), OpenDecision::Fatal);
}

#[test]
fn switch_toggles() {
    let mut s = LoadToggleSwitch::new(false, ("ON", "OFF"));
    assert!(!s.is_on);
    assert_eq!(s.active_label(), "OFF");
    assert!(s.toggle());
    assert_eq!(s.active_label(), "ON");
    assert!(!s.toggle());
    assert_eq!(s.labels, ("ON", "OFF"));
}

#[test]
fn menu_wraps() {
    assert_eq!(select_previous(0, 3), 2);
    assert_eq!(select_previous(2, 3), 1);
    assert_eq!(select_next(2, 3), 0);
    assert_eq!(select_next(0, 3), 1);
    assert_eq!(select_next(0, 1), 0);
}
