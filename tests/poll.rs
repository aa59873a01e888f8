use jsonwatch::diff::{Change, Segment};
use jsonwatch::poll::{Reading, Watcher};
use jsonwatch::value::{Number, Value};

fn count(i: i128) -> Value {
    Value::Object(vec![("count".to_string(), Value::Number(Number::Int(i)))])
}

#[test]
fn watcher_reports_each_change_once() {
    let mut w = Watcher::new(Some(count(3)), None);
    let r = w.observe(Reading::Parsed(count(4))).unwrap();
    assert_eq!(r.len(), 1);
    assert_eq!(r.entries()[0].path, vec![Segment::Field("count".to_string())]);
    assert_eq!(w.changes_seen, 1);
    assert!(w.observe(Reading::Parsed(count(4))).is_none());
    assert_eq!(w.changes_seen, 1);
    assert_eq!(w.last, Some(count(4)));
}

#[test]
fn failed_readings_count_as_no_value() {
    let mut w = Watcher::new(Some(count(1)), Some(5));
    let r = w.observe(Reading::SourceFailed).unwrap();
    assert_eq!(r.len(), 1);
    assert_eq!(r.entries()[0].path, Vec::<Segment>::new());
    assert_eq!(r.entries()[0].change, Change::Removed(count(1)));
    assert_eq!(w.last, None);
    assert_eq!(w.changes_seen, 1);
    assert!(w.observe(Reading::Unparsable).is_none());
    assert_eq!(w.changes_seen, 1);
    let r = w.observe(Reading::Parsed(count(2))).unwrap();
    assert_eq!(r.entries()[0].change, Change::Added(count(2)));
    let r = w.observe(Reading::Unparsable).unwrap();
    assert_eq!(r.entries()[0].change, Change::Removed(count(2)));
    assert_eq!(w.last, None);
    assert_eq!(w.changes_seen, 3);
}

#[test]
fn blank_reading_removes_the_value() {
    let mut w = Watcher::new(Some(count(1)), None);
    let r = w.observe(Reading::Empty).unwrap();
    assert_eq!(r.entries()[0].path, Vec::<Segment>::new());
    assert_eq!(r.entries()[0].change, Change::Removed(count(1)));
    assert_eq!(w.last, None);
    let r = w.observe(Reading::Parsed(Value::Null)).unwrap();
    assert_eq!(r.entries()[0].change, Change::Added(Value::Null));
    assert!(w.observe(Reading::Parsed(Value::Null)).is_none());
}

#[test]
fn watcher_stops_after_the_limit() {
    let mut w = Watcher::new(None, Some(2));
    assert!(!w.done());
    w.observe(Reading::Parsed(count(1)));
    assert!(!w.done());
    w.observe(Reading::Empty);
    assert!(w.done());
    assert_eq!(w.changes_seen, 2);
    let unlimited = Watcher::new(None, None);
    assert!(!unlimited.done());
}
