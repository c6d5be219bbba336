use bufpool::double_link::{parse_qctd, QcDLnode, QcDoubleLink};
use bufpool::trace::QcTracer;

#[test]
fn list_keeps_front_to_back_order() {
    let mut dpk = QcDoubleLink::new();
    assert_eq!(dpk.len(), 0);
    assert_eq!(dpk.push_back(4), Some(4));
    dpk.push_back(9);
    dpk.push_back(2);
    dpk.push_back(18);
    assert_eq!(dpk.len(), 4);
    assert_eq!(dpk.values(), vec![4, 9, 2, 18]);
    assert_eq!(parse_qctd(dpk.pop_front()), Some(4));
    assert_eq!(dpk.values(), vec![9, 2, 18]);
    assert_eq!(dpk.len(), 3);
}

#[test]
fn list_removes_and_resets_by_value() {
    let mut dpk = QcDoubleLink::new();
    dpk.push_back(4);
    dpk.push_back(9);
    dpk.push_back(2);
    dpk.push_back(18);
    QcDoubleLink::reset_item(&mut dpk, 2, 1);
    assert_eq!(dpk.values(), vec![4, 9, 1, 18]);
    QcDoubleLink::remove_item(&mut dpk, 1);
    assert_eq!(dpk.values(), vec![4, 9, 18]);
    QcDoubleLink::remove_item(&mut dpk, 77);
    assert_eq!(dpk.values(), vec![4, 9, 18]);
    assert!(dpk.contains(9));
    assert!(!dpk.contains(1));
}

#[test]
fn pop_front_on_empty_list_is_none() {
    let mut dpk = QcDoubleLink::new();
    assert_eq!(parse_qctd(dpk.pop_front()), None);
    let node = QcDLnode::new(3);
    assert_eq!(node.val, 3);
}

#[test]
fn tracer_orders_victims_by_recency() {
    let mut tracer = QcTracer::new(8);
    tracer.insert(12).unwrap();
    tracer.insert(10).unwrap();
    tracer.insert(5).unwrap();
    // touching a tracked id moves it to the most-recently-used end
    tracer.insert(10).unwrap();
    tracer.insert(11).unwrap();
    assert_eq!(tracer.len(), 4);
    assert_eq!(tracer.victim(), Some(12));
    assert_eq!(tracer.victim(), Some(5));
    assert_eq!(tracer.victim(), Some(10));
    assert_eq!(tracer.victim(), Some(11));
    assert_eq!(tracer.victim(), None);
}

#[test]
fn tracer_refuses_to_grow_past_capacity() {
    let mut tracer = QcTracer::new(2);
    assert_eq!(tracer.insert(1), Some(()));
    assert_eq!(tracer.insert(2), Some(()));
    assert_eq!(tracer.insert(3), None);
    assert_eq!(tracer.len(), 2);
    // a tracked id may still be touched at capacity
    assert_eq!(tracer.insert(1), Some(()));
    assert_eq!(tracer.victim(), Some(2));
    assert_eq!(tracer.insert(3), Some(()));
}

#[test]
fn tracer_remove_untracks() {
    let mut tracer = QcTracer::new(4);
    tracer.insert(1).unwrap();
    tracer.insert(2).unwrap();
    tracer.insert(3).unwrap();
    assert!(tracer.is_tracked(2));
    tracer.remove(2);
    assert!(!tracer.is_tracked(2));
    assert_eq!(tracer.victim(), Some(1));
    assert_eq!(tracer.victim(), Some(3));
    assert_eq!(tracer.victim(), None);
}
