use qbasic_rs::event::{EventQueue, InterpreterEvent};

#[test]
fn test_event_queue_order() {
    let mut q = EventQueue::new();
    assert!(q.is_empty());
    assert!(!q.has_events());
    q.push(InterpreterEvent::Output("a".to_string()));
    q.push(InterpreterEvent::Debug("b".to_string()));
    q.push(InterpreterEvent::Finished);
    assert_eq!(q.len(), 3);
    assert!(q.has_events());
    let taken = q.take_events();
    assert_eq!(
        taken,
        vec![
            InterpreterEvent::Output("a".to_string()),
            InterpreterEvent::Debug("b".to_string()),
            InterpreterEvent::Finished,
        ]
    );
    assert!(q.is_empty());
    assert_eq!(q.len(), 0);
    assert!(q.take_events().is_empty());
}

#[test]
fn test_event_queue_default() {
    let mut q = EventQueue::default();
    q.push(InterpreterEvent::Error("e".to_string()));
    q.push(InterpreterEvent::Input("x".to_string()));
    assert_eq!(q.len(), 2);
}
