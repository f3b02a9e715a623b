use wgpu_memory::owners::OwnerTable;

#[test]
fn copy_survives_first_drop() {
    let mut owners = OwnerTable::new();
    let t = owners.register();
    assert_eq!(owners.owner_count(t), 1);
    owners.acquire(t);
    assert_eq!(owners.owner_count(t), 2);
    assert!(!owners.release(t));
    assert_eq!(owners.owner_count(t), 1);
    assert!(owners.release(t));
    assert_eq!(owners.owner_count(t), 0);
}

#[test]
fn tickets_are_distinct() {
    let mut owners = OwnerTable::new();
    assert_eq!(owners.peek_next(), 0);
    let a = owners.register();
    let b = owners.register();
    assert_ne!(a, b);
    assert_eq!(owners.peek_next(), 2);
    assert!(owners.release(a));
    assert_eq!(owners.owner_count(b), 1);
}

#[test]
fn releasing_unknown_ticket_is_ignored() {
    let mut owners = OwnerTable::new();
    assert!(!owners.release(7));
    let t = owners.register();
    assert!(owners.release(t));
    assert!(!owners.release(t));
}
