use layout::ports::{claim_port, resolve_port, PortChoice};

#[test]
fn no_ports_means_center() {
    let ids: Vec<Option<usize>> = vec![];
    assert!(matches!(resolve_port(&ids, None), PortChoice::Center));
    assert!(matches!(resolve_port(&ids, Some(3)), PortChoice::Center));
}

#[test]
fn requested_id_is_reused() {
    let ids = vec![None, Some(7), None, Some(2)];
    assert!(matches!(resolve_port(&ids, Some(2)), PortChoice::Reuse(3)));
    assert!(matches!(resolve_port(&ids, Some(7)), PortChoice::Reuse(1)));
}

#[test]
fn unbound_ports_are_candidates() {
    let ids = vec![None, Some(7), None, Some(2)];
    match resolve_port(&ids, Some(5)) {
        PortChoice::Pick(v) => assert_eq!(v, vec![0, 2]),
        _ => panic!("expected candidates"),
    }
    match resolve_port(&ids, None) {
        PortChoice::Pick(v) => assert_eq!(v, vec![0, 2]),
        _ => panic!("expected candidates"),
    }
}

#[test]
fn all_ports_claimed_means_center() {
    let ids = vec![Some(0), Some(1)];
    assert!(matches!(resolve_port(&ids, Some(4)), PortChoice::Center));
}

#[test]
fn claim_binds_once() {
    let mut ids = vec![None, None, Some(4)];
    assert!(claim_port(&mut ids, 0, 9));
    assert_eq!(ids, vec![Some(9), None, Some(4)]);
    assert!(!claim_port(&mut ids, 1, 4));
    assert_eq!(ids, vec![Some(9), None, Some(4)]);
}

#[test]
fn claimed_id_stays_with_its_port() {
    let mut ids = vec![None, None, None];
    assert!(claim_port(&mut ids, 1, 0));
    assert!(matches!(resolve_port(&ids, Some(0)), PortChoice::Reuse(1)));
    assert!(claim_port(&mut ids, 0, 5));
    assert!(claim_port(&mut ids, 2, 6));
    assert!(matches!(resolve_port(&ids, Some(0)), PortChoice::Reuse(1)));
}
