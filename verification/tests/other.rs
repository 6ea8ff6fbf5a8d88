use matchbox::clock::{nanos_to_u64, now_nanos};
use matchbox::models::{CreateOrderRequest, Side};
use matchbox::requests::{order_from_request, validate_request, RequestError};
use matchbox::worker::{worker_step, WorkerAction, WorkerEvent, WorkerRole};

#[test]
fn request_with_zero_quantity_is_refused() {
    let req = CreateOrderRequest { side: Side::Buy, price: 50, qty: 0 };
    assert_eq!(validate_request(&req), Err(RequestError::ZeroQty));
    let req = CreateOrderRequest { side: Side::Sell, price: 0, qty: 0 };
    assert_eq!(validate_request(&req), Err(RequestError::ZeroQty));
}

#[test]
fn request_with_zero_price_is_refused() {
    let req = CreateOrderRequest { side: Side::Sell, price: 0, qty: 10 };
    assert_eq!(validate_request(&req), Err(RequestError::ZeroPrice));
}

#[test]
fn valid_request_becomes_an_order() {
    let req = CreateOrderRequest { side: Side::Sell, price: 50, qty: 10 };
    assert_eq!(validate_request(&req), Ok(()));
    let o = order_from_request(&req, 7, 123);
    assert_eq!((o.id, o.side, o.price, o.qty, o.timestamp), (7, Side::Sell, 50, 10, 123));
}

#[test]
fn candidate_tries_to_lead_and_backs_off() {
    assert_eq!(
        worker_step(WorkerRole::Candidate, WorkerEvent::Idle),
        (WorkerRole::Candidate, WorkerAction::TryLead)
    );
    assert_eq!(
        worker_step(WorkerRole::Candidate, WorkerEvent::LeadAttempted(false)),
        (WorkerRole::Candidate, WorkerAction::Sleep(5000))
    );
    assert_eq!(
        worker_step(WorkerRole::Candidate, WorkerEvent::LeadAttempted(true)),
        (WorkerRole::Leader, WorkerAction::StartLeading)
    );
    assert_eq!(
        worker_step(WorkerRole::Candidate, WorkerEvent::Popped(true)),
        (WorkerRole::Candidate, WorkerAction::TryLead)
    );
}

#[test]
fn leader_refreshes_lease_every_ten_seconds() {
    assert_eq!(
        worker_step(WorkerRole::Leader, WorkerEvent::Idle),
        (WorkerRole::Leader, WorkerAction::CheckLease)
    );
    assert_eq!(
        worker_step(WorkerRole::Leader, WorkerEvent::LeaseAge(9)),
        (WorkerRole::Leader, WorkerAction::PopOrder)
    );
    assert_eq!(
        worker_step(WorkerRole::Leader, WorkerEvent::LeaseAge(10)),
        (WorkerRole::Leader, WorkerAction::RefreshLease)
    );
    assert_eq!(
        worker_step(WorkerRole::Leader, WorkerEvent::LeaseRefreshed(true)),
        (WorkerRole::Leader, WorkerAction::PopOrder)
    );
    assert_eq!(
        worker_step(WorkerRole::Leader, WorkerEvent::LeaseRefreshed(false)),
        (WorkerRole::Candidate, WorkerAction::StepDown)
    );
}

#[test]
fn leader_serves_queue_and_waits_when_empty() {
    assert_eq!(
        worker_step(WorkerRole::Leader, WorkerEvent::Popped(true)),
        (WorkerRole::Leader, WorkerAction::ProcessOrder)
    );
    assert_eq!(
        worker_step(WorkerRole::Leader, WorkerEvent::Popped(false)),
        (WorkerRole::Leader, WorkerAction::Sleep(50))
    );
}

#[test]
fn clock_reading_truncates_to_64_bits() {
    assert_eq!(nanos_to_u64(None), 0);
    assert_eq!(nanos_to_u64(Some(7)), 7);
    assert_eq!(nanos_to_u64(Some(u64::MAX as u128 + 5)), 4);
    assert!(now_nanos() > 1_577_836_800_000_000_000);
}
