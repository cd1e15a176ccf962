use tix_api::auth::Identity;
use tix_api::error::Code;
use tix_api::order::OrderId;
use tix_api::store::Store;
use tix_api::swish::{Amount, Part, Transaction};

fn oid(s: &str) -> OrderId {
    OrderId::from(s.to_string())
}

fn create(
    store: &mut Store,
    id: &str,
    email: &str,
    count: usize,
    ticket_ids: Vec<u128>,
    now: i64,
) -> Result<tix_api::order::Order, tix_api::error::ResponseError> {
    store.create_order(
        oid(id),
        email.to_string(),
        "Test Person".to_string(),
        "0700000000".to_string(),
        count,
        ticket_ids,
        now,
    )
}

fn tx(message: &str, mantissa: i64, scale: u32, time: i64) -> Transaction {
    Transaction {
        time,
        amount: Amount { mantissa, scale },
        message: message.to_string(),
        payor: Part {
            phone: "0701111111".to_string(),
            name: "Payor".to_string(),
        },
        payee: Part {
            phone: "123-345 69 51".to_string(),
            name: "Payee".to_string(),
        },
    }
}

#[test]
fn capacity_scenario_sell_out_cancel_resell() {
    // capacity=2: A(2) fits, B(1) does not; cancel A frees both seats.
    let mut store = Store::new(2);
    assert_eq!(store.tickets_remaining(), 2);

    let a = create(&mut store, "AAAAAAAA", "a@example.com", 2, vec![1, 2], 100).unwrap();
    assert_eq!(a.amount, 230);
    assert_eq!(store.tickets_remaining(), 0);

    let b = create(&mut store, "BBBBBBBB", "b@example.com", 1, vec![3], 101);
    assert!(matches!(b.unwrap_err().code, Code::TooManyTickets));

    store.cancel_order(&oid("AAAAAAAA"), 102).unwrap();
    assert_eq!(store.tickets_remaining(), 2);

    let b2 = create(&mut store, "BBBBBBBB", "b@example.com", 1, vec![3], 103);
    assert!(b2.is_ok());
    assert_eq!(store.tickets_remaining(), 1);
}

#[test]
fn per_order_cap_refused() {
    let mut store = Store::new(100);
    let ids: Vec<u128> = (1..=11).collect();
    let r = create(&mut store, "AAAAAAAA", "a@example.com", 11, ids, 1);
    assert!(matches!(r.unwrap_err().code, Code::TooManyTickets));
    // Nothing was written.
    assert_eq!(store.tickets_remaining(), 100);
}

#[test]
fn duplicate_ids_are_internal_errors() {
    let mut store = Store::new(100);
    create(&mut store, "AAAAAAAA", "a@example.com", 1, vec![7], 1).unwrap();
    let reused_code = create(&mut store, "AAAAAAAA", "x@example.com", 1, vec![8], 2);
    assert!(matches!(reused_code.unwrap_err().code, Code::InternalError));
    let reused_ticket = create(&mut store, "CCCCCCCC", "x@example.com", 1, vec![7], 3);
    assert!(matches!(reused_ticket.unwrap_err().code, Code::InternalError));
    let doubled = create(&mut store, "DDDDDDDD", "x@example.com", 2, vec![9, 9], 4);
    assert!(matches!(doubled.unwrap_err().code, Code::InternalError));
}

#[test]
fn complete_is_idempotent() {
    let mut store = Store::new(10);
    create(&mut store, "AAAAAAAA", "a@example.com", 1, vec![1], 1).unwrap();
    let first = store.complete_order(&oid("AAAAAAAA"), 50).unwrap();
    assert_eq!(first.completed_at, Some(50));
    let second = store.complete_order(&oid("AAAAAAAA"), 60).unwrap();
    assert_eq!(second.completed_at, Some(50));
    let third = store.get_order(&oid("AAAAAAAA"), None).unwrap();
    assert_eq!(third.completed_at, Some(50));
}

#[test]
fn cancel_after_complete_fails_and_changes_nothing() {
    let mut store = Store::new(10);
    create(&mut store, "AAAAAAAA", "a@example.com", 2, vec![1, 2], 1).unwrap();
    store.complete_order(&oid("AAAAAAAA"), 50).unwrap();
    let r = store.cancel_order(&oid("AAAAAAAA"), 60);
    assert!(matches!(r.unwrap_err().code, Code::OrderCompleted));
    let o = store.get_order(&oid("AAAAAAAA"), None).unwrap();
    assert_eq!(o.completed_at, Some(50));
    assert_eq!(o.canceled_at, None);
    // The completed order still occupies capacity.
    assert_eq!(store.tickets_remaining(), 8);
}

#[test]
fn cancel_is_idempotent() {
    let mut store = Store::new(10);
    create(&mut store, "AAAAAAAA", "a@example.com", 1, vec![1], 1).unwrap();
    let first = store.cancel_order(&oid("AAAAAAAA"), 50).unwrap();
    assert_eq!(first.canceled_at, Some(50));
    let second = store.cancel_order(&oid("AAAAAAAA"), 60).unwrap();
    assert_eq!(second.canceled_at, Some(50));
}

#[test]
fn missing_order_reports_not_found() {
    let mut store = Store::new(10);
    assert!(matches!(
        store.complete_order(&oid("ZZZZZZZZ"), 1).unwrap_err().code,
        Code::OrderNotFound
    ));
    assert!(matches!(
        store.cancel_order(&oid("ZZZZZZZZ"), 1).unwrap_err().code,
        Code::OrderNotFound
    ));
    assert!(matches!(
        store.get_order(&oid("ZZZZZZZZ"), None).unwrap_err().code,
        Code::OrderNotFound
    ));
}

#[test]
fn get_order_checks_claimed_email() {
    let mut store = Store::new(10);
    create(&mut store, "AAAAAAAA", "a@example.com", 1, vec![1], 1).unwrap();
    let own = "a@example.com".to_string();
    let other = "b@example.com".to_string();
    assert!(store.get_order(&oid("AAAAAAAA"), Some(&own)).is_ok());
    let r = store.get_order(&oid("AAAAAAAA"), Some(&other));
    assert!(matches!(r.unwrap_err().code, Code::OrderNotFound));
}

#[test]
fn reconcile_marks_exact_matches_paid() {
    // A row whose message is exactly the order's code and whose amount is
    // exactly its total marks it paid; a wrong message matches nothing.
    let mut store = Store::new(10);
    create(&mut store, "AAAAAAAA", "a@example.com", 2, vec![1, 2], 1).unwrap();
    create(&mut store, "BBBBBBBB", "b@example.com", 1, vec![3], 2).unwrap();

    let report = vec![
        tx("AAAAAAAA", 23000, 2, 1000), // 230.00 == 230
        tx("BBBBBBBX", 11500, 2, 1001), // wrong message: matches nothing
        tx("unrelated text", 5000, 2, 1002),
    ];
    store.reconcile(&report);

    let a = store.get_order(&oid("AAAAAAAA"), None).unwrap();
    assert_eq!(a.paid_at, Some(1000));
    let b = store.get_order(&oid("BBBBBBBB"), None).unwrap();
    assert_eq!(b.paid_at, None);
}

#[test]
fn reconcile_requires_exact_amount() {
    let mut store = Store::new(10);
    create(&mut store, "AAAAAAAA", "a@example.com", 1, vec![1], 1).unwrap();
    // 115.50 is not 115, and neither is 1150.
    store.reconcile(&vec![tx("AAAAAAAA", 11550, 2, 1000)]);
    store.reconcile(&vec![tx("AAAAAAAA", 1150, 0, 1001)]);
    let a = store.get_order(&oid("AAAAAAAA"), None).unwrap();
    assert_eq!(a.paid_at, None);
    // 115.00 is exactly 115.
    store.reconcile(&vec![tx("AAAAAAAA", 11500, 2, 1002)]);
    let a = store.get_order(&oid("AAAAAAAA"), None).unwrap();
    assert_eq!(a.paid_at, Some(1002));
}

#[test]
fn reconcile_replay_is_idempotent() {
    let mut store = Store::new(10);
    create(&mut store, "AAAAAAAA", "a@example.com", 1, vec![1], 1).unwrap();
    create(&mut store, "BBBBBBBB", "b@example.com", 1, vec![2], 2).unwrap();
    let report = vec![tx("AAAAAAAA", 115, 0, 1000), tx("BBBBBBBB", 115, 0, 2000)];
    store.reconcile(&report);
    let a1 = store.get_order(&oid("AAAAAAAA"), None).unwrap().paid_at;
    let b1 = store.get_order(&oid("BBBBBBBB"), None).unwrap().paid_at;
    store.reconcile(&report);
    let a2 = store.get_order(&oid("AAAAAAAA"), None).unwrap().paid_at;
    let b2 = store.get_order(&oid("BBBBBBBB"), None).unwrap().paid_at;
    assert_eq!(a1, a2);
    assert_eq!(b1, b2);
    assert_eq!(a1, Some(1000));
    assert_eq!(b1, Some(2000));
}

#[test]
fn reconcile_last_matching_record_wins() {
    let mut store = Store::new(10);
    create(&mut store, "AAAAAAAA", "a@example.com", 1, vec![1], 1).unwrap();
    let report = vec![tx("AAAAAAAA", 115, 0, 1000), tx("AAAAAAAA", 115, 0, 3000)];
    store.reconcile(&report);
    let a = store.get_order(&oid("AAAAAAAA"), None).unwrap();
    assert_eq!(a.paid_at, Some(3000));
}

#[test]
fn scan_admits_each_ticket_once() {
    let mut store = Store::new(10);
    create(&mut store, "AAAAAAAA", "a@example.com", 3, vec![1, 2, 3], 1).unwrap();
    store.mark_paid(&oid("AAAAAAAA"), 500);

    let first = store.scan_ticket(1, 1000).unwrap();
    assert!(!first.already_scanned);
    assert_eq!(first.remaining_unscanned, 2);
    assert_eq!(first.ticket.scanned_at, Some(1000));

    let second = store.scan_ticket(1, 1001).unwrap();
    assert!(second.already_scanned);
    assert_eq!(second.remaining_unscanned, 2);
    assert_eq!(second.ticket.scanned_at, Some(1000));

    let sibling = store.scan_ticket(2, 1002).unwrap();
    assert!(!sibling.already_scanned);
    assert_eq!(sibling.remaining_unscanned, 1);
}

#[test]
fn scan_of_unpaid_order_is_ticket_not_found() {
    let mut store = Store::new(10);
    create(&mut store, "AAAAAAAA", "a@example.com", 1, vec![1], 1).unwrap();
    let r = store.scan_ticket(1, 1000);
    assert!(matches!(r.unwrap_err().code, Code::TicketNotFound));
    // The failed scan stamped nothing: after payment the scan is fresh.
    store.mark_paid(&oid("AAAAAAAA"), 500);
    let ok = store.scan_ticket(1, 2000).unwrap();
    assert!(!ok.already_scanned);
}

#[test]
fn scan_of_unknown_ticket_is_ticket_not_found() {
    let mut store = Store::new(10);
    let r = store.scan_ticket(42, 1000);
    assert!(matches!(r.unwrap_err().code, Code::TicketNotFound));
}

#[test]
fn place_order_draws_a_well_formed_code() {
    let mut store = Store::new(10);
    let o = store
        .place_order(
            "a@example.com".to_string(),
            "Test Person".to_string(),
            "0700000000".to_string(),
            2,
            77,
        )
        .unwrap();
    let code = o.id.as_str();
    assert_eq!(code.chars().count(), 8);
    for c in code.chars() {
        assert!("CDEFHJKMNPRTVWXY2345689".contains(c));
    }
    assert_eq!(o.amount, 230);
    assert_eq!(store.tickets_remaining(), 8);
}

#[test]
fn order_id_new_uses_the_unambiguous_alphabet() {
    for _ in 0..50 {
        let id = OrderId::new();
        let s = id.as_str();
        assert_eq!(s.chars().count(), 8);
        for c in s.chars() {
            assert!("CDEFHJKMNPRTVWXY2345689".contains(c));
        }
    }
}

#[test]
fn email_sweep_picks_paid_unemailed_orders() {
    let mut store = Store::new(10);
    create(&mut store, "AAAAAAAA", "a@example.com", 1, vec![1], 1).unwrap();
    create(&mut store, "BBBBBBBB", "b@example.com", 1, vec![2], 2).unwrap();
    assert!(store.order_to_email().is_none());

    store.mark_paid(&oid("BBBBBBBB"), 500);
    let next = store.order_to_email().unwrap();
    assert_eq!(next.id.as_str(), "BBBBBBBB");

    assert!(store.mark_emailed(&oid("BBBBBBBB"), 600));
    assert!(store.order_to_email().is_none());
    let b = store.get_order(&oid("BBBBBBBB"), None).unwrap();
    assert_eq!(b.emailed_at, Some(600));
}

#[test]
fn ticket_stats_counts_tickets_of_paid_orders() {
    let mut store = Store::new(10);
    create(&mut store, "AAAAAAAA", "a@example.com", 2, vec![1, 2], 1).unwrap();
    create(&mut store, "BBBBBBBB", "b@example.com", 3, vec![3, 4, 5], 2).unwrap();
    assert_eq!(store.get_ticket_stats(), 0);
    store.mark_paid(&oid("BBBBBBBB"), 500);
    assert_eq!(store.get_ticket_stats(), 3);
}

#[test]
fn list_tickets_is_sorted_by_id() {
    let mut store = Store::new(10);
    create(&mut store, "AAAAAAAA", "a@example.com", 2, vec![9, 4], 1).unwrap();
    create(&mut store, "BBBBBBBB", "b@example.com", 2, vec![7, 1], 2).unwrap();
    let all = store.list_tickets();
    let ids: Vec<u128> = all.iter().map(|t| t.id).collect();
    assert_eq!(ids, vec![1, 4, 7, 9]);
}

#[test]
fn get_tickets_returns_the_orders_tickets() {
    let mut store = Store::new(10);
    create(&mut store, "AAAAAAAA", "a@example.com", 2, vec![1, 2], 1).unwrap();
    create(&mut store, "BBBBBBBB", "b@example.com", 1, vec![3], 2).unwrap();
    let ts = store.get_tickets(&oid("AAAAAAAA"));
    assert_eq!(ts.len(), 2);
    for t in &ts {
        assert_eq!(t.order_id.as_str(), "AAAAAAAA");
        assert_eq!(t.scanned_at, None);
    }
}

#[test]
fn list_orders_is_newest_first_with_sorted_tickets() {
    let mut store = Store::new(10);
    create(&mut store, "AAAAAAAA", "a@example.com", 2, vec![5, 3], 100).unwrap();
    create(&mut store, "BBBBBBBB", "b@example.com", 1, vec![9], 300).unwrap();
    create(&mut store, "CCCCCCCC", "c@example.com", 1, vec![4], 200).unwrap();
    let all = store.list_orders();
    let codes: Vec<&str> = all.iter().map(|d| d.order.id.as_str()).collect();
    assert_eq!(codes, vec!["BBBBBBBB", "CCCCCCCC", "AAAAAAAA"]);
    let a = &all[2];
    let ids: Vec<u128> = a.tickets.iter().map(|t| t.id).collect();
    assert_eq!(ids, vec![3, 5]);
}

#[test]
fn mark_paid_overwrites_unconditionally() {
    let mut store = Store::new(10);
    create(&mut store, "AAAAAAAA", "a@example.com", 1, vec![1], 1).unwrap();
    assert!(store.mark_paid(&oid("AAAAAAAA"), 500));
    assert!(store.mark_paid(&oid("AAAAAAAA"), 700));
    let a = store.get_order(&oid("AAAAAAAA"), None).unwrap();
    assert_eq!(a.paid_at, Some(700));
    assert!(!store.mark_paid(&oid("ZZZZZZZZ"), 900));
}

#[test]
fn privileged_lookups_skip_the_owner_check() {
    let operator = Some(Identity {
        email: "staff@example.com".to_string(),
    });
    let claimed = Some("a@example.com".to_string());
    assert!(Identity::order_lookup_email(&operator, &claimed).is_none());
    assert_eq!(
        Identity::order_lookup_email(&None, &claimed).map(|s| s.as_str()),
        Some("a@example.com")
    );
    assert!(Identity::order_lookup_email(&None, &None).is_none());
}

#[test]
fn response_error_keeps_its_parts() {
    let e = tix_api::error::ResponseError::new(Code::OrderNotFound, "order not found".to_string());
    assert!(matches!(e.code, Code::OrderNotFound));
    assert_eq!(e.message, "order not found");
}
