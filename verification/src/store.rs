use vstd::prelude::*;

use crate::error::{Code, ResponseError};
use crate::order::{opt_time_view, Order, OrderId, OrderModel};
use crate::swish::{amount_eq_int, Transaction, TransactionModel};

verus! {

/// How many items of `s` satisfy `pred`.
pub open spec fn count<A>(s: Seq<A>, pred: spec_fn(A) -> bool) -> int
    decreases s.len(),
{
    if s.len() == 0 {
        0
    } else {
        count(s.drop_last(), pred) + if pred(s.last()) {
            1int
        } else {
            0int
        }
    }
}

pub proof fn lemma_count_bounds<A>(s: Seq<A>, pred: spec_fn(A) -> bool)
    ensures
        0 <= count(s, pred) <= s.len(),
    decreases s.len(),
{
    if s.len() > 0 {
        lemma_count_bounds(s.drop_last(), pred);
    }
}

pub proof fn lemma_count_push<A>(s: Seq<A>, pred: spec_fn(A) -> bool, x: A)
    ensures
        count(s.push(x), pred) == count(s, pred) + if pred(x) {
            1int
        } else {
            0int
        },
{
    assert(s.push(x).drop_last() =~= s);
    assert(s.push(x).last() == x);
}

/// Two counts agree when the predicates agree on every element of the sequence.
pub proof fn lemma_count_congruent<A>(s: Seq<A>, p: spec_fn(A) -> bool, q: spec_fn(A) -> bool)
    requires
        forall|i: int| 0 <= i < s.len() ==> p(#[trigger] s[i]) == q(s[i]),
    ensures
        count(s, p) == count(s, q),
    decreases s.len(),
{
    if s.len() > 0 {
        assert(s.last() == s[s.len() - 1]);
        assert(forall|i: int|
            0 <= i < s.drop_last().len() ==> p(#[trigger] s.drop_last()[i]) == q(s.drop_last()[i]));
        lemma_count_congruent(s.drop_last(), p, q);
    }
}

/// The mathematical value of one admission ticket.
#[verifier::ext_equal]
pub ghost struct TicketModel {
    pub id: int,
    pub order_id: Seq<char>,
    pub scanned_at: Option<int>,
}

/// One admission unit, tied to exactly one order, redeemable once.
#[derive(Debug)]
pub struct Ticket {
    pub id: u128,
    pub order_id: OrderId,
    pub scanned_at: Option<i64>,
}

impl View for Ticket {
    type V = TicketModel;

    open spec fn view(&self) -> TicketModel {
        TicketModel {
            id: self.id as int,
            order_id: self.order_id@,
            scanned_at: opt_time_view(self.scanned_at),
        }
    }
}

/// The mathematical value of the whole store: the fixed sale capacity and the
/// order and ticket books.
#[verifier::ext_equal]
pub ghost struct StoreModel {
    pub capacity: int,
    pub orders: Seq<OrderModel>,
    pub tickets: Seq<TicketModel>,
}

pub open spec fn has_order(s: StoreModel, id: Seq<char>) -> bool {
    exists|i: int| 0 <= i < s.orders.len() && s.orders[i].id == id
}

pub open spec fn order_of(s: StoreModel, id: Seq<char>) -> OrderModel {
    s.orders[choose|i: int| 0 <= i < s.orders.len() && s.orders[i].id == id]
}

pub open spec fn has_ticket(s: StoreModel, id: int) -> bool {
    exists|i: int| 0 <= i < s.tickets.len() && s.tickets[i].id == id
}

pub open spec fn ticket_of(s: StoreModel, id: int) -> TicketModel {
    s.tickets[choose|i: int| 0 <= i < s.tickets.len() && s.tickets[i].id == id]
}

/// A ticket still occupies capacity while some order with its code is not canceled.
pub open spec fn ticket_active(orders: Seq<OrderModel>, t: TicketModel) -> bool {
    exists|i: int|
        0 <= i < orders.len() && orders[i].id == t.order_id && orders[i].canceled_at is None
}

pub open spec fn active_pred(orders: Seq<OrderModel>) -> spec_fn(TicketModel) -> bool {
    |t: TicketModel| ticket_active(orders, t)
}

/// Tickets currently counted against the capacity: those of non-canceled orders.
pub open spec fn sold(s: StoreModel) -> int {
    count(s.tickets, active_pred(s.orders))
}

pub open spec fn sold_prefix(s: StoreModel, n: int) -> int {
    count(s.tickets.take(n), active_pred(s.orders))
}

/// Sellable tickets left, never negative.
pub open spec fn remaining(s: StoreModel) -> int {
    if sold(s) <= s.capacity {
        s.capacity - sold(s)
    } else {
        0
    }
}

/// Well-formedness of the store: codes and ticket ids identify at most one
/// row, tickets belong to existing orders, no order is both completed and
/// canceled, and the sold count never exceeds the capacity.
pub open spec fn inv(s: StoreModel) -> bool {
    &&& forall|i: int, j: int|
        0 <= i < s.orders.len() && 0 <= j < s.orders.len() && #[trigger] s.orders[i].id
            == #[trigger] s.orders[j].id ==> i == j
    &&& forall|i: int, j: int|
        0 <= i < s.tickets.len() && 0 <= j < s.tickets.len() && #[trigger] s.tickets[i].id
            == #[trigger] s.tickets[j].id ==> i == j
    &&& forall|i: int|
        0 <= i < s.tickets.len() ==> has_order(s, (#[trigger] s.tickets[i]).order_id)
    &&& 0 <= s.capacity <= u32::MAX
    &&& sold(s) <= s.capacity
}

/// The durable order and ticket books behind the shop, together with the fixed
/// sale capacity. Every operation on it stands for one store transaction: the
/// serialization that row locks give the real store is modeled by each call
/// owning `&mut self` for its whole duration.
pub struct Store {
    capacity: u32,
    orders: Vec<Order>,
    tickets: Vec<Ticket>,
}

impl View for Store {
    type V = StoreModel;

    closed spec fn view(&self) -> StoreModel {
        StoreModel {
            capacity: self.capacity as int,
            orders: self.orders@.map_values(|o: Order| o@),
            tickets: self.tickets@.map_values(|t: Ticket| t@),
        }
    }
}

/// Changing only payment or terminal timestamps of orders, while keeping every
/// code and cancellation mark, keeps the sold count unchanged.
pub proof fn lemma_sold_same_skeleton(s1: StoreModel, s2: StoreModel)
    requires
        s2.tickets == s1.tickets,
        s2.orders.len() == s1.orders.len(),
        forall|i: int|
            0 <= i < s1.orders.len() ==> (#[trigger] s2.orders[i]).id == s1.orders[i].id
                && s2.orders[i].canceled_at == s1.orders[i].canceled_at,
    ensures
        sold(s2) == sold(s1),
{
    assert forall|k: int| 0 <= k < s1.tickets.len() implies active_pred(s1.orders)(
        #[trigger] s1.tickets[k],
    ) == active_pred(s2.orders)(s1.tickets[k]) by {
        let t = s1.tickets[k];
        if ticket_active(s1.orders, t) {
            let i = choose|i: int|
                0 <= i < s1.orders.len() && s1.orders[i].id == t.order_id && s1.orders[i].canceled_at is None;
            assert(s2.orders[i].id == t.order_id && s2.orders[i].canceled_at is None);
        }
        if ticket_active(s2.orders, t) {
            let i = choose|i: int|
                0 <= i < s2.orders.len() && s2.orders[i].id == t.order_id && s2.orders[i].canceled_at is None;
            assert(s1.orders[i].id == t.order_id && s1.orders[i].canceled_at is None);
        }
    }
    lemma_count_congruent(s1.tickets, active_pred(s1.orders), active_pred(s2.orders));
}

/// An edit of the order books that keeps every code, every cancellation mark
/// and the whole ticket book preserves the invariant.
pub proof fn lemma_inv_after_order_edit(s1: StoreModel, s2: StoreModel)
    requires
        inv(s1),
        s2.capacity == s1.capacity,
        s2.tickets == s1.tickets,
        s2.orders.len() == s1.orders.len(),
        forall|i: int| 0 <= i < s1.orders.len() ==> (#[trigger] s2.orders[i]).id == s1.orders[i].id,
        forall|i: int|
            0 <= i < s1.orders.len() ==> (#[trigger] s2.orders[i]).canceled_at
                == s1.orders[i].canceled_at,
    ensures
        inv(s2),
{
    assert forall|k: int| 0 <= k < s2.tickets.len() implies has_order(
        s2,
        (#[trigger] s2.tickets[k]).order_id,
    ) by {
        let j = choose|j: int|
            0 <= j < s1.orders.len() && s1.orders[j].id == s1.tickets[k].order_id;
        assert(s2.orders[j].id == s2.tickets[k].order_id);
    }
    lemma_sold_same_skeleton(s1, s2);
}

/// What `mark_paid` does to a single order row.
pub open spec fn mark_paid_edit(o: OrderModel, id: Seq<char>, t: int) -> OrderModel {
    if o.id == id {
        OrderModel { paid_at: Some(t), ..o }
    } else {
        o
    }
}

/// Marking an order paid overwrites `paid_at` of every row with that code and
/// touches nothing else.
pub open spec fn spec_mark_paid(s: StoreModel, id: Seq<char>, t: int) -> StoreModel {
    StoreModel { orders: s.orders.map_values(|o: OrderModel| mark_paid_edit(o, id, t)), ..s }
}

/// A count never grows when the predicate only loses witnesses.
pub proof fn lemma_count_implied<A>(s: Seq<A>, p: spec_fn(A) -> bool, q: spec_fn(A) -> bool)
    requires
        forall|i: int| 0 <= i < s.len() && p(#[trigger] s[i]) ==> q(s[i]),
    ensures
        count(s, p) <= count(s, q),
    decreases s.len(),
{
    if s.len() > 0 {
        assert(s.last() == s[s.len() - 1]);
        assert(forall|i: int|
            0 <= i < s.drop_last().len() && p(#[trigger] s.drop_last()[i]) ==> q(s.drop_last()[i]));
        lemma_count_implied(s.drop_last(), p, q);
    }
}

/// What `complete_order` does to a single order row: completion is idempotent
/// and does not look at payment or cancellation.
pub open spec fn complete_edit(o: OrderModel, id: Seq<char>, now: int) -> OrderModel {
    if o.id == id && o.completed_at is None {
        OrderModel { completed_at: Some(now), ..o }
    } else {
        o
    }
}

pub open spec fn spec_complete(s: StoreModel, id: Seq<char>, now: int) -> StoreModel {
    StoreModel { orders: s.orders.map_values(|o: OrderModel| complete_edit(o, id, now)), ..s }
}

/// What `cancel_order` does to a single order row: idempotent, refused once
/// completed, and otherwise the cancellation timestamp is set.
pub open spec fn cancel_edit(o: OrderModel, id: Seq<char>, now: int) -> OrderModel {
    if o.id == id && o.canceled_at is None && o.completed_at is None {
        OrderModel { canceled_at: Some(now), ..o }
    } else {
        o
    }
}

pub open spec fn spec_cancel(s: StoreModel, id: Seq<char>, now: int) -> StoreModel {
    StoreModel { orders: s.orders.map_values(|o: OrderModel| cancel_edit(o, id, now)), ..s }
}

/// Canceling can only lower the sold count, so it preserves the invariant.
pub proof fn lemma_inv_after_cancel(s1: StoreModel, s2: StoreModel)
    requires
        inv(s1),
        s2.capacity == s1.capacity,
        s2.tickets == s1.tickets,
        s2.orders.len() == s1.orders.len(),
        forall|i: int| 0 <= i < s1.orders.len() ==> (#[trigger] s2.orders[i]).id == s1.orders[i].id,
        forall|i: int|
            0 <= i < s1.orders.len() && (#[trigger] s2.orders[i]).canceled_at is None
                ==> s1.orders[i].canceled_at is None,
    ensures
        inv(s2),
        sold(s2) <= sold(s1),
{
    assert forall|k: int| 0 <= k < s2.tickets.len() implies has_order(
        s2,
        (#[trigger] s2.tickets[k]).order_id,
    ) by {
        let j = choose|j: int|
            0 <= j < s1.orders.len() && s1.orders[j].id == s1.tickets[k].order_id;
        assert(s2.orders[j].id == s2.tickets[k].order_id);
    }
    assert forall|k: int|
        0 <= k < s1.tickets.len() && active_pred(s2.orders)(
            #[trigger] s1.tickets[k],
        ) implies active_pred(s1.orders)(s1.tickets[k]) by {
        let t = s1.tickets[k];
        let j = choose|j: int|
            0 <= j < s2.orders.len() && s2.orders[j].id == t.order_id && s2.orders[j].canceled_at is None;
        assert(s1.orders[j].id == t.order_id && s1.orders[j].canceled_at is None);
    }
    lemma_count_implied(s1.tickets, active_pred(s2.orders), active_pred(s1.orders));
}

pub proof fn lemma_count_concat<A>(a: Seq<A>, b: Seq<A>, p: spec_fn(A) -> bool)
    ensures
        count(a + b, p) == count(a, p) + count(b, p),
    decreases b.len(),
{
    if b.len() == 0 {
        assert(a + b =~= a);
    } else {
        assert((a + b).drop_last() =~= a + b.drop_last());
        assert((a + b).last() == b.last());
        lemma_count_concat(a, b.drop_last(), p);
    }
}

pub proof fn lemma_count_all<A>(s: Seq<A>, p: spec_fn(A) -> bool)
    requires
        forall|i: int| 0 <= i < s.len() ==> p(#[trigger] s[i]),
    ensures
        count(s, p) == s.len(),
    decreases s.len(),
{
    if s.len() > 0 {
        assert(s.last() == s[s.len() - 1]);
        lemma_count_all(s.drop_last(), p);
    }
}

/// Price of one ticket, in whole currency units.
pub const TICKET_PRICE: i32 = 115;

/// The most tickets a single order may ask for.
pub const MAX_TICKETS_PER_ORDER: usize = 10;

/// A single order may neither exceed the per-order cap nor what remains.
pub open spec fn capacity_ok(s: StoreModel, requested: int) -> bool {
    requested <= MAX_TICKETS_PER_ORDER && requested <= remaining(s)
}

/// The row that a fresh order starts from.
pub open spec fn new_order_model(
    id: Seq<char>,
    email: Seq<char>,
    name: Seq<char>,
    phone: Seq<char>,
    requested: int,
    now: int,
) -> OrderModel {
    OrderModel {
        id,
        email,
        name,
        phone,
        amount: requested * (TICKET_PRICE as int),
        created_at: now,
        paid_at: None,
        completed_at: None,
        canceled_at: None,
        emailed_at: None,
    }
}

pub open spec fn new_ticket_models(ids: Seq<int>, order_id: Seq<char>) -> Seq<TicketModel> {
    ids.map_values(|tid: int| TicketModel { id: tid, order_id, scanned_at: None })
}

/// Creating an order appends its row and one ticket row per requested seat,
/// in one unit of work.
pub open spec fn spec_create(s: StoreModel, o: OrderModel, ticket_ids: Seq<int>) -> StoreModel {
    StoreModel {
        orders: s.orders.push(o),
        tickets: s.tickets + new_ticket_models(ticket_ids, o.id),
        ..s
    }
}

/// The order code and every ticket id are new to the store, and the ticket
/// ids do not repeat.
pub open spec fn ids_fresh(s: StoreModel, id: Seq<char>, ticket_ids: Seq<int>) -> bool {
    &&& !has_order(s, id)
    &&& forall|j: int| 0 <= j < ticket_ids.len() ==> !has_ticket(s, #[trigger] ticket_ids[j])
    &&& forall|j: int, k: int|
        0 <= j < ticket_ids.len() && 0 <= k < ticket_ids.len() && #[trigger] ticket_ids[j]
            == #[trigger] ticket_ids[k] ==> j == k
}

/// Creating an order with fresh ids inside the capacity keeps the books
/// well-formed, and the sold count grows by exactly the ticket count.
pub proof fn lemma_inv_after_create(s1: StoreModel, o: OrderModel, ticket_ids: Seq<int>)
    requires
        inv(s1),
        capacity_ok(s1, ticket_ids.len() as int),
        ids_fresh(s1, o.id, ticket_ids),
        o.canceled_at is None,
    ensures
        inv(spec_create(s1, o, ticket_ids)),
        sold(spec_create(s1, o, ticket_ids)) == sold(s1) + ticket_ids.len(),
{
    let s2 = spec_create(s1, o, ticket_ids);
    let fresh = new_ticket_models(ticket_ids, o.id);
    // Old tickets never carry the new code: their orders already exist.
    assert forall|k: int| 0 <= k < s1.tickets.len() implies (#[trigger] s1.tickets[k]).order_id
        != o.id by {
        if s1.tickets[k].order_id == o.id {
            assert(has_order(s1, o.id));
        }
    }
    // Ticket ids stay unique.
    assert forall|i: int, j: int|
        0 <= i < s2.tickets.len() && 0 <= j < s2.tickets.len() && #[trigger] s2.tickets[i].id
            == #[trigger] s2.tickets[j].id implies i == j by {
        let n = s1.tickets.len() as int;
        if i < n && j >= n {
            assert(has_ticket(s1, ticket_ids[j - n]));
        }
        if i >= n && j < n {
            assert(has_ticket(s1, ticket_ids[i - n]));
        }
    }
    // Every ticket's order exists in the extended book.
    assert forall|k: int| 0 <= k < s2.tickets.len() implies has_order(
        s2,
        (#[trigger] s2.tickets[k]).order_id,
    ) by {
        let n = s1.tickets.len() as int;
        if k < n {
            let j = choose|j: int|
                0 <= j < s1.orders.len() && s1.orders[j].id == s1.tickets[k].order_id;
            assert(s2.orders[j].id == s2.tickets[k].order_id);
        } else {
            assert(s2.orders[s1.orders.len() as int].id == o.id);
        }
    }
    // An old ticket is active in the new book exactly when it was before.
    assert forall|k: int| 0 <= k < s1.tickets.len() implies active_pred(s2.orders)(
        #[trigger] s1.tickets[k],
    ) == active_pred(s1.orders)(s1.tickets[k]) by {
        let t = s1.tickets[k];
        if ticket_active(s1.orders, t) {
            let j = choose|j: int|
                0 <= j < s1.orders.len() && s1.orders[j].id == t.order_id && s1.orders[j].canceled_at is None;
            assert(s2.orders[j].id == t.order_id && s2.orders[j].canceled_at is None);
        }
        if ticket_active(s2.orders, t) {
            let j = choose|j: int|
                0 <= j < s2.orders.len() && s2.orders[j].id == t.order_id && s2.orders[j].canceled_at is None;
            assert(j < s1.orders.len() as int) by {
                assert(t.order_id != o.id);
            }
            assert(s1.orders[j].id == t.order_id && s1.orders[j].canceled_at is None);
        }
    }
    lemma_count_concat(s1.tickets, fresh, active_pred(s2.orders));
    lemma_count_congruent(s1.tickets, active_pred(s2.orders), active_pred(s1.orders));
    assert forall|k: int| 0 <= k < fresh.len() implies active_pred(s2.orders)(
        #[trigger] fresh[k],
    ) by {
        assert(fresh[k].order_id == o.id);
        assert(s2.orders[s1.orders.len() as int].id == o.id && s2.orders[s1.orders.len() as int].canceled_at is None);
    }
    lemma_count_all(fresh, active_pred(s2.orders));
    assert(sold(s2) == sold(s1) + ticket_ids.len());
    // Order codes stay unique: the new one is fresh.
    assert forall|i: int, j: int|
        0 <= i < s2.orders.len() && 0 <= j < s2.orders.len() && #[trigger] s2.orders[i].id
            == #[trigger] s2.orders[j].id implies i == j by {
        let n = s1.orders.len() as int;
        if i < n && j == n {
            assert(has_order(s1, o.id));
        }
        if i == n && j < n {
            assert(has_order(s1, o.id));
        }
    }
}

/// Counts are stable under a pointwise change that the predicate cannot see.
pub proof fn lemma_count_pointwise<A>(s1: Seq<A>, s2: Seq<A>, p: spec_fn(A) -> bool)
    requires
        s2.len() == s1.len(),
        forall|i: int| 0 <= i < s1.len() ==> p(#[trigger] s2[i]) == p(#[trigger] s1[i]),
    ensures
        count(s2, p) == count(s1, p),
    decreases s1.len(),
{
    if s1.len() > 0 {
        lemma_count_pointwise(s1.drop_last(), s2.drop_last(), p);
    }
}

/// What `scan_ticket` does to a single ticket row: the first scan stamps it,
/// a re-scan leaves it as it was.
pub open spec fn scan_edit(t: TicketModel, tid: int, now: int) -> TicketModel {
    if t.id == tid && t.scanned_at is None {
        TicketModel { scanned_at: Some(now), ..t }
    } else {
        t
    }
}

/// Scanning stamps the ticket only when it exists and its order is paid.
pub open spec fn spec_scan(s: StoreModel, tid: int, now: int) -> StoreModel {
    if has_ticket(s, tid) && order_of(s, ticket_of(s, tid).order_id).paid_at is Some {
        StoreModel { tickets: s.tickets.map_values(|t: TicketModel| scan_edit(t, tid, now)), ..s }
    } else {
        s
    }
}

pub open spec fn sibling_pred(order_id: Seq<char>, tid: int) -> spec_fn(TicketModel) -> bool {
    |t: TicketModel| t.order_id == order_id && t.scanned_at is None && t.id != tid
}

/// How many sibling tickets of `tid`'s order, other than `tid` itself, are
/// still unscanned.
pub open spec fn sibling_unscanned(s: StoreModel, tid: int) -> int {
    count(s.tickets, sibling_pred(ticket_of(s, tid).order_id, tid))
}

/// Whether an order is waiting for its tickets to be emailed.
pub open spec fn needs_email(o: OrderModel) -> bool {
    o.paid_at is Some && o.emailed_at is None
}

/// What `mark_emailed` does to a single order row.
pub open spec fn email_edit(o: OrderModel, id: Seq<char>, t: int) -> OrderModel {
    if o.id == id {
        OrderModel { emailed_at: Some(t), ..o }
    } else {
        o
    }
}

pub open spec fn spec_mark_emailed(s: StoreModel, id: Seq<char>, t: int) -> StoreModel {
    StoreModel { orders: s.orders.map_values(|o: OrderModel| email_edit(o, id, t)), ..s }
}

/// What one scan reports back: the ticket and order as stored, whether the
/// ticket had been scanned before, and how many of its siblings are still
/// unscanned.
#[derive(Debug)]
pub struct Scan {
    pub ticket: Ticket,
    pub order: Order,
    pub already_scanned: bool,
    pub remaining_unscanned: usize,
}

impl Ticket {
    /// A fresh copy of this row, equal in value.
    pub fn duplicate(&self) -> (r: Ticket)
        ensures
            r@ == self@,
    {
        Ticket {
            id: self.id,
            order_id: self.order_id.duplicate(),
            scanned_at: self.scanned_at,
        }
    }
}

/// A payment record pays for an order exactly when its free-text message
/// reads as the order's code and its amount equals the order's total, bit
/// for bit.
pub open spec fn tx_matches(o: OrderModel, t: TransactionModel) -> bool {
    o.id == t.message && amount_eq_int(t.amount, o.amount)
}

/// The timestamp of the last record in `txs` that pays for `o`, if any.
pub open spec fn last_match(o: OrderModel, txs: Seq<TransactionModel>) -> Option<int>
    decreases txs.len(),
{
    if txs.len() == 0 {
        None
    } else if tx_matches(o, txs.last()) {
        Some(txs.last().time)
    } else {
        last_match(o, txs.drop_last())
    }
}

/// What reconciling a whole report does to one order row: its `paid_at`
/// becomes the timestamp of the last record that pays for it, and nothing
/// else moves.
pub open spec fn reconcile_order(o: OrderModel, txs: Seq<TransactionModel>) -> OrderModel {
    match last_match(o, txs) {
        Some(t) => OrderModel { paid_at: Some(t), ..o },
        None => o,
    }
}

pub open spec fn spec_reconcile(s: StoreModel, txs: Seq<TransactionModel>) -> StoreModel {
    StoreModel { orders: s.orders.map_values(|o: OrderModel| reconcile_order(o, txs)), ..s }
}

/// What one record does to one order row.
pub open spec fn apply_tx_edit(o: OrderModel, t: TransactionModel) -> OrderModel {
    if tx_matches(o, t) {
        OrderModel { paid_at: Some(t.time), ..o }
    } else {
        o
    }
}

pub open spec fn spec_apply_tx(s: StoreModel, t: TransactionModel) -> StoreModel {
    StoreModel { orders: s.orders.map_values(|o: OrderModel| apply_tx_edit(o, t)), ..s }
}

/// Records are applied one at a time, in order: a reconciled store hit with
/// one more record is the store reconciled with the longer report.
pub proof fn lemma_reconcile_push(s: StoreModel, txs: Seq<TransactionModel>, t: TransactionModel)
    ensures
        spec_reconcile(s, txs.push(t)) == spec_apply_tx(spec_reconcile(s, txs), t),
{
    assert(txs.push(t).drop_last() =~= txs);
    assert(txs.push(t).last() == t);
    let lhs = spec_reconcile(s, txs.push(t));
    let rhs = spec_apply_tx(spec_reconcile(s, txs), t);
    assert forall|j: int| 0 <= j < s.orders.len() implies lhs.orders[j] == rhs.orders[j] by {
        let o = s.orders[j];
        let o1 = reconcile_order(o, txs);
        assert(o1.id == o.id && o1.amount == o.amount);
        if tx_matches(o, t) {
            assert(reconcile_order(o, txs.push(t)) =~= apply_tx_edit(o1, t));
        } else {
            assert(reconcile_order(o, txs.push(t)) == o1);
            assert(apply_tx_edit(o1, t) == o1);
        }
    }
    assert(lhs.orders =~= rhs.orders);
    assert(lhs =~= rhs);
}

/// Why an order request is refused outright.
#[derive(Debug, Clone, Copy, PartialEq, Eq, Structural)]
pub enum CreateOrderError {
    /// The request asks for more tickets than the per-order cap or than
    /// remain sellable.
    TooManyTickets,
}

impl CreateOrderError {
    /// The client-facing error this refusal reports as.
    pub fn response(self) -> (r: ResponseError)
        ensures
            self is TooManyTickets ==> r.code == Code::TooManyTickets && r.message@
                == "too many tickets requested"@,
    {
        match self {
            CreateOrderError::TooManyTickets => ResponseError::new(
                Code::TooManyTickets,
                "too many tickets requested".to_owned(),
            ),
        }
    }
}

/// The tickets belonging to the order whose code is `id`, in book order.
pub open spec fn tickets_of(s: StoreModel, id: Seq<char>) -> Seq<TicketModel> {
    s.tickets.filter(|t: TicketModel| t.order_id == id)
}

/// Whether some ticket of an order whose code is `o.id` exists: only such
/// orders appear in the detailed listing, which walks the ticket book.
pub open spec fn order_listed(s: StoreModel, o: OrderModel) -> bool {
    exists|i: int| 0 <= i < s.tickets.len() && s.tickets[i].order_id == o.id
}

pub open spec fn listed_pred(s: StoreModel) -> spec_fn(OrderModel) -> bool {
    |o: OrderModel| order_listed(s, o)
}

/// A ticket of a paid order, for the admission statistics.
pub open spec fn ticket_paid(orders: Seq<OrderModel>, t: TicketModel) -> bool {
    exists|i: int| 0 <= i < orders.len() && orders[i].id == t.order_id && orders[i].paid_at is Some
}

pub open spec fn paid_pred(orders: Seq<OrderModel>) -> spec_fn(TicketModel) -> bool {
    |t: TicketModel| ticket_paid(orders, t)
}

pub open spec fn tickets_sorted_by_id(ts: Seq<TicketModel>) -> bool {
    forall|i: int, j: int| 0 <= i < j < ts.len() ==> ts[i].id <= ts[j].id
}

/// Inserting anywhere adds exactly one copy to the multiset of a sequence.
pub proof fn lemma_insert_to_multiset<A>(s: Seq<A>, i: int, x: A)
    requires
        0 <= i <= s.len(),
    ensures
        s.insert(i, x).to_multiset() =~= s.to_multiset().insert(x),
{
    broadcast use vstd::seq_lib::group_to_multiset_ensures;

    let t = s.insert(i, x);
    assert(t.remove(i) =~= s);
    assert(t[i] == x);
    assert(t.remove(i).to_multiset() =~= t.to_multiset().remove(t[i]));
    assert(t.contains(x)) by {
        assert(t[i] == x);
    }
    assert(t.to_multiset().count(x) > 0);
    assert forall|a: A| t.to_multiset().count(a) == s.to_multiset().insert(x).count(a) by {
        if a == x {
            assert(t.to_multiset().remove(x).count(x) == s.to_multiset().count(x));
        } else {
            assert(t.to_multiset().remove(x).count(a) == s.to_multiset().count(a));
        }
    }
}

impl Store {
    /// An empty store selling at most `capacity` tickets.
    pub fn new(capacity: u32) -> (r: Self)
        ensures
            r@.capacity == capacity,
            r@.orders =~= Seq::<OrderModel>::empty(),
            r@.tickets =~= Seq::<TicketModel>::empty(),
            inv(r@),
    {
        let r = Store { capacity, orders: Vec::new(), tickets: Vec::new() };
        proof {
            assert(r@.orders =~= Seq::<OrderModel>::empty());
            assert(r@.tickets =~= Seq::<TicketModel>::empty());
        }
        r
    }

    /// Index of the order whose code is `id`, if one exists.
    fn find_order(&self, id: &OrderId) -> (r: Option<usize>)
        ensures
            match r {
                Some(i) => i < self@.orders.len() && self@.orders[i as int].id == id@,
                None => !has_order(self@, id@),
            },
    {
        let mut i: usize = 0;
        while i < self.orders.len()
            invariant
                i <= self@.orders.len(),
                self@.orders.len() == self.orders@.len(),
                forall|j: int| 0 <= j < i ==> (#[trigger] self@.orders[j]).id != id@,
            decreases self@.orders.len() - i,
        {
            if self.orders[i].id.eq(id) {
                return Some(i);
            }
            i = i + 1;
        }
        None
    }

    /// Index of the ticket whose id is `id`, if one exists.
    fn find_ticket(&self, id: u128) -> (r: Option<usize>)
        ensures
            match r {
                Some(i) => i < self@.tickets.len() && self@.tickets[i as int].id == id as int,
                None => !has_ticket(self@, id as int),
            },
    {
        let mut i: usize = 0;
        while i < self.tickets.len()
            invariant
                i <= self@.tickets.len(),
                self@.tickets.len() == self.tickets@.len(),
                forall|j: int| 0 <= j < i ==> (#[trigger] self@.tickets[j]).id != id as int,
            decreases self@.tickets.len() - i,
        {
            if self.tickets[i].id == id {
                return Some(i);
            }
            i = i + 1;
        }
        None
    }

    /// Whether some order with this code is not canceled.
    fn order_is_active(&self, id: &OrderId) -> (r: bool)
        requires
            inv(self@),
        ensures
            r == ticket_active(
                self@.orders,
                (TicketModel { id: 0, order_id: id@, scanned_at: None }),
            ),
    {
        let ghost t = TicketModel { id: 0, order_id: id@, scanned_at: None };
        match self.find_order(id) {
            Some(i) => {
                let active = self.orders[i].canceled_at.is_none();
                proof {
                    if active {
                        assert(ticket_active(self@.orders, t)) by {
                            assert(self@.orders[i as int].id == t.order_id
                                && self@.orders[i as int].canceled_at is None);
                        }
                    } else {
                        if ticket_active(self@.orders, t) {
                            let j = choose|j: int|
                                0 <= j < self@.orders.len() && self@.orders[j].id == t.order_id
                                    && self@.orders[j].canceled_at is None;
                            assert(j == i as int);
                        }
                    }
                }
                active
            },
            None => {
                proof {
                    if ticket_active(self@.orders, t) {
                        let j = choose|j: int|
                            0 <= j < self@.orders.len() && self@.orders[j].id == t.order_id
                                && self@.orders[j].canceled_at is None;
                        assert(has_order(self@, id@));
                    }
                }
                false
            },
        }
    }

    /// Overwrite `paid_at` of the order whose code is `id` (reconciliation may
    /// legitimately replay, so the write is unconditional).
    pub fn mark_paid(&mut self, id: &OrderId, paid_at: i64) -> (r: bool)
        requires
            inv(old(self)@),
        ensures
            inv(final(self)@),
            final(self)@ == spec_mark_paid(old(self)@, id@, paid_at as int),
            r == has_order(old(self)@, id@),
    {
        let ghost s1 = self@;
        match self.find_order(id) {
            None => {
                proof {
                    assert forall|j: int| 0 <= j < s1.orders.len() implies mark_paid_edit(
                        s1.orders[j],
                        id@,
                        paid_at as int,
                    ) == s1.orders[j] by {
                        assert(s1.orders[j].id != id@);
                    }
                    assert(self@ =~= spec_mark_paid(s1, id@, paid_at as int)) by {
                        assert(self@.orders =~= spec_mark_paid(s1, id@, paid_at as int).orders);
                    }
                }
                false
            },
            Some(i) => {
                self.orders[i].paid_at = Some(paid_at);
                proof {
                    let s2 = self@;
                    assert(s2.orders =~= spec_mark_paid(s1, id@, paid_at as int).orders) by {
                        assert forall|j: int| 0 <= j < s1.orders.len() implies s2.orders[j]
                            == mark_paid_edit(s1.orders[j], id@, paid_at as int) by {
                            if j != i as int {
                                assert(s1.orders[j].id != id@);
                            }
                        }
                    }
                    assert(s2 =~= spec_mark_paid(s1, id@, paid_at as int));
                    lemma_inv_after_order_edit(s1, s2);
                }
                true
            },
        }
    }

    /// The capacity left for sale: the fixed capacity minus every ticket of a
    /// non-canceled order. Recomputed from the books on every call, never cached.
    pub fn tickets_remaining(&self) -> (r: u32)
        requires
            inv(self@),
        ensures
            r == remaining(self@),
    {
        let mut c: usize = 0;
        let mut i: usize = 0;
        proof {
            assert(self@.tickets.take(0) =~= Seq::<TicketModel>::empty());
        }
        while i < self.tickets.len()
            invariant
                inv(self@),
                i <= self@.tickets.len(),
                self@.tickets.len() == self.tickets@.len(),
                c == sold_prefix(self@, i as int),
                0 <= c <= i,
            decreases self@.tickets.len() - i,
        {
            proof {
                lemma_count_bounds(self@.tickets.take(i as int), active_pred(self@.orders));
            }
            let active = self.order_is_active(&self.tickets[i].order_id);
            proof {
                assert(self@.tickets.take(i + 1) =~= self@.tickets.take(i as int).push(
                    self@.tickets[i as int],
                ));
                lemma_count_push(
                    self@.tickets.take(i as int),
                    active_pred(self@.orders),
                    self@.tickets[i as int],
                );
                assert(active_pred(self@.orders)(self@.tickets[i as int]) == ticket_active(
                    self@.orders,
                    (TicketModel {
                        id: 0,
                        order_id: self@.tickets[i as int].order_id,
                        scanned_at: None,
                    }),
                ));
            }
            if active {
                c = c + 1;
            }
            i = i + 1;
        }
        proof {
            assert(self@.tickets.take(self@.tickets.len() as int) =~= self@.tickets);
            assert(c == sold(self@));
        }
        let sold_now = c;
        if sold_now as u64 <= self.capacity as u64 {
            self.capacity - (sold_now as u32)
        } else {
            0
        }
    }

    /// Complete the order whose code is `id`: an operational action that does
    /// not look at payment. Completing an already completed order returns it
    /// unchanged.
    pub fn complete_order(&mut self, id: &OrderId, now: i64) -> (r: Result<Order, ResponseError>)
        requires
            inv(old(self)@),
        ensures
            inv(final(self)@),
            final(self)@ == spec_complete(old(self)@, id@, now as int),
            r is Ok <==> has_order(old(self)@, id@),
            r is Err ==> r->Err_0.code == Code::OrderNotFound && final(self)@ == old(self)@,
            r is Ok ==> has_order(final(self)@, id@) && r->Ok_0@ == order_of(final(self)@, id@)
                && r->Ok_0@ == complete_edit(order_of(old(self)@, id@), id@, now as int),
    {
        let ghost s1 = self@;
        match self.find_order(id) {
            None => {
                proof {
                    assert(self@.orders =~= spec_complete(s1, id@, now as int).orders) by {
                        assert forall|j: int| 0 <= j < s1.orders.len() implies complete_edit(
                            s1.orders[j],
                            id@,
                            now as int,
                        ) == s1.orders[j] by {
                            assert(s1.orders[j].id != id@);
                        }
                    }
                    assert(self@ =~= spec_complete(s1, id@, now as int));
                }
                Err(ResponseError::new(Code::OrderNotFound, "order not found".to_owned()))
            },
            Some(i) => {
                if self.orders[i].completed_at.is_none() {
                    self.orders[i].completed_at = Some(now);
                }
                let o = self.orders[i].duplicate();
                proof {
                    let s2 = self@;
                    assert(s2.orders =~= spec_complete(s1, id@, now as int).orders) by {
                        assert forall|j: int| 0 <= j < s1.orders.len() implies s2.orders[j]
                            == complete_edit(s1.orders[j], id@, now as int) by {
                            if j != i as int {
                                assert(s1.orders[j].id != id@);
                            }
                        }
                    }
                    assert(s2 =~= spec_complete(s1, id@, now as int));
                    lemma_inv_after_order_edit(s1, s2);
                    assert(order_of(s1, id@) == s1.orders[i as int]) by {
                        let j = choose|j: int|
                            0 <= j < s1.orders.len() && s1.orders[j].id == id@;
                        assert(j == i as int);
                    }
                    assert(order_of(s2, id@) == s2.orders[i as int]) by {
                        let j = choose|j: int|
                            0 <= j < s2.orders.len() && s2.orders[j].id == id@;
                        assert(s1.orders[j].id == id@);
                        assert(j == i as int);
                    }
                }
                Ok(o)
            },
        }
    }

    /// Cancel the order whose code is `id`, freeing its tickets' capacity at
    /// once. Canceling an already canceled order returns it unchanged;
    /// canceling a completed order is refused and changes nothing.
    pub fn cancel_order(&mut self, id: &OrderId, now: i64) -> (r: Result<Order, ResponseError>)
        requires
            inv(old(self)@),
        ensures
            inv(final(self)@),
            final(self)@ == spec_cancel(old(self)@, id@, now as int),
            sold(final(self)@) <= sold(old(self)@),
            !has_order(old(self)@, id@) ==> r is Err && r->Err_0.code == Code::OrderNotFound
                && final(self)@ == old(self)@,
            has_order(old(self)@, id@) ==> ({
                let o = order_of(old(self)@, id@);
                if o.canceled_at is Some {
                    r is Ok && r->Ok_0@ == o && final(self)@ == old(self)@
                } else if o.completed_at is Some {
                    r is Err && r->Err_0.code == Code::OrderCompleted && final(self)@ == old(self)@
                } else {
                    r is Ok && r->Ok_0@ == (OrderModel { canceled_at: Some(now as int), ..o })
                }
            }),
    {
        let ghost s1 = self@;
        match self.find_order(id) {
            None => {
                proof {
                    assert(self@.orders =~= spec_cancel(s1, id@, now as int).orders) by {
                        assert forall|j: int| 0 <= j < s1.orders.len() implies cancel_edit(
                            s1.orders[j],
                            id@,
                            now as int,
                        ) == s1.orders[j] by {
                            assert(s1.orders[j].id != id@);
                        }
                    }
                    assert(self@ =~= spec_cancel(s1, id@, now as int));
                }
                Err(ResponseError::new(Code::OrderNotFound, "order not found".to_owned()))
            },
            Some(i) => {
                proof {
                    assert(order_of(s1, id@) == s1.orders[i as int]) by {
                        let j = choose|j: int|
                            0 <= j < s1.orders.len() && s1.orders[j].id == id@;
                        assert(j == i as int);
                    }
                }
                if self.orders[i].canceled_at.is_some() {
                    let o = self.orders[i].duplicate();
                    proof {
                        assert(self@.orders =~= spec_cancel(s1, id@, now as int).orders) by {
                            assert forall|j: int| 0 <= j < s1.orders.len() implies cancel_edit(
                                s1.orders[j],
                                id@,
                                now as int,
                            ) == s1.orders[j] by {
                                if j != i as int {
                                    assert(s1.orders[j].id != id@);
                                }
                            }
                        }
                        assert(self@ =~= spec_cancel(s1, id@, now as int));
                    }
                    Ok(o)
                } else if self.orders[i].completed_at.is_some() {
                    proof {
                        assert(self@.orders =~= spec_cancel(s1, id@, now as int).orders) by {
                            assert forall|j: int| 0 <= j < s1.orders.len() implies cancel_edit(
                                s1.orders[j],
                                id@,
                                now as int,
                            ) == s1.orders[j] by {
                                if j != i as int {
                                    assert(s1.orders[j].id != id@);
                                }
                            }
                        }
                        assert(self@ =~= spec_cancel(s1, id@, now as int));
                    }
                    Err(ResponseError::new(Code::OrderCompleted, "order completed".to_owned()))
                } else {
                    self.orders[i].canceled_at = Some(now);
                    let o = self.orders[i].duplicate();
                    proof {
                        let s2 = self@;
                        assert(s2.orders =~= spec_cancel(s1, id@, now as int).orders) by {
                            assert forall|j: int| 0 <= j < s1.orders.len() implies s2.orders[j]
                                == cancel_edit(s1.orders[j], id@, now as int) by {
                                if j != i as int {
                                    assert(s1.orders[j].id != id@);
                                }
                            }
                        }
                        assert(s2 =~= spec_cancel(s1, id@, now as int));
                        lemma_inv_after_cancel(s1, s2);
                    }
                    Ok(o)
                }
            },
        }
    }

    /// Fetch the order whose code is `id`. An unprivileged caller passes the
    /// email it claims the order was placed under; a mismatch is reported as
    /// `OrderNotFound`, indistinguishable from a missing order.
    pub fn get_order(&self, id: &OrderId, caller_email: Option<&String>) -> (r: Result<
        Order,
        ResponseError,
    >)
        requires
            inv(self@),
        ensures
            ({
                let visible = has_order(self@, id@) && (match caller_email {
                    Some(e) => order_of(self@, id@).email == e@,
                    None => true,
                });
                &&& visible ==> r is Ok && r->Ok_0@ == order_of(self@, id@)
                &&& !visible ==> r is Err && r->Err_0.code == Code::OrderNotFound
            }),
    {
        match self.find_order(id) {
            None => Err(ResponseError::new(Code::OrderNotFound, "order not found".to_owned())),
            Some(i) => {
                proof {
                    assert(order_of(self@, id@) == self@.orders[i as int]) by {
                        let j = choose|j: int|
                            0 <= j < self@.orders.len() && self@.orders[j].id == id@;
                        assert(j == i as int);
                    }
                }
                let visible = match caller_email {
                    None => true,
                    Some(e) => self.orders[i].email.eq(e),
                };
                if visible {
                    Ok(self.orders[i].duplicate())
                } else {
                    Err(ResponseError::new(Code::OrderNotFound, "order not found".to_owned()))
                }
            },
        }
    }

    /// Whether the given ticket ids are new to the store and do not repeat.
    fn tickets_fresh(&self, ticket_ids: &Vec<u128>) -> (r: bool)
        ensures
            r == ({
                let tids = ticket_ids@.map_values(|x: u128| x as int);
                &&& forall|a: int| 0 <= a < tids.len() ==> !has_ticket(self@, #[trigger] tids[a])
                &&& forall|a: int, b: int|
                    0 <= a < tids.len() && 0 <= b < tids.len() && #[trigger] tids[a]
                        == #[trigger] tids[b] ==> a == b
            }),
    {
        let ghost tids = ticket_ids@.map_values(|x: u128| x as int);
        let n = ticket_ids.len();
        let mut j: usize = 0;
        while j < n
            invariant
                n == ticket_ids@.len(),
                tids == ticket_ids@.map_values(|x: u128| x as int),
                j <= n,
                forall|a: int| 0 <= a < j ==> !has_ticket(self@, #[trigger] tids[a]),
                forall|a: int, b: int|
                    0 <= a < j && 0 <= b < j && #[trigger] tids[a] == #[trigger] tids[b] ==> a == b,
            decreases n - j,
        {
            if self.find_ticket(ticket_ids[j]).is_some() {
                proof {
                    assert(has_ticket(self@, tids[j as int]));
                }
                return false;
            }
            let mut k: usize = 0;
            while k < j
                invariant
                    n == ticket_ids@.len(),
                    tids == ticket_ids@.map_values(|x: u128| x as int),
                    k <= j < n,
                    forall|a: int| 0 <= a < k ==> #[trigger] tids[a] != tids[j as int],
                decreases j - k,
            {
                if ticket_ids[k] == ticket_ids[j] {
                    proof {
                        assert(tids[k as int] == tids[j as int] && k < j);
                    }
                    return false;
                }
                k = k + 1;
            }
            j = j + 1;
        }
        true
    }

    /// Create an order of `count` tickets under the code `id`, with one fresh
    /// ticket row per seat, after checking the per-order cap and the remaining
    /// capacity against the same snapshot of the books that the insert writes
    /// to. A reused code or ticket id is refused as an internal error, as the
    /// store's key constraints would refuse it.
    pub fn create_order(
        &mut self,
        id: OrderId,
        email: String,
        name: String,
        phone: String,
        count: usize,
        ticket_ids: Vec<u128>,
        now: i64,
    ) -> (r: Result<Order, ResponseError>)
        requires
            inv(old(self)@),
            1 <= count,
            ticket_ids@.len() == count,
        ensures
            inv(final(self)@),
            ({
                let s = old(self)@;
                let tids = ticket_ids@.map_values(|x: u128| x as int);
                let o = new_order_model(id@, email@, name@, phone@, count as int, now as int);
                &&& !capacity_ok(s, count as int) ==> r is Err && r->Err_0.code
                    == Code::TooManyTickets && final(self)@ == s
                &&& capacity_ok(s, count as int) && !ids_fresh(s, id@, tids) ==> r is Err
                    && r->Err_0.code == Code::InternalError && final(self)@ == s
                &&& capacity_ok(s, count as int) && ids_fresh(s, id@, tids) ==> r is Ok
                    && r->Ok_0@ == o && final(self)@ == spec_create(s, o, tids)
            }),
    {
        let ghost s1 = self@;
        let ghost tids = ticket_ids@.map_values(|x: u128| x as int);
        if count > MAX_TICKETS_PER_ORDER {
            return Err(CreateOrderError::TooManyTickets.response());
        }
        let rem = self.tickets_remaining();
        if count > rem as usize {
            return Err(CreateOrderError::TooManyTickets.response());
        }
        if self.find_order(&id).is_some() {
            return Err(ResponseError::new(Code::InternalError, "order code already in use".to_owned()));
        }
        if !self.tickets_fresh(&ticket_ids) {
            return Err(ResponseError::new(Code::InternalError, "ticket id already in use".to_owned()));
        }
        let ghost o_model = new_order_model(id@, email@, name@, phone@, count as int, now as int);
        let amount: i32 = (count as i32) * TICKET_PRICE;
        let order = Order {
            id,
            email,
            name,
            phone,
            amount,
            created_at: now,
            paid_at: None,
            completed_at: None,
            canceled_at: None,
            emailed_at: None,
        };
        let ret = order.duplicate();
        proof {
            assert(order@ == o_model);
        }
        self.orders.push(order);
        proof {
            assert(self@.orders =~= s1.orders.push(o_model));
            assert(self@.tickets =~= s1.tickets + new_ticket_models(tids.take(0), o_model.id)) by {
                assert(new_ticket_models(tids.take(0), o_model.id) =~= Seq::<TicketModel>::empty());
                assert(s1.tickets + new_ticket_models(tids.take(0), o_model.id) =~= s1.tickets);
            }
        }
        let mut i2: usize = 0;
        while i2 < count
            invariant
                i2 <= count,
                count == ticket_ids@.len(),
                tids == ticket_ids@.map_values(|x: u128| x as int),
                ret@ == o_model,
                self@.capacity == s1.capacity,
                self@.orders == s1.orders.push(o_model),
                self@.tickets == s1.tickets + new_ticket_models(tids.take(i2 as int), o_model.id),
                self.tickets@.len() == s1.tickets.len() + i2,
            decreases count - i2,
        {
            let ghost prev = self@.tickets;
            let ghost tm = TicketModel { id: tids[i2 as int], order_id: o_model.id, scanned_at: None };
            self.tickets.push(
                Ticket { id: ticket_ids[i2], order_id: ret.id.duplicate(), scanned_at: None },
            );
            proof {
                assert(self@.tickets =~= prev.push(tm));
                assert(new_ticket_models(tids.take(i2 + 1), o_model.id) =~= new_ticket_models(
                    tids.take(i2 as int),
                    o_model.id,
                ).push(tm));
                assert(s1.tickets + new_ticket_models(tids.take(i2 as int), o_model.id).push(tm)
                    =~= (s1.tickets + new_ticket_models(tids.take(i2 as int), o_model.id)).push(tm));
                assert(self@.tickets =~= s1.tickets + new_ticket_models(
                    tids.take(i2 + 1),
                    o_model.id,
                ));
            }
            i2 = i2 + 1;
        }
        proof {
            assert(tids.take(count as int) =~= tids);
            assert(self@ =~= spec_create(s1, o_model, tids));
            lemma_inv_after_create(s1, o_model, tids);
        }
        Ok(ret)
    }

    /// Atomically check and stamp one ticket. The scan fails as
    /// `TicketNotFound` when the ticket does not exist or its order has not
    /// been paid (deliberately the same answer, so a scanning client learns
    /// nothing about order state); a re-scan of a stamped ticket reports
    /// `already_scanned` and changes nothing.
    pub fn scan_ticket(&mut self, ticket_id: u128, now: i64) -> (r: Result<Scan, ResponseError>)
        requires
            inv(old(self)@),
        ensures
            inv(final(self)@),
            final(self)@ == spec_scan(old(self)@, ticket_id as int, now as int),
            ({
                let s = old(self)@;
                let tid = ticket_id as int;
                &&& !has_ticket(s, tid) ==> r is Err && r->Err_0.code == Code::TicketNotFound
                    && final(self)@ == s
                &&& has_ticket(s, tid) ==> ({
                    let t = ticket_of(s, tid);
                    let o = order_of(s, t.order_id);
                    if o.paid_at is None {
                        r is Err && r->Err_0.code == Code::TicketNotFound && final(self)@ == s
                    } else if t.scanned_at is Some {
                        r is Ok && r->Ok_0.already_scanned == true && r->Ok_0.ticket@ == t
                            && r->Ok_0.order@ == o && r->Ok_0.remaining_unscanned
                            == sibling_unscanned(s, tid) && final(self)@ == s
                    } else {
                        r is Ok && r->Ok_0.already_scanned == false && r->Ok_0.ticket@
                            == (TicketModel { scanned_at: Some(now as int), ..t })
                            && r->Ok_0.order@ == o && r->Ok_0.remaining_unscanned
                            == sibling_unscanned(s, tid)
                    }
                })
            }),
    {
        let ghost s1 = self@;
        let ghost tid = ticket_id as int;
        let idx = match self.find_ticket(ticket_id) {
            None => {
                return Err(ResponseError::new(Code::TicketNotFound, "ticket not found".to_owned()));
            },
            Some(i) => i,
        };
        proof {
            assert(ticket_of(s1, tid) == s1.tickets[idx as int]) by {
                let j = choose|j: int|
                    0 <= j < s1.tickets.len() && s1.tickets[j].id == tid;
                assert(j == idx as int);
            }
        }
        let oid = self.tickets[idx].order_id.duplicate();
        let ghost sib = sibling_pred(oid@, tid);
        // Count the still-unscanned siblings, this ticket itself excluded.
        let mut c: usize = 0;
        let mut i: usize = 0;
        proof {
            assert(s1.tickets.take(0) =~= Seq::<TicketModel>::empty());
        }
        while i < self.tickets.len()
            invariant
                self@ == s1,
                i <= s1.tickets.len(),
                s1.tickets.len() == self.tickets@.len(),
                oid@ == ticket_of(s1, tid).order_id,
                tid == ticket_id as int,
                sib == sibling_pred(oid@, tid),
                c == count(s1.tickets.take(i as int), sib),
                0 <= c <= i,
            decreases s1.tickets.len() - i,
        {
            proof {
                lemma_count_bounds(s1.tickets.take(i as int), sib);
                assert(s1.tickets.take(i + 1) =~= s1.tickets.take(i as int).push(
                    s1.tickets[i as int],
                ));
                lemma_count_push(s1.tickets.take(i as int), sib, s1.tickets[i as int]);
            }
            if self.tickets[i].scanned_at.is_none() && self.tickets[i].id != ticket_id
                && self.tickets[i].order_id.eq(&oid) {
                c = c + 1;
            }
            i = i + 1;
        }
        proof {
            assert(s1.tickets.take(s1.tickets.len() as int) =~= s1.tickets);
            assert(c == sibling_unscanned(s1, tid));
        }
        let oidx = match self.find_order(&oid) {
            None => {
                proof {
                    assert(has_order(s1, s1.tickets[idx as int].order_id));
                    assert(false);
                }
                return Err(ResponseError::new(Code::TicketNotFound, "ticket not found".to_owned()));
            },
            Some(i) => i,
        };
        proof {
            assert(order_of(s1, oid@) == s1.orders[oidx as int]) by {
                let j = choose|j: int|
                    0 <= j < s1.orders.len() && s1.orders[j].id == oid@;
                assert(j == oidx as int);
            }
        }
        if self.orders[oidx].paid_at.is_none() {
            return Err(ResponseError::new(Code::TicketNotFound, "order not paid".to_owned()));
        }
        let already = self.tickets[idx].scanned_at.is_some();
        if !already {
            self.tickets[idx].scanned_at = Some(now);
        }
        let scan = Scan {
            ticket: self.tickets[idx].duplicate(),
            order: self.orders[oidx].duplicate(),
            already_scanned: already,
            remaining_unscanned: c,
        };
        proof {
            let s2 = self@;
            assert(s2.tickets =~= s1.tickets.map_values(
                |t: TicketModel| scan_edit(t, tid, now as int),
            )) by {
                assert forall|j: int| 0 <= j < s1.tickets.len() implies s2.tickets[j] == scan_edit(
                    s1.tickets[j],
                    tid,
                    now as int,
                ) by {
                    if j != idx as int {
                        assert(s1.tickets[j].id != tid);
                    }
                }
            }
            assert(s2 =~= spec_scan(s1, tid, now as int));
            // The invariant survives: ids, owners and cancellations are untouched.
            assert forall|k: int| 0 <= k < s2.tickets.len() implies has_order(
                s2,
                (#[trigger] s2.tickets[k]).order_id,
            ) by {
                assert(s2.tickets[k].order_id == s1.tickets[k].order_id);
                let j = choose|j: int|
                    0 <= j < s1.orders.len() && s1.orders[j].id == s1.tickets[k].order_id;
                assert(s2.orders[j].id == s2.tickets[k].order_id);
            }
            lemma_count_pointwise(s1.tickets, s2.tickets, active_pred(s1.orders));
            assert(sold(s2) == sold(s1));
        }
        Ok(scan)
    }

    /// Some order that is paid and has not yet been emailed its tickets, if
    /// any is left.
    pub fn order_to_email(&self) -> (r: Option<Order>)
        requires
            inv(self@),
        ensures
            match r {
                Some(o) => has_order(self@, o@.id) && order_of(self@, o@.id) == o@ && needs_email(
                    o@,
                ),
                None => forall|i: int|
                    0 <= i < self@.orders.len() ==> !needs_email(#[trigger] self@.orders[i]),
            },
    {
        let mut i: usize = 0;
        while i < self.orders.len()
            invariant
                inv(self@),
                i <= self@.orders.len(),
                self@.orders.len() == self.orders@.len(),
                forall|j: int| 0 <= j < i ==> !needs_email(#[trigger] self@.orders[j]),
            decreases self@.orders.len() - i,
        {
            if self.orders[i].paid_at.is_some() && self.orders[i].emailed_at.is_none() {
                let o = self.orders[i].duplicate();
                proof {
                    assert(has_order(self@, o@.id)) by {
                        assert(self@.orders[i as int].id == o@.id);
                    }
                    assert(order_of(self@, o@.id) == self@.orders[i as int]) by {
                        let j = choose|j: int|
                            0 <= j < self@.orders.len() && self@.orders[j].id == o@.id;
                        assert(j == i as int);
                    }
                }
                return Some(o);
            }
            i = i + 1;
        }
        None
    }

    /// Apply one payment record: every order it pays for gets its `paid_at`
    /// overwritten with the record's timestamp.
    fn apply_transaction(&mut self, tx: &Transaction)
        requires
            inv(old(self)@),
        ensures
            inv(final(self)@),
            final(self)@ == spec_apply_tx(old(self)@, tx@),
    {
        let ghost s1 = self@;
        let n = self.orders.len();
        let mut j: usize = 0;
        while j < n
            invariant
                j <= n,
                self.orders@.len() == n,
                self@.orders.len() == n,
                self@.capacity == s1.capacity,
                self@.tickets == s1.tickets,
                s1.orders.len() == n,
                forall|k: int|
                    0 <= k < j ==> #[trigger] self@.orders[k] == apply_tx_edit(
                        s1.orders[k],
                        tx@,
                    ),
                forall|k: int| j <= k < n ==> #[trigger] self@.orders[k] == s1.orders[k],
            decreases n - j,
        {
            let ghost oj = self@.orders[j as int];
            proof {
                assert(oj == self.orders@[j as int]@);
            }
            let matches = self.orders[j].id.matches_str(&tx.message) && tx.amount.equals_i32(
                self.orders[j].amount,
            );
            proof {
                assert(matches == tx_matches(oj, tx@));
            }
            if matches {
                let ghost pv = self.orders@;
                let ghost pm = self@.orders;
                self.orders[j].paid_at = Some(tx.time);
                proof {
                    assert(self@.orders[j as int] == (OrderModel { paid_at: Some(tx@.time), ..oj }));
                    assert forall|k: int| 0 <= k < n && k != j implies #[trigger] self@.orders[k]
                        == pm[k] by {
                        assert(self.orders@[k] == pv[k]);
                    }
                }
            }
            proof {
                assert(self@.orders[j as int] == apply_tx_edit(s1.orders[j as int], tx@));
                assert(forall|k: int|
                    0 <= k < j ==> #[trigger] self@.orders[k] == apply_tx_edit(
                        s1.orders[k],
                        tx@,
                    ));
                assert(forall|k: int| j < k < n ==> #[trigger] self@.orders[k] == s1.orders[k]);
            }
            j = j + 1;
        }
        proof {
            let s2 = self@;
            assert(s2.orders =~= spec_apply_tx(s1, tx@).orders);
            assert(s2 =~= spec_apply_tx(s1, tx@));
            lemma_inv_after_order_edit(s1, s2);
        }
    }

    /// Reconcile a parsed transaction report against the order book: each
    /// record whose message reads as an order's code and whose amount equals
    /// that order's total marks it paid with the record's timestamp. Records
    /// matching no order are skipped; the order of records only decides which
    /// timestamp wins when several records pay for one order.
    pub fn reconcile(&mut self, txs: &Vec<Transaction>)
        requires
            inv(old(self)@),
        ensures
            inv(final(self)@),
            final(self)@ == spec_reconcile(old(self)@, txs@.map_values(|t: Transaction| t@)),
    {
        let ghost s1 = self@;
        let ghost txv = txs@.map_values(|t: Transaction| t@);
        let n = txs.len();
        let mut k: usize = 0;
        proof {
            let e = spec_reconcile(s1, txv.take(0));
            assert forall|j: int| 0 <= j < s1.orders.len() implies reconcile_order(
                #[trigger] s1.orders[j],
                txv.take(0),
            ) == s1.orders[j] by {
                assert(txv.take(0).len() == 0);
            }
            assert(e.orders =~= s1.orders);
            assert(e =~= s1);
        }
        while k < n
            invariant
                k <= n,
                txs@.len() == n,
                txv == txs@.map_values(|t: Transaction| t@),
                txv.len() == n,
                inv(self@),
                self@ == spec_reconcile(s1, txv.take(k as int)),
            decreases n - k,
        {
            self.apply_transaction(&txs[k]);
            proof {
                assert(txv.take(k + 1) =~= txv.take(k as int).push(txv[k as int]));
                lemma_reconcile_push(s1, txv.take(k as int), txv[k as int]);
                assert(txv[k as int] == txs@[k as int]@);
            }
            k = k + 1;
        }
        proof {
            assert(txv.take(n as int) =~= txv);
        }
    }

    /// Record that this order's tickets were sent, after a successful send.
    pub fn mark_emailed(&mut self, id: &OrderId, now: i64) -> (r: bool)
        requires
            inv(old(self)@),
        ensures
            inv(final(self)@),
            final(self)@ == spec_mark_emailed(old(self)@, id@, now as int),
            r == has_order(old(self)@, id@),
    {
        let ghost s1 = self@;
        match self.find_order(id) {
            None => {
                proof {
                    assert forall|j: int| 0 <= j < s1.orders.len() implies email_edit(
                        s1.orders[j],
                        id@,
                        now as int,
                    ) == s1.orders[j] by {
                        assert(s1.orders[j].id != id@);
                    }
                    assert(self@ =~= spec_mark_emailed(s1, id@, now as int)) by {
                        assert(self@.orders =~= spec_mark_emailed(s1, id@, now as int).orders);
                    }
                }
                false
            },
            Some(i) => {
                self.orders[i].emailed_at = Some(now);
                proof {
                    let s2 = self@;
                    assert(s2.orders =~= spec_mark_emailed(s1, id@, now as int).orders) by {
                        assert forall|j: int| 0 <= j < s1.orders.len() implies s2.orders[j]
                            == email_edit(s1.orders[j], id@, now as int) by {
                            if j != i as int {
                                assert(s1.orders[j].id != id@);
                            }
                        }
                    }
                    assert(s2 =~= spec_mark_emailed(s1, id@, now as int));
                    lemma_inv_after_order_edit(s1, s2);
                }
                true
            },
        }
    }

    /// Whether some order with this code has been paid.
    fn order_is_paid(&self, id: &OrderId) -> (r: bool)
        requires
            inv(self@),
        ensures
            r == ticket_paid(
                self@.orders,
                (TicketModel { id: 0, order_id: id@, scanned_at: None }),
            ),
    {
        let ghost t = TicketModel { id: 0, order_id: id@, scanned_at: None };
        match self.find_order(id) {
            Some(i) => {
                let paid = self.orders[i].paid_at.is_some();
                proof {
                    if paid {
                        assert(ticket_paid(self@.orders, t)) by {
                            assert(self@.orders[i as int].id == t.order_id
                                && self@.orders[i as int].paid_at is Some);
                        }
                    } else {
                        if ticket_paid(self@.orders, t) {
                            let j = choose|j: int|
                                0 <= j < self@.orders.len() && self@.orders[j].id == t.order_id
                                    && self@.orders[j].paid_at is Some;
                            assert(j == i as int);
                        }
                    }
                }
                paid
            },
            None => {
                proof {
                    if ticket_paid(self@.orders, t) {
                        let j = choose|j: int|
                            0 <= j < self@.orders.len() && self@.orders[j].id == t.order_id
                                && self@.orders[j].paid_at is Some;
                        assert(has_order(self@, id@));
                    }
                }
                false
            },
        }
    }

    /// How many tickets belong to paid orders; a count beyond `u32` reports
    /// as zero.
    pub fn get_ticket_stats(&self) -> (r: u32)
        requires
            inv(self@),
        ensures
            ({
                let c = count(self@.tickets, paid_pred(self@.orders));
                r == if c <= u32::MAX {
                    c
                } else {
                    0
                }
            }),
    {
        let ghost pred = paid_pred(self@.orders);
        let mut c: usize = 0;
        let mut i: usize = 0;
        proof {
            assert(self@.tickets.take(0) =~= Seq::<TicketModel>::empty());
        }
        while i < self.tickets.len()
            invariant
                inv(self@),
                i <= self@.tickets.len(),
                self@.tickets.len() == self.tickets@.len(),
                pred == paid_pred(self@.orders),
                c == count(self@.tickets.take(i as int), pred),
                0 <= c <= i,
            decreases self@.tickets.len() - i,
        {
            proof {
                lemma_count_bounds(self@.tickets.take(i as int), pred);
                assert(self@.tickets.take(i + 1) =~= self@.tickets.take(i as int).push(
                    self@.tickets[i as int],
                ));
                lemma_count_push(self@.tickets.take(i as int), pred, self@.tickets[i as int]);
            }
            let paid = self.order_is_paid(&self.tickets[i].order_id);
            if paid {
                c = c + 1;
            }
            i = i + 1;
        }
        proof {
            assert(self@.tickets.take(self@.tickets.len() as int) =~= self@.tickets);
        }
        if c as u64 <= u32::MAX as u64 {
            c as u32
        } else {
            0
        }
    }

    /// The tickets of the order whose code is `id`, in book order.
    pub fn get_tickets(&self, id: &OrderId) -> (r: Vec<Ticket>)
        ensures
            r@.map_values(|t: Ticket| t@) == tickets_of(self@, id@),
    {
        let ghost pred = |t: TicketModel| t.order_id == id@;
        let mut out: Vec<Ticket> = Vec::new();
        let mut i: usize = 0;
        proof {
            reveal(Seq::filter);
            assert(out@.map_values(|t: Ticket| t@) =~= self@.tickets.take(0).filter(pred));
        }
        while i < self.tickets.len()
            invariant
                i <= self@.tickets.len(),
                self@.tickets.len() == self.tickets@.len(),
                pred == (|t: TicketModel| t.order_id == id@),
                out@.map_values(|t: Ticket| t@) == self@.tickets.take(i as int).filter(pred),
            decreases self@.tickets.len() - i,
        {
            let ghost prev = out@.map_values(|t: Ticket| t@);
            if self.tickets[i].order_id.eq(id) {
                out.push(self.tickets[i].duplicate());
                proof {
                    assert(out@.map_values(|t: Ticket| t@) =~= prev.push(self@.tickets[i as int]));
                }
            }
            proof {
                reveal(Seq::filter);
                assert(self@.tickets.take(i + 1) =~= self@.tickets.take(i as int).push(
                    self@.tickets[i as int],
                ));
                assert(self@.tickets.take(i + 1).drop_last() =~= self@.tickets.take(i as int));
                assert(self@.tickets.take(i + 1).last() == self@.tickets[i as int]);
                assert(out@.map_values(|t: Ticket| t@) =~= self@.tickets.take(i + 1).filter(pred));
            }
            i = i + 1;
        }
        proof {
            assert(self@.tickets.take(self@.tickets.len() as int) =~= self@.tickets);
            assert(tickets_of(self@, id@) == self@.tickets.filter(pred));
        }
        out
    }

    /// Every ticket in the books, ordered by ticket id.
    pub fn list_tickets(&self) -> (r: Vec<Ticket>)
        ensures
            r@.map_values(|t: Ticket| t@).to_multiset() == self@.tickets.to_multiset(),
            tickets_sorted_by_id(r@.map_values(|t: Ticket| t@)),
    {
        let mut all: Vec<Ticket> = Vec::new();
        let mut i: usize = 0;
        proof {
            broadcast use vstd::seq_lib::group_to_multiset_ensures;

            assert(all@.map_values(|t: Ticket| t@) =~= Seq::<TicketModel>::empty());
            assert(self@.tickets.take(0) =~= Seq::<TicketModel>::empty());
            assert(Seq::<TicketModel>::empty().to_multiset() =~= Seq::<
                TicketModel,
            >::empty().to_multiset());
        }
        while i < self.tickets.len()
            invariant
                i <= self@.tickets.len(),
                self@.tickets.len() == self.tickets@.len(),
                all@.map_values(|t: Ticket| t@) == self@.tickets.take(i as int),
            decreases self@.tickets.len() - i,
        {
            let ghost prev = all@.map_values(|t: Ticket| t@);
            all.push(self.tickets[i].duplicate());
            proof {
                assert(all@.map_values(|t: Ticket| t@) =~= prev.push(self@.tickets[i as int]));
                assert(self@.tickets.take(i + 1) =~= self@.tickets.take(i as int).push(
                    self@.tickets[i as int],
                ));
            }
            i = i + 1;
        }
        proof {
            assert(self@.tickets.take(self@.tickets.len() as int) =~= self@.tickets);
        }
        sort_tickets_by_id(all)
    }
}

/// One order of the detailed listing, with its tickets.
pub struct DetailedOrder {
    pub order: Order,
    pub tickets: Vec<Ticket>,
}

impl Store {
    /// Place an order of `count` tickets: draw a fresh random code and fresh
    /// random ticket ids, then create the order against the current books.
    /// The capacity rule alone decides rejection; a random id collision
    /// surfaces as an internal error, as the store's key constraints would.
    pub fn place_order(
        &mut self,
        email: String,
        name: String,
        phone: String,
        count: usize,
        now: i64,
    ) -> (r: Result<Order, ResponseError>)
        requires
            inv(old(self)@),
            1 <= count,
        ensures
            inv(final(self)@),
            (r is Err && r->Err_0.code == Code::TooManyTickets) <==> !capacity_ok(
                old(self)@,
                count as int,
            ),
            r is Err ==> (r->Err_0.code == Code::TooManyTickets || r->Err_0.code
                == Code::InternalError) && final(self)@ == old(self)@,
            r is Ok ==> ({
                let o = r->Ok_0@;
                let s = old(self)@;
                let s2 = final(self)@;
                &&& o.email == email@ && o.name == name@ && o.phone == phone@
                &&& o.amount == count * (TICKET_PRICE as int)
                &&& o.created_at == now as int
                &&& o.paid_at is None && o.completed_at is None && o.canceled_at is None
                    && o.emailed_at is None
                &&& o.id.len() == crate::order::ORDER_ID_LEN
                &&& !has_order(s, o.id)
                &&& s2.capacity == s.capacity
                &&& s2.orders == s.orders.push(o)
                &&& s2.tickets.len() == s.tickets.len() + count
                &&& forall|j: int|
                    0 <= j < s.tickets.len() ==> #[trigger] s2.tickets[j] == s.tickets[j]
                &&& forall|j: int|
                    s.tickets.len() <= j < s2.tickets.len() ==> (#[trigger] s2.tickets[j]).order_id
                        == o.id && s2.tickets[j].scanned_at is None && !has_ticket(
                        s,
                        s2.tickets[j].id,
                    )
                &&& sold(s2) == sold(s) + count
            }),
    {
        let ghost s1 = self@;
        let id = OrderId::new();
        let mut ticket_ids: Vec<u128> = Vec::new();
        let mut i: usize = 0;
        while i < count
            invariant
                i <= count,
                ticket_ids@.len() == i,
            decreases count - i,
        {
            ticket_ids.push(fresh_ticket_id());
            i = i + 1;
        }
        let ghost tids = ticket_ids@.map_values(|x: u128| x as int);
        let ghost o_model = new_order_model(id@, email@, name@, phone@, count as int, now as int);
        let r = self.create_order(id, email, name, phone, count, ticket_ids, now);
        proof {
            if capacity_ok(s1, count as int) && ids_fresh(s1, o_model.id, tids) {
                lemma_inv_after_create(s1, o_model, tids);
                let s2 = spec_create(s1, o_model, tids);
                assert(s2.tickets.len() == s1.tickets.len() + count);
                assert forall|j: int|
                    s1.tickets.len() <= j < s2.tickets.len() implies (#[trigger] s2.tickets[j]).order_id
                    == o_model.id && s2.tickets[j].scanned_at is None && !has_ticket(
                    s1,
                    s2.tickets[j].id,
                ) by {
                    let m = new_ticket_models(tids, o_model.id);
                    assert(s2.tickets[j] == m[j - s1.tickets.len()]);
                    assert(m[j - s1.tickets.len()] == (TicketModel {
                        id: tids[j - s1.tickets.len()],
                        order_id: o_model.id,
                        scanned_at: None,
                    }));
                }
            }
        }
        r
    }

    /// Every order that owns tickets, with those tickets: orders newest
    /// first by creation time, each order's tickets ordered by id.
    pub fn list_orders(&self) -> (r: Vec<DetailedOrder>)
        requires
            inv(self@),
        ensures
            r@.map_values(|d: DetailedOrder| d.order@).to_multiset() == self@.orders.filter(
                listed_pred(self@),
            ).to_multiset(),
            forall|i: int, j: int|
                0 <= i < j < r@.len() ==> r@[i].order@.created_at >= r@[j].order@.created_at,
            forall|i: int|
                #![trigger r@[i]]
                0 <= i < r@.len() ==> r@[i].tickets@.map_values(|t: Ticket| t@).to_multiset()
                    == tickets_of(self@, r@[i].order@.id).to_multiset() && tickets_sorted_by_id(
                    r@[i].tickets@.map_values(|t: Ticket| t@),
                ),
    {
        let ghost s = self@;
        let ghost lp = listed_pred(s);
        let mut items: Vec<DetailedOrder> = Vec::new();
        let mut i: usize = 0;
        proof {
            broadcast use vstd::seq_lib::group_to_multiset_ensures;

            reveal(Seq::filter);
            assert(items@.map_values(|d: DetailedOrder| d.order@) =~= Seq::<OrderModel>::empty());
            assert(s.orders.take(0) =~= Seq::<OrderModel>::empty());
            assert(s.orders.take(0).filter(lp) =~= Seq::<OrderModel>::empty());
        }
        while i < self.orders.len()
            invariant
                inv(self@),
                self@ == s,
                lp == listed_pred(s),
                i <= s.orders.len(),
                s.orders.len() == self.orders@.len(),
                items@.map_values(|d: DetailedOrder| d.order@).to_multiset() == s.orders.take(
                    i as int,
                ).filter(lp).to_multiset(),
                forall|a: int, b: int|
                    0 <= a < b < items@.len() ==> items@[a].order@.created_at
                        >= items@[b].order@.created_at,
                forall|a: int|
                    #![trigger items@[a]]
                    0 <= a < items@.len() ==> items@[a].tickets@.map_values(
                        |t: Ticket| t@,
                    ).to_multiset() == tickets_of(s, items@[a].order@.id).to_multiset()
                        && tickets_sorted_by_id(items@[a].tickets@.map_values(|t: Ticket| t@)),
            decreases s.orders.len() - i,
        {
            broadcast use vstd::seq_lib::group_to_multiset_ensures;

            let ghost om = items@.map_values(|d: DetailedOrder| d.order@);
            let ghost o = s.orders[i as int];
            let ts = self.get_tickets(&self.orders[i].id);
            proof {
                broadcast use vstd::seq_lib::group_filter_ensures;

                reveal(Seq::filter);
                assert(s.orders.take(i + 1) =~= s.orders.take(i as int).push(o));
                assert(s.orders.take(i + 1).drop_last() =~= s.orders.take(i as int));
                assert(s.orders.take(i + 1).last() == o);
                assert(ts@.map_values(|t: Ticket| t@) == tickets_of(s, o.id));
                if ts@.len() > 0 {
                    assert(lp(o)) by {
                        let t0 = tickets_of(s, o.id)[0];
                        assert(t0.order_id == o.id);
                        assert(tickets_of(s, o.id).contains(t0));
                        s.tickets.lemma_filter_contains_rev(
                            |t: TicketModel| t.order_id == o.id,
                            t0,
                        );
                        assert(s.tickets.contains(t0));
                        let k = choose|k: int| 0 <= k < s.tickets.len() && s.tickets[k] == t0;
                        assert(s.tickets[k].order_id == o.id);
                    }
                } else {
                    assert(!lp(o)) by {
                        if order_listed(s, o) {
                            let k = choose|k: int|
                                0 <= k < s.tickets.len() && s.tickets[k].order_id == o.id;
                            assert(tickets_of(s, o.id).contains(s.tickets[k]));
                        }
                    }
                }
            }
            if ts.len() > 0 {
                let sorted = sort_tickets_by_id(ts);
                let item = DetailedOrder { order: self.orders[i].duplicate(), tickets: sorted };
                // Find the insertion point: newest first.
                let mut pos: usize = 0;
                while pos < items.len() && items[pos].order.created_at >= item.order.created_at
                    invariant
                        pos <= items@.len(),
                        om == items@.map_values(|d: DetailedOrder| d.order@),
                        om.len() == items@.len(),
                        item.order@ == o,
                        forall|j: int| 0 <= j < pos ==> #[trigger] om[j].created_at >= o.created_at,
                    decreases items@.len() - pos,
                {
                    proof {
                        assert(om[pos as int] == items@[pos as int].order@);
                    }
                    pos = pos + 1;
                }
                proof {
                    assert(pos < items@.len() ==> om[pos as int].created_at < o.created_at) by {
                        if pos < items@.len() {
                            assert(om[pos as int] == items@[pos as int].order@);
                        }
                    }
                }
                let ghost old_items = items@;
                items.insert(pos, item);
                proof {
                    assert(items@ =~= old_items.insert(pos as int, item));
                    assert(items@.map_values(|d: DetailedOrder| d.order@) =~= om.insert(
                        pos as int,
                        o,
                    ));
                    lemma_insert_to_multiset(om, pos as int, o);
                    let nm = items@.map_values(|d: DetailedOrder| d.order@);
                    assert(forall|j: int| 0 <= j < pos ==> #[trigger] nm[j] == om[j]);
                    assert(nm[pos as int] == o);
                    assert(forall|j: int| pos < j < nm.len() ==> #[trigger] nm[j] == om[j - 1]);
                    assert(forall|j: int|
                        0 <= j < pos ==> #[trigger] items@[j] == old_items[j]);
                    assert(items@[pos as int] == item);
                    assert(forall|j: int|
                        pos < j < items@.len() ==> #[trigger] items@[j] == old_items[j - 1]);
                    assert(forall|a: int|
                        0 <= a < om.len() ==> #[trigger] om[a] == old_items[a].order@);
                    assert forall|a: int, b: int|
                        0 <= a < b < items@.len() implies items@[a].order@.created_at
                        >= items@[b].order@.created_at by {
                        let p = pos as int;
                        if a < p && b < p {
                            assert(items@[a] == old_items[a] && items@[b] == old_items[b]);
                        } else if a < p && b == p {
                            assert(om[a].created_at >= o.created_at);
                        } else if a < p && b > p {
                            if a == b - 1 {
                            } else {
                                assert(items@[a] == old_items[a] && items@[b] == old_items[b - 1]);
                            }
                        } else if a == p && b > p {
                            assert(om[b - 1].created_at <= om[p].created_at);
                            assert(om[p].created_at < o.created_at);
                        } else {
                            assert(items@[a] == old_items[a - 1] && items@[b] == old_items[b - 1]);
                        }
                    }
                }
            }
            i = i + 1;
        }
        proof {
            assert(s.orders.take(s.orders.len() as int) =~= s.orders);
        }
        items
    }
}

/// Relies on `uuid::Uuid::new_v4` (read through `Uuid::as_u128`): a freshly
/// drawn random ticket id. Nothing can be promised of a random value.
#[verifier::external_body]
fn fresh_ticket_id() -> u128 {
    uuid::Uuid::new_v4().as_u128()
}

/// Order the tickets by id, ascending, by insertion.
fn sort_tickets_by_id(v: Vec<Ticket>) -> (r: Vec<Ticket>)
    ensures
        r@.map_values(|t: Ticket| t@).to_multiset() == v@.map_values(|t: Ticket| t@).to_multiset(),
        tickets_sorted_by_id(r@.map_values(|t: Ticket| t@)),
        r@.len() == v@.len(),
{
    let ghost vm = v@.map_values(|t: Ticket| t@);
    let mut out: Vec<Ticket> = Vec::new();
    let n = v.len();
    let mut rest = v;
    let mut k: usize = 0;
    proof {
        broadcast use vstd::seq_lib::group_to_multiset_ensures;

        assert(out@.map_values(|t: Ticket| t@) =~= Seq::<TicketModel>::empty());
        assert(vm.take(0) =~= Seq::<TicketModel>::empty());
        assert(Seq::<TicketModel>::empty().to_multiset() =~= vm.take(0).to_multiset());
    }
    while k < n
        invariant
            k <= n,
            rest@.len() == n - k,
            vm.len() == n,
            forall|j: int| 0 <= j < rest@.len() ==> #[trigger] rest@[j]@ == vm[j + k],
            out@.len() == k,
            out@.map_values(|t: Ticket| t@).to_multiset() == vm.take(k as int).to_multiset(),
            tickets_sorted_by_id(out@.map_values(|t: Ticket| t@)),
        decreases n - k,
    {
        broadcast use vstd::seq_lib::group_to_multiset_ensures;

        let t = rest.remove(0);
        proof {
            assert(t@ == vm[k as int]);
            assert(forall|j: int|
                0 <= j < rest@.len() ==> #[trigger] rest@[j]@ == vm[j + k + 1]);
        }
        let ghost om = out@.map_values(|t2: Ticket| t2@);
        // Find the insertion point.
        let mut pos: usize = 0;
        while pos < out.len() && out[pos].id <= t.id
            invariant
                pos <= out@.len(),
                om == out@.map_values(|t2: Ticket| t2@),
                om.len() == out@.len(),
                forall|j: int| 0 <= j < pos ==> #[trigger] om[j].id <= t@.id,
            decreases out@.len() - pos,
        {
            proof {
                assert(om[pos as int] == out@[pos as int]@);
            }
            pos = pos + 1;
        }
        proof {
            assert(pos < out@.len() ==> om[pos as int].id > t@.id) by {
                if pos < out@.len() {
                    assert(om[pos as int] == out@[pos as int]@);
                }
            }
        }
        out.insert(pos, t);
        proof {
            assert(out@.map_values(|t2: Ticket| t2@) =~= om.insert(pos as int, t@));
            lemma_insert_to_multiset(om, pos as int, t@);
            assert(vm.take(k + 1) =~= vm.take(k as int).push(vm[k as int]));
            assert(vm.take(k + 1).to_multiset() =~= vm.take(k as int).to_multiset().insert(
                vm[k as int],
            ));
            let nm = om.insert(pos as int, t@);
            assert(tickets_sorted_by_id(nm)) by {
                assert(forall|j: int| 0 <= j < pos ==> #[trigger] nm[j] == om[j]);
                assert(nm[pos as int] == t@);
                assert(forall|j: int|
                    pos < j < nm.len() ==> #[trigger] nm[j] == om[j - 1]);
            }
        }
        k = k + 1;
    }
    proof {
        assert(vm.take(n as int) =~= vm);
    }
    out
}

} // verus!
