//! The store's global guarantees, stated and proved over the same models
//! that the operations' contracts use. Each operation on [`crate::store::Store`]
//! owns the books for its whole call, which models one serialized store
//! transaction; a concurrent history is therefore some interleaving of these
//! transitions, and a property proved of every single transition from every
//! well-formed state holds along every such history.

use vstd::prelude::*;

use crate::order::OrderModel;
use crate::store::{
    active_pred, apply_tx_edit, cancel_edit, capacity_ok, complete_edit, count, has_order,
    has_ticket, ids_fresh, inv, last_match, lemma_count_congruent, lemma_count_pointwise,
    lemma_inv_after_create, order_of, reconcile_order, remaining, scan_edit, sibling_pred,
    sibling_unscanned, sold, spec_cancel, spec_complete, spec_create, spec_reconcile, spec_scan,
    ticket_active, ticket_of, tickets_of, StoreModel, TicketModel,
};
use crate::swish::TransactionModel;

verus! {

/// Counting with a predicate is the length of filtering with it.
pub proof fn lemma_count_is_filter_len<A>(s: Seq<A>, p: spec_fn(A) -> bool)
    ensures
        count(s, p) == s.filter(p).len(),
    decreases s.len(),
{
    reveal(Seq::filter);
    if s.len() > 0 {
        lemma_count_is_filter_len(s.drop_last(), p);
    }
}

/// Two predicates that partition a third one split its count.
pub proof fn lemma_count_partition<A>(
    s: Seq<A>,
    p: spec_fn(A) -> bool,
    q1: spec_fn(A) -> bool,
    q2: spec_fn(A) -> bool,
)
    requires
        forall|i: int|
            0 <= i < s.len() ==> p(#[trigger] s[i]) == (q1(s[i]) || q2(s[i])) && !(q1(s[i]) && q2(
                s[i],
            )),
    ensures
        count(s, p) == count(s, q1) + count(s, q2),
    decreases s.len(),
{
    if s.len() > 0 {
        assert(s.last() == s[s.len() - 1]);
        assert(forall|i: int|
            0 <= i < s.drop_last().len() ==> #[trigger] s.drop_last()[i] == s[i]);
        lemma_count_partition(s.drop_last(), p, q1, q2);
    }
}

/// Law: a creation that passes the capacity check — the per-order cap and
/// the remaining capacity, both read from the same books the insert writes
/// to — leaves the sold count within the fixed capacity and the books
/// well-formed. Since every operation requires and preserves the invariant,
/// no interleaving of requests ever oversells.
pub proof fn lemma_capacity_never_exceeded(s: StoreModel, o: OrderModel, ticket_ids: Seq<int>)
    requires
        inv(s),
        capacity_ok(s, ticket_ids.len() as int),
        ids_fresh(s, o.id, ticket_ids),
        o.canceled_at is None,
    ensures
        inv(spec_create(s, o, ticket_ids)),
        sold(spec_create(s, o, ticket_ids)) == sold(s) + ticket_ids.len(),
        sold(spec_create(s, o, ticket_ids)) <= s.capacity,
{
    lemma_inv_after_create(s, o, ticket_ids);
}

/// Law: canceling an open order frees exactly its tickets' capacity, at
/// once: the sold count drops by the order's ticket count and the remaining
/// capacity grows by the same amount.
pub proof fn lemma_cancel_frees_capacity(s: StoreModel, id: Seq<char>, now: int)
    requires
        inv(s),
        has_order(s, id),
        order_of(s, id).canceled_at is None,
        order_of(s, id).completed_at is None,
    ensures
        sold(spec_cancel(s, id, now)) == sold(s) - tickets_of(s, id).len(),
        remaining(spec_cancel(s, id, now)) == remaining(s) + tickets_of(s, id).len(),
{
    let s2 = spec_cancel(s, id, now);
    let own = |t: TicketModel| t.order_id == id;
    let act_own = |t: TicketModel| ticket_active(s.orders, t) && t.order_id == id;
    let act_other = |t: TicketModel| ticket_active(s.orders, t) && t.order_id != id;
    let i0 = choose|i: int| 0 <= i < s.orders.len() && s.orders[i].id == id;
    assert(order_of(s, id) == s.orders[i0]);
    // In the canceled books a ticket is active exactly when it was active
    // and belongs to another order.
    assert forall|k: int| 0 <= k < s.tickets.len() implies active_pred(s2.orders)(
        #[trigger] s.tickets[k],
    ) == act_other(s.tickets[k]) by {
        let t = s.tickets[k];
        if ticket_active(s2.orders, t) {
            let j = choose|j: int|
                0 <= j < s2.orders.len() && s2.orders[j].id == t.order_id && s2.orders[j].canceled_at is None;
            assert(s2.orders[j] == cancel_edit(s.orders[j], id, now));
            assert(s.orders[j].canceled_at is None);
            assert(s.orders[j].id != id);
            assert(ticket_active(s.orders, t));
        }
        if act_other(t) {
            let j = choose|j: int|
                0 <= j < s.orders.len() && s.orders[j].id == t.order_id && s.orders[j].canceled_at is None;
            assert(s.orders[j].id != id);
            assert(s2.orders[j] == s.orders[j]);
            assert(ticket_active(s2.orders, t));
        }
    }
    lemma_count_congruent(s.tickets, active_pred(s2.orders), act_other);
    // Every ticket of the canceled order was active.
    assert forall|k: int| 0 <= k < s.tickets.len() implies act_own(#[trigger] s.tickets[k])
        == own(s.tickets[k]) by {
        let t = s.tickets[k];
        if t.order_id == id {
            assert(ticket_active(s.orders, t)) by {
                assert(s.orders[i0].id == t.order_id && s.orders[i0].canceled_at is None);
            }
        }
    }
    lemma_count_congruent(s.tickets, act_own, own);
    lemma_count_partition(s.tickets, active_pred(s.orders), act_own, act_other);
    lemma_count_is_filter_len(s.tickets, own);
    assert(tickets_of(s, id) == s.tickets.filter(own));
}

/// Law: completion is idempotent. Completing an order a second time, at any
/// later moment, changes nothing: the first completion's timestamp stands.
pub proof fn lemma_complete_idempotent(s: StoreModel, id: Seq<char>, t1: int, t2: int)
    ensures
        spec_complete(spec_complete(s, id, t1), id, t2) == spec_complete(s, id, t1),
{
    let s1 = spec_complete(s, id, t1);
    let s2 = spec_complete(s1, id, t2);
    assert forall|j: int| 0 <= j < s.orders.len() implies s2.orders[j] == s1.orders[j] by {
        let o = s.orders[j];
        assert(s1.orders[j] == complete_edit(o, id, t1));
        assert(s2.orders[j] == complete_edit(s1.orders[j], id, t2));
    }
    assert(s2.orders =~= s1.orders);
    assert(s2 =~= s1);
}

/// Law: cancellation is refused once an order is completed, and the refusal
/// changes nothing: after a completion, a cancellation leaves the books
/// exactly as they were, whatever the timestamps.
pub proof fn lemma_cancel_after_complete(s: StoreModel, id: Seq<char>, t1: int, t2: int)
    ensures
        spec_cancel(spec_complete(s, id, t1), id, t2) == spec_complete(s, id, t1),
{
    let s1 = spec_complete(s, id, t1);
    let s2 = spec_cancel(s1, id, t2);
    assert forall|j: int| 0 <= j < s.orders.len() implies s2.orders[j] == s1.orders[j] by {
        let o = s.orders[j];
        assert(s1.orders[j] == complete_edit(o, id, t1));
        assert(s2.orders[j] == cancel_edit(s1.orders[j], id, t2));
    }
    assert(s2.orders =~= s1.orders);
    assert(s2 =~= s1);
}

/// Which record pays for an order depends only on the order's code and
/// amount, which reconciliation never changes.
pub proof fn lemma_last_match_same_skeleton(
    o1: OrderModel,
    o2: OrderModel,
    txs: Seq<TransactionModel>,
)
    requires
        o2.id == o1.id,
        o2.amount == o1.amount,
    ensures
        last_match(o2, txs) == last_match(o1, txs),
    decreases txs.len(),
{
    if txs.len() > 0 {
        lemma_last_match_same_skeleton(o1, o2, txs.drop_last());
    }
}

/// Law: reconciling the same report twice is the same as reconciling it
/// once. Every order's `paid_at` ends at the timestamp of the last record
/// paying for it, and a replay rewrites exactly the same timestamps.
pub proof fn lemma_reconcile_idempotent(s: StoreModel, txs: Seq<TransactionModel>)
    ensures
        spec_reconcile(spec_reconcile(s, txs), txs) == spec_reconcile(s, txs),
{
    let s1 = spec_reconcile(s, txs);
    let s2 = spec_reconcile(s1, txs);
    assert forall|j: int| 0 <= j < s.orders.len() implies s2.orders[j] == s1.orders[j] by {
        let o = s.orders[j];
        let o1 = reconcile_order(o, txs);
        assert(s1.orders[j] == o1);
        assert(s2.orders[j] == reconcile_order(o1, txs));
        lemma_last_match_same_skeleton(o, o1, txs);
        match last_match(o, txs) {
            Some(t) => {
                assert(reconcile_order(o1, txs) =~= o1);
            },
            None => {
                assert(o1 == o);
            },
        }
    }
    assert(s2.orders =~= s1.orders);
    assert(s2 =~= s1);
}

/// Law: of two scans of one ticket, only the first admits. The first scan
/// stamps the ticket; the second finds it stamped and changes nothing, and
/// both report the same count of still-unscanned sibling tickets, as under
/// one global order of scans.
pub proof fn lemma_scan_admits_once(s: StoreModel, tid: int, t1: int, t2: int)
    requires
        inv(s),
        has_ticket(s, tid),
        order_of(s, ticket_of(s, tid).order_id).paid_at is Some,
        ticket_of(s, tid).scanned_at is None,
    ensures
        ({
            let s1 = spec_scan(s, tid, t1);
            &&& has_ticket(s1, tid)
            &&& ticket_of(s1, tid).scanned_at == Some(t1)
            &&& spec_scan(s1, tid, t2) == s1
            &&& sibling_unscanned(s1, tid) == sibling_unscanned(s, tid)
        }),
{
    let s1 = spec_scan(s, tid, t1);
    let idx = choose|i: int| 0 <= i < s.tickets.len() && s.tickets[i].id == tid;
    assert(ticket_of(s, tid) == s.tickets[idx]);
    assert(s1.tickets[idx] == scan_edit(s.tickets[idx], tid, t1));
    assert(has_ticket(s1, tid)) by {
        assert(s1.tickets[idx].id == tid);
    }
    assert(ticket_of(s1, tid) == s1.tickets[idx]) by {
        let j = choose|j: int| 0 <= j < s1.tickets.len() && s1.tickets[j].id == tid;
        assert(s1.tickets[j] == scan_edit(s.tickets[j], tid, t1));
        assert(s.tickets[j].id == tid);
        assert(j == idx);
    }
    assert(order_of(s1, ticket_of(s1, tid).order_id).paid_at is Some);
    let s2 = spec_scan(s1, tid, t2);
    assert forall|k: int| 0 <= k < s1.tickets.len() implies scan_edit(
        #[trigger] s1.tickets[k],
        tid,
        t2,
    ) == s1.tickets[k] by {
        if k != idx {
            assert(s1.tickets[k] == scan_edit(s.tickets[k], tid, t1));
            assert(s.tickets[k].id != tid);
        }
    }
    assert(s2.tickets =~= s1.tickets);
    assert(s2 =~= s1);
    assert(sibling_unscanned(s1, tid) == sibling_unscanned(s, tid)) by {
        let p = sibling_pred(ticket_of(s, tid).order_id, tid);
        assert(ticket_of(s1, tid).order_id == ticket_of(s, tid).order_id);
        assert forall|k: int| 0 <= k < s.tickets.len() implies p(#[trigger] s1.tickets[k]) == p(
            s.tickets[k],
        ) by {
            assert(s1.tickets[k] == scan_edit(s.tickets[k], tid, t1));
            if s.tickets[k].id == tid {
                assert(!p(s.tickets[k]) && !p(s1.tickets[k]));
            }
        }
        lemma_count_pointwise(s.tickets, s1.tickets, p);
    }
}

} // verus!
