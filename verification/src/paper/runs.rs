//! An account over a run of orders, cancellations and marks.

use super::laws::{
    cancelled_is_valid, lemma_filter, marked_is_valid, opened_is_valid, placed_is_valid,
};
use super::{Account, Order};
use crate::double::Double;
use vstd::prelude::*;

verus! {

/// What is done with an account.
#[verifier::ext_equal]
pub enum Action {
    Place {
        symbol: Seq<char>,
        is_long: bool,
        is_limit: bool,
        size: Double,
        price: Double,
        mark: Double,
    },
    Cancel { id: u64 },
    Mark { symbol: Seq<char>, mark: Double },
}

impl Account {
    /// The account after an action; a refused order changes nothing.
    pub open spec fn after(self, action: Action) -> Account {
        match action {
            Action::Place { symbol, is_long, is_limit, size, price, mark } => if self.complaint(
                size,
                price,
                mark,
            ) is None {
                self.placed(symbol, is_long, is_limit, size, price, mark)
            } else {
                self
            },
            Action::Cancel { id } => self.cancelled(id),
            Action::Mark { symbol, mark } => self.marked(symbol, mark),
        }
    }

    /// A new account after actions, one after the other.
    pub open spec fn reached(actions: Seq<Action>) -> Account
        decreases actions.len(),
    {
        if actions.len() == 0 {
            Account::opened()
        } else {
            Account::reached(actions.drop_last()).after(actions.last())
        }
    }

    /// An order of an id rests.
    pub open spec fn holds(self, id: u64) -> bool {
        exists|i: int| 0 <= i < self.orders.len() && (#[trigger] self.orders[i]).id == id
    }
}

/// An action keeps an account valid and takes back no id. What rests afterwards
/// rested before or has a new id.
pub proof fn action_gives_new_ids(account: Account, action: Action)
    requires
        account.valid(),
        account.next_id < u64::MAX,
    ensures
        account.after(action).valid(),
        account.next_id <= account.after(action).next_id <= account.next_id + 1,
        forall|i: int|
            0 <= i < account.after(action).orders.len() ==> {
                let order = #[trigger] account.after(action).orders[i];
                account.orders.contains(order) || order.id == account.next_id
                    && account.next_id < account.after(action).next_id
            },
{
    let after = account.after(action);
    match action {
        Action::Place { symbol, is_long, is_limit, size, price, mark } => {
            if account.complaint(size, price, mark) is None {
                placed_is_valid(account, symbol, is_long, is_limit, size, price, mark);
            }
            assert forall|i: int| 0 <= i < after.orders.len() implies account.orders.contains(
                #[trigger] after.orders[i],
            ) || after.orders[i].id == account.next_id && account.next_id < after.next_id by {
                if i < account.orders.len() {
                    assert(after.orders[i] == account.orders[i]);
                }
            }
        },
        Action::Cancel { id } => {
            cancelled_is_valid(account, id);
            lemma_filter(account.orders, |order: Order| order.id != id);
        },
        Action::Mark { symbol, mark } => {
            marked_is_valid(account, symbol, mark);
            super::laws::lemma_settled_orders(
                account.without_due(symbol, mark),
                account.due(symbol, mark),
            );
            lemma_filter(account.orders, Account::rests(symbol, mark));
            if !super::usable(mark) {
                assert forall|i: int| 0 <= i < after.orders.len() implies account.orders.contains(
                    #[trigger] after.orders[i],
                ) by {
                    assert(account.orders[i] == after.orders[i]);
                }
            }
        },
    }
}

/// Over any run from a new account it stays valid: the ids of resting orders grow
/// from front to back, from one on, and are below the next one.
pub proof fn reached_is_valid(actions: Seq<Action>)
    requires
        actions.len() < u64::MAX - 1,
    ensures
        Account::reached(actions).valid(),
        1 <= Account::reached(actions).next_id <= 1 + actions.len(),
    decreases actions.len(),
{
    if actions.len() == 0 {
        opened_is_valid();
    } else {
        reached_is_valid(actions.drop_last());
        action_gives_new_ids(Account::reached(actions.drop_last()), actions.last());
    }
}

/// What rests late in a run and has an id that was given out earlier has rested
/// since then.
proof fn lemma_rested_since(actions: Seq<Action>, early: int, order: Order)
    requires
        actions.len() < u64::MAX - 1,
        0 <= early <= actions.len(),
        Account::reached(actions).orders.contains(order),
    ensures
        Account::reached(actions.take(early)).next_id <= Account::reached(actions).next_id,
        order.id < Account::reached(actions.take(early)).next_id ==> Account::reached(
            actions.take(early),
        ).orders.contains(order),
    decreases actions.len(),
{
    if early == actions.len() {
        assert(actions.take(early) == actions);
    } else {
        let front = actions.drop_last();
        reached_is_valid(front);
        lemma_next_grows(front, early);
        action_gives_new_ids(Account::reached(front), actions.last());
        assert(front.take(early) == actions.take(early));
        if Account::reached(front).orders.contains(order) {
            lemma_rested_since(front, early, order);
        }
    }
}

proof fn lemma_next_grows(actions: Seq<Action>, early: int)
    requires
        actions.len() < u64::MAX - 1,
        0 <= early <= actions.len(),
    ensures
        Account::reached(actions.take(early)).next_id <= Account::reached(actions).next_id,
    decreases actions.len(),
{
    if early == actions.len() {
        assert(actions.take(early) == actions);
    } else {
        let front = actions.drop_last();
        reached_is_valid(front);
        lemma_next_grows(front, early);
        action_gives_new_ids(Account::reached(front), actions.last());
        assert(front.take(early) == actions.take(early));
    }
}

/// After any run, an order that is left resting gets an id greater than that of
/// every order that was ever held, cancelled and filled ones among them.
pub proof fn resting_order_gets_a_new_id(
    actions: Seq<Action>,
    symbol: Seq<char>,
    is_long: bool,
    size: Double,
    price: Double,
    mark: Double,
    early: int,
    k: int,
)
    requires
        actions.len() < u64::MAX - 1,
        Account::reached(actions).complaint(size, price, mark) is None,
        !super::crosses(is_long, price, mark),
        0 <= early <= actions.len(),
        0 <= k < Account::reached(actions.take(early)).orders.len(),
    ensures
        ({
            let after = Account::reached(actions).placed(
                symbol,
                is_long,
                true,
                size,
                price,
                mark,
            );
            &&& after.orders.last() == (Order {
                id: Account::reached(actions).next_id,
                symbol,
                is_long,
                size,
                price,
            })
            &&& after.orders.last().id >= 1
            &&& Account::reached(actions.take(early)).orders[k].id < after.orders.last().id
        }),
{
    reached_is_valid(actions);
    reached_is_valid(actions.take(early));
    lemma_next_grows(actions, early);
    let held = Account::reached(actions.take(early));
    assert(held.orders[k].id < held.next_id);
}

/// No id is used twice: once an order is gone, whether cancelled or filled, none
/// of its id rests ever again.
pub proof fn ids_are_never_reused(actions: Seq<Action>, held: int, gone: int, id: u64)
    requires
        actions.len() < u64::MAX - 1,
        0 <= held <= gone <= actions.len(),
        Account::reached(actions.take(held)).holds(id),
        !Account::reached(actions.take(gone)).holds(id),
    ensures
        !Account::reached(actions).holds(id),
{
    let first = Account::reached(actions.take(held));
    let middle = Account::reached(actions.take(gone));
    let last = Account::reached(actions);
    reached_is_valid(actions.take(held));
    lemma_next_grows(actions.take(gone), held);
    assert(actions.take(gone).take(held) == actions.take(held));
    if last.holds(id) {
        let i = choose|i: int| 0 <= i < last.orders.len() && (#[trigger] last.orders[i]).id == id;
        let j = choose|j: int| 0 <= j < first.orders.len() && (#[trigger] first.orders[j]).id == id;
        assert(first.orders[j].id < first.next_id);
        assert(last.orders.contains(last.orders[i]));
        lemma_rested_since(actions, gone, last.orders[i]);
        assert(middle.orders.contains(last.orders[i]));
        let k = choose|k: int| 0 <= k < middle.orders.len() && middle.orders[k] == last.orders[i];
        assert(middle.orders[k].id == id);
    }
}

} // verus!
