//! Local paper matching. Fills against the live mark; nothing here signs.

use crate::double::convert::ONE_BITS;
use crate::double::{Double, SIGN_BIT};
use crate::market::EPSILON;
use crate::text;
use vstd::prelude::*;

pub mod equity;
pub mod laws;
pub mod orders;
pub mod runs;

verus! {

/// Ten thousand.
pub const STARTING_CASH: u64 = 0x40c3_8800_0000_0000;

/// Ten.
pub const DEFAULT_LEVERAGE: u64 = 0x4024_0000_0000_0000;

/// What counts as nothing, a billionth.
pub const DUST: u64 = 0x3e11_2e0b_e826_d695;

/// How many fills an account remembers.
pub const FILL_LIMIT: usize = 40;

/// What an account holds of a market; a negative size is short.
#[derive(Debug)]
pub struct PaperPosition {
    pub symbol: String,
    pub size: Double,
    pub entry: Double,
    pub leverage: Double,
}

/// A limit order that rests until the mark crosses it.
#[derive(Debug)]
pub struct PaperOrder {
    pub id: u64,
    pub symbol: String,
    pub is_long: bool,
    pub size: Double,
    pub price: Double,
}

#[derive(Debug)]
pub struct PaperFill {
    pub symbol: String,
    pub is_long: bool,
    pub size: Double,
    pub price: Double,
    pub realized: Double,
}

#[derive(Debug)]
pub struct PaperAccount {
    pub cash: Double,
    pub leverage: Double,
    pub positions: Vec<PaperPosition>,
    pub orders: Vec<PaperOrder>,
    pub fills: Vec<PaperFill>,
    pub next_id: u64,
}

/// What a position says.
#[verifier::ext_equal]
pub struct Position {
    pub symbol: Seq<char>,
    pub size: Double,
    pub entry: Double,
    pub leverage: Double,
}

/// What an order says.
#[verifier::ext_equal]
pub struct Order {
    pub id: u64,
    pub symbol: Seq<char>,
    pub is_long: bool,
    pub size: Double,
    pub price: Double,
}

/// What a fill says.
#[verifier::ext_equal]
pub struct Fill {
    pub symbol: Seq<char>,
    pub is_long: bool,
    pub size: Double,
    pub price: Double,
    pub realized: Double,
}

/// What an account says; the newest fill is first.
#[verifier::ext_equal]
pub struct Account {
    pub cash: Double,
    pub leverage: Double,
    pub positions: Seq<Position>,
    pub orders: Seq<Order>,
    pub fills: Seq<Fill>,
    pub next_id: u64,
}

impl View for PaperPosition {
    type V = Position;

    open spec fn view(&self) -> Position {
        Position {
            symbol: self.symbol@,
            size: self.size,
            entry: self.entry,
            leverage: self.leverage,
        }
    }
}

impl View for PaperOrder {
    type V = Order;

    open spec fn view(&self) -> Order {
        Order {
            id: self.id,
            symbol: self.symbol@,
            is_long: self.is_long,
            size: self.size,
            price: self.price,
        }
    }
}

impl View for PaperFill {
    type V = Fill;

    open spec fn view(&self) -> Fill {
        Fill {
            symbol: self.symbol@,
            is_long: self.is_long,
            size: self.size,
            price: self.price,
            realized: self.realized,
        }
    }
}

pub open spec fn positions_view(positions: Seq<PaperPosition>) -> Seq<Position> {
    Seq::new(positions.len(), |i: int| positions[i]@)
}

pub open spec fn orders_view(orders: Seq<PaperOrder>) -> Seq<Order> {
    Seq::new(orders.len(), |i: int| orders[i]@)
}

pub open spec fn fills_view(fills: Seq<PaperFill>) -> Seq<Fill> {
    Seq::new(fills.len(), |i: int| fills[i]@)
}

impl View for PaperAccount {
    type V = Account;

    open spec fn view(&self) -> Account {
        Account {
            cash: self.cash,
            leverage: self.leverage,
            positions: positions_view(self.positions@),
            orders: orders_view(self.orders@),
            fills: fills_view(self.fills@),
            next_id: self.next_id,
        }
    }
}

impl Clone for PaperPosition {
    fn clone(&self) -> (result: PaperPosition)
        ensures
            result@ == self@,
    {
        PaperPosition {
            symbol: self.symbol.clone(),
            size: self.size,
            entry: self.entry,
            leverage: self.leverage,
        }
    }
}

impl Clone for PaperOrder {
    fn clone(&self) -> (result: PaperOrder)
        ensures
            result@ == self@,
    {
        PaperOrder {
            id: self.id,
            symbol: self.symbol.clone(),
            is_long: self.is_long,
            size: self.size,
            price: self.price,
        }
    }
}

impl Clone for PaperFill {
    fn clone(&self) -> (result: PaperFill)
        ensures
            result@ == self@,
    {
        PaperFill {
            symbol: self.symbol.clone(),
            is_long: self.is_long,
            size: self.size,
            price: self.price,
            realized: self.realized,
        }
    }
}

/// A number that is finite and greater than zero.
pub open spec fn usable(x: Double) -> bool {
    x.finite() && x.positive()
}

/// A limit is met by the mark.
pub open spec fn crosses(is_long: bool, limit: Double, mark: Double) -> bool {
    if is_long {
        mark.at_most(limit)
    } else {
        limit.at_most(mark)
    }
}

/// What a size at a price binds.
pub open spec fn margin(size: Double, price: Double, leverage: Double) -> Double {
    size.absolute().product(price).quotient(leverage.larger(Double { bits: ONE_BITS }))
}

/// The sum of what orders bind, from the first on. The sum of none is the
/// negative zero, which changes nothing that it is added to.
pub open spec fn reserved(orders: Seq<Order>, leverage: Double) -> Double
    decreases orders.len(),
{
    if orders.len() == 0 {
        Double { bits: SIGN_BIT }
    } else {
        let last = orders.last();
        reserved(orders.drop_last(), leverage).sum(margin(last.size, last.price, leverage))
    }
}

/// What positions are worth at some prices, from the first on; one without a
/// price counts as nothing.
pub open spec fn unrealized(positions: Seq<Position>, prices: Seq<Option<Double>>) -> Double
    decreases positions.len(),
{
    if positions.len() == 0 {
        Double { bits: SIGN_BIT }
    } else {
        let last = positions.last();
        let worth = match prices[positions.len() - 1] {
            Some(mark) => mark.difference(last.entry).product(last.size),
            None => Double { bits: 0 },
        };
        unrealized(positions.drop_last(), prices).sum(worth)
    }
}

/// `marks` can give this price for a market.
pub open spec fn quote_of<F: Fn(&str) -> Option<Double>>(
    marks: F,
    symbol: Seq<char>,
    price: Option<Double>,
) -> bool {
    exists|name: &str| name@ == symbol && #[trigger] call_ensures(marks, (name,), price)
}

/// `marks` can give these prices for the positions' markets, one by one.
pub open spec fn quotes<F: Fn(&str) -> Option<Double>>(
    marks: F,
    positions: Seq<Position>,
    prices: Seq<Option<Double>>,
) -> bool {
    &&& prices.len() == positions.len()
    &&& forall|i: int|
        0 <= i < prices.len() ==> quote_of(marks, positions[i].symbol, #[trigger] prices[i])
}

/// `marks` gives nothing but the prices that `given` says.
pub open spec fn follows<F: Fn(&str) -> Option<Double>>(
    marks: F,
    given: spec_fn(Seq<char>) -> Option<Double>,
) -> bool {
    forall|name: &str, price: Option<Double>| #[trigger]
        call_ensures(marks, (name,), price) ==> price == given(name@)
}

/// The prices of the positions' markets, one by one.
pub open spec fn prices_by(
    positions: Seq<Position>,
    given: spec_fn(Seq<char>) -> Option<Double>,
) -> Seq<Option<Double>> {
    Seq::new(positions.len(), |i: int| given(positions[i].symbol))
}

/// The place of the first position in a market; the number of positions where
/// there is none.
pub open spec fn place_of(positions: Seq<Position>, symbol: Seq<char>) -> int
    decreases positions.len(),
{
    if positions.len() == 0 {
        0
    } else if positions[0].symbol == symbol {
        0
    } else {
        1 + place_of(positions.drop_first(), symbol)
    }
}

/// A fill goes the way of a position, or meets one of size zero.
pub open spec fn adds(current: Double, signed: Double) -> bool {
    current.same(Double { bits: 0 }) || current.unit_sign().same(signed.unit_sign())
}

/// The entry price after a position has grown: the average, weighted by size.
pub open spec fn grown_entry(position: Position, signed: Double, price: Double) -> Double {
    let current = position.size;
    if current.absolute().below(Double { bits: EPSILON }) {
        price
    } else {
        position.entry.product(current.absolute()).sum(price.product(signed.absolute())).quotient(
            current.sum(signed).absolute(),
        )
    }
}

/// What the closed part of a position gains.
pub open spec fn gain(position: Position, signed: Double, price: Double) -> Double {
    let current = position.size;
    price.difference(position.entry).product(
        current.absolute().smaller(signed.absolute()),
    ).product(current.unit_sign())
}

/// What a fill gains.
pub open spec fn realized(
    positions: Seq<Position>,
    symbol: Seq<char>,
    signed: Double,
    price: Double,
) -> Double {
    let at = place_of(positions, symbol);
    if at < positions.len() && !adds(positions[at].size, signed) {
        gain(positions[at], signed, price)
    } else {
        Double { bits: 0 }
    }
}

/// The positions after a fill.
pub open spec fn positions_after(
    positions: Seq<Position>,
    symbol: Seq<char>,
    signed: Double,
    price: Double,
    leverage: Double,
) -> Seq<Position> {
    let at = place_of(positions, symbol);
    if at >= positions.len() {
        positions.push(Position { symbol, size: signed, entry: price, leverage })
    } else {
        let position = positions[at];
        let size = position.size.sum(signed);
        if adds(position.size, signed) {
            positions.update(
                at,
                Position { size, entry: grown_entry(position, signed, price), ..position },
            )
        } else if size.absolute().below(Double { bits: DUST }) {
            positions.remove(at)
        } else if size.unit_sign().same(position.size.unit_sign()) {
            positions.update(at, Position { size, ..position })
        } else {
            positions.update(at, Position { size, entry: price, ..position })
        }
    }
}

impl Account {
    /// An account at its beginning.
    pub open spec fn opened() -> Account {
        Account {
            cash: Double { bits: STARTING_CASH },
            leverage: Double { bits: DEFAULT_LEVERAGE },
            positions: seq![],
            orders: seq![],
            fills: seq![],
            next_id: 1,
        }
    }

    /// The cash that no order binds.
    pub open spec fn free(self) -> Double {
        self.cash.difference(reserved(self.orders, self.leverage)).larger(Double { bits: 0 })
    }

    /// The cash and what the positions are worth by some prices.
    pub open spec fn equity(self, given: spec_fn(Seq<char>) -> Option<Double>) -> Double {
        self.cash.sum(unrealized(self.positions, prices_by(self.positions, given)))
    }

    /// The fill of an order.
    pub open spec fn fill_of(
        self,
        symbol: Seq<char>,
        is_long: bool,
        size: Double,
        price: Double,
    ) -> Fill {
        let signed = if is_long {
            size
        } else {
            size.negation()
        };
        Fill {
            symbol,
            is_long,
            size,
            price,
            realized: realized(self.positions, symbol, signed, price),
        }
    }

    /// The account after a fill.
    pub open spec fn filled(
        self,
        symbol: Seq<char>,
        is_long: bool,
        size: Double,
        price: Double,
    ) -> Account {
        let signed = if is_long {
            size
        } else {
            size.negation()
        };
        let fill = self.fill_of(symbol, is_long, size, price);
        let fills = seq![fill] + self.fills;
        Account {
            cash: self.cash.sum(fill.realized),
            positions: positions_after(self.positions, symbol, signed, price, self.leverage),
            fills: if fills.len() > FILL_LIMIT {
                fills.take(FILL_LIMIT as int)
            } else {
                fills
            },
            ..self
        }
    }

    /// Why an order is refused, where it is.
    pub open spec fn complaint(self, size: Double, price: Double, mark: Double) -> Option<Seq<char>> {
        let bound = margin(size, price, self.leverage);
        if !usable(size) {
            Some("size must be greater than 0"@)
        } else if !usable(price) {
            Some("price must be greater than 0"@)
        } else if !usable(mark) {
            Some("no mark yet"@)
        } else if self.free().sum(Double { bits: DUST }).below(bound) {
            Some("need "@ + bound.fixed(2) + " USDC margin, available "@ + self.free().fixed(2))
        } else {
            None
        }
    }

    /// The price at which a new order is filled at once, where it is.
    pub open spec fn instant_price(
        is_long: bool,
        is_limit: bool,
        price: Double,
        mark: Double,
    ) -> Option<Double> {
        if !is_limit {
            Some(mark)
        } else if crosses(is_long, price, mark) {
            Some(price)
        } else {
            None
        }
    }

    /// The account after an order that was not refused.
    pub open spec fn placed(
        self,
        symbol: Seq<char>,
        is_long: bool,
        is_limit: bool,
        size: Double,
        price: Double,
        mark: Double,
    ) -> Account {
        let counted = Account { next_id: (self.next_id + 1) as u64, ..self };
        match Account::instant_price(is_long, is_limit, price, mark) {
            Some(at) => counted.filled(symbol, is_long, size, at),
            None => Account {
                orders: self.orders.push(Order { id: self.next_id, symbol, is_long, size, price }),
                ..counted
            },
        }
    }

    /// The account without the orders of an id.
    pub open spec fn cancelled(self, id: u64) -> Account {
        Account { orders: self.orders.filter(|order: Order| order.id != id), ..self }
    }

    /// The account after orders, which it does not hold any more, are filled at
    /// their own prices, one after the other.
    pub open spec fn settled(self, due: Seq<Order>) -> Account
        decreases due.len(),
    {
        if due.len() == 0 {
            self
        } else {
            let order = due.last();
            self.settled(due.drop_last()).filled(
                order.symbol,
                order.is_long,
                order.size,
                order.price,
            )
        }
    }

    /// The fill of each of the orders.
    pub open spec fn settlement(self, due: Seq<Order>) -> Seq<Fill> {
        Seq::new(
            due.len(),
            |i: int|
                self.settled(due.take(i)).fill_of(
                    due[i].symbol,
                    due[i].is_long,
                    due[i].size,
                    due[i].price,
                ),
        )
    }

    /// An order is met by a market's mark.
    pub open spec fn is_due(symbol: Seq<char>, mark: Double) -> spec_fn(Order) -> bool {
        |order: Order| order.symbol == symbol && crosses(order.is_long, order.price, mark)
    }

    /// An order is not met by a market's mark.
    pub open spec fn rests(symbol: Seq<char>, mark: Double) -> spec_fn(Order) -> bool {
        |order: Order| !(order.symbol == symbol && crosses(order.is_long, order.price, mark))
    }

    /// The orders that a market's mark meets; none where the mark is not usable.
    pub open spec fn due(self, symbol: Seq<char>, mark: Double) -> Seq<Order> {
        if usable(mark) {
            self.orders.filter(Account::is_due(symbol, mark))
        } else {
            seq![]
        }
    }

    /// The account without the orders that a market's mark meets.
    pub open spec fn without_due(self, symbol: Seq<char>, mark: Double) -> Account {
        if usable(mark) {
            Account { orders: self.orders.filter(Account::rests(symbol, mark)), ..self }
        } else {
            self
        }
    }

    /// The account after a market's mark.
    pub open spec fn marked(self, symbol: Seq<char>, mark: Double) -> Account {
        self.without_due(symbol, mark).settled(self.due(symbol, mark))
    }
}

pub fn round_usd(value: Double) -> (result: String)
    ensures
        result@ == value.fixed(2),
{
    let mut out: Vec<char> = Vec::new();
    value.push_fixed(&mut out, 2);
    text::text_of(out.as_slice())
}

fn is_usable(x: Double) -> (answer: bool)
    ensures
        answer == usable(x),
{
    x.is_finite() && x.is_positive()
}

pub fn limit_crosses(is_long: bool, limit: Double, mark: Double) -> (answer: bool)
    ensures
        answer == crosses(is_long, limit, mark),
{
    if is_long {
        mark.is_at_most(limit)
    } else {
        limit.is_at_most(mark)
    }
}

pub fn required_margin(size: Double, price: Double, leverage: Double) -> (result: Double)
    ensures
        result == margin(size, price, leverage),
{
    size.abs().times(price).over(leverage.max(Double { bits: ONE_BITS }))
}

fn find_position(positions: &Vec<PaperPosition>, symbol: &str) -> (at: usize)
    ensures
        at == place_of(positions_view(positions@), symbol@),
        at <= positions@.len(),
{
    let ghost all = positions_view(positions@);
    let mut i: usize = 0;
    assert(all.skip(0) == all);
    while i < positions.len()
        invariant
            i <= positions.len(),
            all == positions_view(positions@),
            place_of(all, symbol@) == i + place_of(all.skip(i as int), symbol@),
        decreases positions.len() - i,
    {
        assert(all.skip(i as int)[0] == positions@[i as int]@);
        if text::text_equal(positions[i].symbol.as_str(), symbol) {
            return i;
        }
        assert(all.skip(i as int).drop_first() == all.skip(i + 1));
        i = i + 1;
    }
    i
}

fn goes_along(current: Double, signed: Double) -> (answer: bool)
    ensures
        answer == adds(current, signed),
{
    current.is_same(Double { bits: 0 }) || current.signum().is_same(signed.signum())
}

/// Enters a fill into the positions; gives what it gains.
pub fn apply_fill(
    positions: &mut Vec<PaperPosition>,
    symbol: &str,
    signed_size: Double,
    price: Double,
    leverage: Double,
) -> (gained: Double)
    ensures
        positions_view(final(positions)@) == positions_after(
            positions_view(old(positions)@),
            symbol@,
            signed_size,
            price,
            leverage,
        ),
        gained == realized(positions_view(old(positions)@), symbol@, signed_size, price),
{
    let ghost before = positions_view(positions@);
    let index: usize = find_position(positions, symbol);
    if index >= positions.len() {
        positions.push(
            PaperPosition { symbol: symbol.to_owned(), size: signed_size, entry: price, leverage },
        );
        assert(positions_view(positions@) == before.push(positions@.last()@));
        return Double { bits: 0 };
    }
    let mut position: PaperPosition = positions[index].clone();
    assert(before[index as int] == position@);
    let current: Double = position.size;
    let size: Double = current.plus(signed_size);
    position.size = size;
    if goes_along(current, signed_size) {
        position.entry =
        if current.abs().is_below(Double { bits: EPSILON }) {
            price
        } else {
            position.entry.times(current.abs()).plus(price.times(signed_size.abs())).over(size.abs())
        };
        positions.set(index, position);
        assert(positions_view(positions@) == before.update(index as int, position@));
        return Double { bits: 0 };
    }
    let closing: Double = current.abs().min(signed_size.abs());
    let gained: Double = price.minus(position.entry).times(closing).times(current.signum());
    if size.abs().is_below(Double { bits: DUST }) {
        positions.remove(index);
        assert(positions_view(positions@) == before.remove(index as int));
    } else {
        if !size.signum().is_same(current.signum()) {
            position.entry = price;
        }
        positions.set(index, position);
        assert(positions_view(positions@) == before.update(index as int, position@));
    }
    gained
}

impl Default for PaperAccount {
    fn default() -> (account: PaperAccount)
        ensures
            account@ == Account::opened(),
    {
        PaperAccount::new()
    }
}

impl PaperAccount {
    pub fn new() -> (account: PaperAccount)
        ensures
            account@ == Account::opened(),
            account@.valid(),
    {
        PaperAccount {
            cash: Double { bits: STARTING_CASH },
            leverage: Double { bits: DEFAULT_LEVERAGE },
            positions: Vec::new(),
            orders: Vec::new(),
            fills: Vec::new(),
            next_id: 1,
        }
    }

    pub fn available(&self) -> (result: Double)
        ensures
            result == self@.free(),
    {
        let ghost all = orders_view(self.orders@);
        let mut bound: Double = Double { bits: SIGN_BIT };
        let mut i: usize = 0;
        while i < self.orders.len()
            invariant
                i <= self.orders.len(),
                all == orders_view(self.orders@),
                bound == reserved(all.take(i as int), self.leverage),
            decreases self.orders.len() - i,
        {
            assert(all.take(i + 1).drop_last() == all.take(i as int));
            let order: &PaperOrder = &self.orders[i];
            bound = bound.plus(required_margin(order.size, order.price, self.leverage));
            i = i + 1;
        }
        assert(all.take(all.len() as int) == all);
        self.cash.minus(bound).max(Double { bits: 0 })
    }

    fn fill(&mut self, symbol: &str, is_long: bool, size: Double, price: Double) -> (fill: PaperFill)
        ensures
            final(self)@ == old(self)@.filled(symbol@, is_long, size, price),
            fill@ == old(self)@.fill_of(symbol@, is_long, size, price),
    {
        let signed: Double = if is_long {
            size
        } else {
            size.negate()
        };
        let realized: Double = apply_fill(
            &mut self.positions,
            symbol,
            signed,
            price,
            self.leverage,
        );
        self.cash = self.cash.plus(realized);
        let fill: PaperFill = PaperFill {
            symbol: symbol.to_owned(),
            is_long,
            size,
            price,
            realized,
        };
        let ghost before = fills_view(self.fills@);
        self.fills.insert(0, fill.clone());
        assert(fills_view(self.fills@) == seq![fill@] + before);
        if self.fills.len() > FILL_LIMIT {
            self.fills.truncate(FILL_LIMIT);
            assert(fills_view(self.fills@) == (seq![fill@] + before).take(FILL_LIMIT as int));
        }
        fill
    }

    /// Places an order: it is refused, filled at once, or rests.
    pub fn place(
        &mut self,
        symbol: &str,
        is_long: bool,
        is_limit: bool,
        size: Double,
        price: Double,
        mark: Double,
    ) -> (result: Result<Option<PaperFill>, String>)
        requires
            old(self)@.complaint(size, price, mark) is None ==> old(self)@.next_id < u64::MAX,
        ensures
            old(self)@.valid() ==> final(self)@.valid(),
            match result {
                Err(error) => {
                    &&& old(self)@.complaint(size, price, mark) == Some(error@)
                    &&& final(self)@ == old(self)@
                },
                Ok(fill) => {
                    &&& old(self)@.complaint(size, price, mark) is None
                    &&& final(self)@ == old(self)@.placed(
                        symbol@,
                        is_long,
                        is_limit,
                        size,
                        price,
                        mark,
                    )
                    &&& match (fill, Account::instant_price(is_long, is_limit, price, mark)) {
                        (Some(fill), Some(at)) => fill@ == old(self)@.fill_of(
                            symbol@,
                            is_long,
                            size,
                            at,
                        ),
                        (None, None) => true,
                        _ => false,
                    }
                },
            },
    {
        if !is_usable(size) {
            return Err("size must be greater than 0".to_owned());
        }
        if !is_usable(price) {
            return Err("price must be greater than 0".to_owned());
        }
        if !is_usable(mark) {
            return Err("no mark yet".to_owned());
        }
        let bound: Double = required_margin(size, price, self.leverage);
        let free: Double = self.available();
        if free.plus(Double { bits: DUST }).is_below(bound) {
            let mut out: Vec<char> = Vec::new();
            text::push_text(&mut out, "need ");
            text::push_text(&mut out, round_usd(bound).as_str());
            text::push_text(&mut out, " USDC margin, available ");
            text::push_text(&mut out, round_usd(free).as_str());
            return Err(text::text_of(out.as_slice()));
        }
        proof {
            if self@.valid() {
                laws::placed_is_valid(self@, symbol@, is_long, is_limit, size, price, mark);
            }
        }
        let id: u64 = self.next_id;
        self.next_id = id + 1;
        if !is_limit || limit_crosses(is_long, price, mark) {
            let at: Double = if is_limit {
                price
            } else {
                mark
            };
            Ok(Some(self.fill(symbol, is_long, size, at)))
        } else {
            let ghost before = orders_view(self.orders@);
            self.orders.push(PaperOrder { id, symbol: symbol.to_owned(), is_long, size, price });
            assert(orders_view(self.orders@) == before.push(self.orders@.last()@));
            Ok(None)
        }
    }

    /// Takes back a resting order; says whether there was one.
    pub fn cancel(&mut self, id: u64) -> (found: bool)
        ensures
            old(self)@.valid() ==> final(self)@.valid(),
            final(self)@ == old(self)@.cancelled(id),
            found == exists|i: int|
                0 <= i < old(self)@.orders.len() && (#[trigger] old(self)@.orders[i]).id == id,
    {
        proof {
            if self@.valid() {
                laws::cancelled_is_valid(self@, id);
            }
        }
        let ghost all = orders_view(self.orders@);
        let ghost stays = |order: Order| order.id != id;
        let mut kept: Vec<PaperOrder> = Vec::new();
        let mut found: bool = false;
        let mut i: usize = 0;
        reveal(Seq::filter);
        assert(orders_view(kept@) == all.take(0).filter(stays));
        while i < self.orders.len()
            invariant
                i <= self.orders.len(),
                all == orders_view(self.orders@),
                stays == (|order: Order| order.id != id),
                orders_view(kept@) == all.take(i as int).filter(stays),
                found == exists|j: int| 0 <= j < i && (#[trigger] all[j]).id == id,
            decreases self.orders.len() - i,
        {
            reveal(Seq::filter);
            assert(all.take(i + 1).drop_last() == all.take(i as int));
            assert(all.take(i + 1).last() == all[i as int]);
            let ghost before = orders_view(kept@);
            if self.orders[i].id != id {
                let order: PaperOrder = self.orders[i].clone();
                kept.push(order);
                assert(orders_view(kept@) == before.push(order@));
            } else {
                found = true;
                assert(all[i as int].id == id);
            }
            i = i + 1;
        }
        assert(all.take(all.len() as int) == all);
        self.orders = kept;
        found
    }

    /// Fills the resting orders of a market that its mark meets.
    pub fn mark(&mut self, symbol: &str, mark: Double) -> (fills: Vec<PaperFill>)
        ensures
            old(self)@.valid() ==> final(self)@.valid(),
            final(self)@ == old(self)@.marked(symbol@, mark),
            fills_view(fills@) == old(self)@.without_due(symbol@, mark).settlement(
                old(self)@.due(symbol@, mark),
            ),
    {
        proof {
            if self@.valid() {
                laws::marked_is_valid(self@, symbol@, mark);
            }
        }
        let mut fills: Vec<PaperFill> = Vec::new();
        if !is_usable(mark) {
            assert(fills_view(fills@) == Seq::<Fill>::empty());
            return fills;
        }
        let ghost start = self@;
        let ghost all = orders_view(self.orders@);
        let ghost met = Account::is_due(symbol@, mark);
        let ghost rests = Account::rests(symbol@, mark);
        let mut due: Vec<PaperOrder> = Vec::new();
        let mut left: Vec<PaperOrder> = Vec::new();
        let mut i: usize = 0;
        reveal(Seq::filter);
        assert(orders_view(due@) == all.take(0).filter(met));
        assert(orders_view(left@) == all.take(0).filter(rests));
        while i < self.orders.len()
            invariant
                i <= self.orders.len(),
                all == orders_view(self.orders@),
                met == Account::is_due(symbol@, mark),
                rests == Account::rests(symbol@, mark),
                orders_view(due@) == all.take(i as int).filter(met),
                orders_view(left@) == all.take(i as int).filter(rests),
            decreases self.orders.len() - i,
        {
            reveal(Seq::filter);
            assert(all.take(i + 1).drop_last() == all.take(i as int));
            assert(all.take(i + 1).last() == all[i as int]);
            let ghost due_before = orders_view(due@);
            let ghost left_before = orders_view(left@);
            let order: PaperOrder = self.orders[i].clone();
            assert(all[i as int] == order@);
            if text::text_equal(order.symbol.as_str(), symbol) && limit_crosses(
                order.is_long,
                order.price,
                mark,
            ) {
                due.push(order);
                assert(orders_view(due@) == due_before.push(order@));
            } else {
                left.push(order);
                assert(orders_view(left@) == left_before.push(order@));
            }
            i = i + 1;
        }
        assert(all.take(all.len() as int) == all);
        self.orders = left;
        let ghost base = self@;
        let ghost list = orders_view(due@);
        assert(base == start.without_due(symbol@, mark));
        let mut j: usize = 0;
        assert(list.take(0).len() == 0);
        while j < due.len()
            invariant
                j <= due.len(),
                list == orders_view(due@),
                fills@.len() == j,
                self@ == base.settled(list.take(j as int)),
                forall|k: int|
                    0 <= k < j ==> (#[trigger] fills@[k])@ == base.settlement(list)[k],
            decreases due.len() - j,
        {
            assert(list.take(j + 1).drop_last() == list.take(j as int));
            assert(list.take(j + 1).last() == list[j as int]);
            let order: &PaperOrder = &due[j];
            let fill: PaperFill = self.fill(
                order.symbol.as_str(),
                order.is_long,
                order.size,
                order.price,
            );
            fills.push(fill);
            j = j + 1;
        }
        assert(list.take(list.len() as int) == list);
        assert(fills_view(fills@) == base.settlement(list));
        fills
    }

    /// The cash and what the positions are worth by the prices that `marks` gives.
    pub fn equity<F: Fn(&str) -> Option<Double>>(&self, marks: F) -> (result: Double)
        requires
            forall|symbol: &str| #[trigger] call_requires(marks, (symbol,)),
        ensures
            exists|prices: Seq<Option<Double>>|
                #[trigger] quotes(marks, self@.positions, prices) && result == self@.cash.sum(
                    unrealized(self@.positions, prices),
                ),
            forall|given: spec_fn(Seq<char>) -> Option<Double>| #[trigger]
                follows(marks, given) ==> result == self@.equity(given),
    {
        let ghost all = positions_view(self.positions@);
        let ghost mut prices: Seq<Option<Double>> = seq![];
        let mut total: Double = Double { bits: SIGN_BIT };
        let mut i: usize = 0;
        while i < self.positions.len()
            invariant
                i <= self.positions.len(),
                all == positions_view(self.positions@),
                forall|symbol: &str| #[trigger] call_requires(marks, (symbol,)),
                quotes(marks, all.take(i as int), prices),
                total == unrealized(all.take(i as int), prices),
            decreases self.positions.len() - i,
        {
            let position: &PaperPosition = &self.positions[i];
            let symbol: &str = position.symbol.as_str();
            let price: Option<Double> = marks(symbol);
            let worth: Double = match price {
                Some(mark) => mark.minus(position.entry).times(position.size),
                None => Double { bits: 0 },
            };
            total = total.plus(worth);
            proof {
                let longer = prices.push(price);
                lemma_unrealized_prefix(all.take(i as int), prices, longer);
                assert(all.take(i + 1).drop_last() == all.take(i as int));
                assert(quote_of(marks, all[i as int].symbol, price));
                assert forall|j: int| 0 <= j < i + 1 implies quote_of(
                    marks,
                    all.take(i + 1)[j].symbol,
                    #[trigger] longer[j],
                ) by {
                    if j < i {
                        assert(quote_of(marks, all.take(i as int)[j].symbol, prices[j]));
                    }
                }
                prices = longer;
            }
            i = i + 1;
        }
        assert(all.take(all.len() as int) == all);
        assert(self@.positions == all);
        assert(quotes(marks, self@.positions, prices));
        proof {
            assert forall|given: spec_fn(Seq<char>) -> Option<Double>| #[trigger]
                follows(marks, given) implies prices == prices_by(all, given) by {
                assert forall|j: int| 0 <= j < prices.len() implies prices[j] == given(
                    all[j].symbol,
                ) by {
                    assert(quote_of(marks, all[j].symbol, prices[j]));
                }
                assert(prices =~= prices_by(all, given));
            }
        }
        self.cash.plus(total)
    }
}

proof fn lemma_unrealized_prefix(
    positions: Seq<Position>,
    prices: Seq<Option<Double>>,
    longer: Seq<Option<Double>>,
)
    requires
        positions.len() <= prices.len() <= longer.len(),
        forall|i: int| 0 <= i < prices.len() ==> prices[i] == longer[i],
    ensures
        unrealized(positions, prices) == unrealized(positions, longer),
    decreases positions.len(),
{
    if positions.len() > 0 {
        lemma_unrealized_prefix(positions.drop_last(), prices, longer);
    }
}

} // verus!
