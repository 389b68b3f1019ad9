use std::collections::BTreeMap;
use std::collections::VecDeque;
use vstd::prelude::*;
use vstd::laws_cmp::obeys_cmp;
use vstd::std_specs::btree::increasing_seq;
use vstd::std_specs::btree::key_obeys_cmp_spec;
use vstd::std_specs::iter::IteratorSpec;
use vstd::std_specs::cmp::OrdSpec;

use crate::types::{Fill, Level, Order, Side, Snapshot};

verus! {

/// One side of the book: price -> FIFO queue of resting orders.
pub type Ladder = BTreeMap<u64, VecDeque<Order>>;

/// The book: bids and asks, each a ladder of price levels.
#[derive(Debug)]
pub struct Book {
    pub bids: Ladder,
    pub asks: Ladder,
}

/// Mathematical model of the book: each side maps a price to its queue.
pub struct BookModel {
    pub bids: Map<u64, Seq<Order>>,
    pub asks: Map<u64, Seq<Order>>,
}

/// The model of one ladder.
pub open spec fn ladder_view(m: Ladder) -> Map<u64, Seq<Order>> {
    m@.map_values(|q: VecDeque<Order>| q@)
}

impl View for Book {
    type V = BookModel;

    open spec fn view(&self) -> BookModel {
        BookModel { bids: ladder_view(self.bids), asks: ladder_view(self.asks) }
    }
}

// ---------------------------------------------------------------------------
// Specification of matching
// ---------------------------------------------------------------------------

/// `p` is the lowest price of the ladder `m`.
pub open spec fn is_lowest(m: Map<u64, Seq<Order>>, p: u64) -> bool {
    &&& m.dom().contains(p)
    &&& forall|k: u64| #[trigger] m.dom().contains(k) ==> p <= k
}

/// `p` is the highest price of the ladder `m`.
pub open spec fn is_highest(m: Map<u64, Seq<Order>>, p: u64) -> bool {
    &&& m.dom().contains(p)
    &&& forall|k: u64| #[trigger] m.dom().contains(k) ==> k <= p
}

/// The best price a taker of side `taker_side` can trade against on the
/// opposite ladder `m`: the lowest ask for a buyer, the highest bid for a seller.
pub open spec fn best_price(m: Map<u64, Seq<Order>>, taker_side: Side) -> Option<u64> {
    match taker_side {
        Side::Buy => if exists|p: u64| is_lowest(m, p) {
            Some(choose|p: u64| is_lowest(m, p))
        } else {
            None
        },
        Side::Sell => if exists|p: u64| is_highest(m, p) {
            Some(choose|p: u64| is_highest(m, p))
        } else {
            None
        },
    }
}

/// Whether a taker is willing to trade at `price`.
pub open spec fn crosses(taker: Order, price: u64) -> bool {
    match taker.side {
        Side::Buy => taker.price >= price,
        Side::Sell => taker.price <= price,
    }
}

/// The smaller of two quantities.
pub open spec fn min_u64(a: u64, b: u64) -> u64 {
    if a <= b { a } else { b }
}

/// The order `o` with its quantity replaced by `qty`.
pub open spec fn with_qty(o: Order, qty: u64) -> Order {
    Order { id: o.id, side: o.side, price: o.price, qty }
}

/// Trading a taker against one FIFO level at `price`, front first, until
/// the taker or the level runs out. Gives the level left, the taker left
/// and the fills in the order they happened.
pub open spec fn fill_level(level: Seq<Order>, taker: Order, price: u64) -> (
    Seq<Order>,
    Order,
    Seq<Fill>,
)
    decreases level.len(),
{
    if taker.qty == 0 || level.len() == 0 {
        (level, taker, Seq::empty())
    } else {
        let maker = level[0];
        let q = min_u64(taker.qty, maker.qty);
        let fill = Fill { maker_order_id: maker.id, taker_order_id: taker.id, price, qty: q };
        let taker2 = with_qty(taker, (taker.qty - q) as u64);
        if maker.qty == q {
            let (rest, t, fs) = fill_level(level.drop_first(), taker2, price);
            (rest, t, seq![fill] + fs)
        } else {
            (level.update(0, with_qty(maker, (maker.qty - q) as u64)), taker2, seq![fill])
        }
    }
}

/// Sweeping the opposite ladder `m` with a taker: level by level from the
/// best price while the taker has quantity and the price crosses. A level
/// that is used up leaves the ladder. Gives the ladder left, the taker left
/// and the fills in the order they happened.
pub open spec fn sweep(m: Map<u64, Seq<Order>>, taker: Order) -> (
    Map<u64, Seq<Order>>,
    Order,
    Seq<Fill>,
)
    decreases m.dom().len(),
    when m.dom().finite()
{
    if taker.qty == 0 {
        (m, taker, Seq::empty())
    } else {
        match best_price(m, taker.side) {
            None => (m, taker, Seq::empty()),
            Some(p) => if !crosses(taker, p) {
                (m, taker, Seq::empty())
            } else {
                let (lvl, t2, fs) = fill_level(m[p], taker, p);
                if lvl.len() == 0 {
                    proof {
                        lemma_best_price_in_dom(m, taker.side);
                    }
                    let (m3, t3, fs3) = sweep(m.remove(p), t2);
                    (m3, t3, fs + fs3)
                } else {
                    (m.insert(p, lvl), t2, fs)
                }
            },
        }
    }
}

/// Adding an order to the back of the queue at its price on a ladder.
pub open spec fn rest_in(m: Map<u64, Seq<Order>>, o: Order) -> Map<u64, Seq<Order>> {
    let q = if m.contains_key(o.price) { m[o.price] } else { Seq::empty() };
    m.insert(o.price, q.push(o))
}

/// Resting an order on its own side of the book.
pub open spec fn rest_spec(b: BookModel, o: Order) -> BookModel {
    match o.side {
        Side::Buy => BookModel { bids: rest_in(b.bids, o), asks: b.asks },
        Side::Sell => BookModel { bids: b.bids, asks: rest_in(b.asks, o) },
    }
}

/// The ladder an order trades against.
pub open spec fn opposite(b: BookModel, side: Side) -> Map<u64, Seq<Order>> {
    match side {
        Side::Buy => b.asks,
        Side::Sell => b.bids,
    }
}

/// The book with the ladder opposite to `side` replaced by `m`.
pub open spec fn with_opposite(b: BookModel, side: Side, m: Map<u64, Seq<Order>>) -> BookModel {
    match side {
        Side::Buy => BookModel { bids: b.bids, asks: m },
        Side::Sell => BookModel { bids: m, asks: b.asks },
    }
}

/// What matching `taker` against `b` does: sweep the opposite ladder,
/// then rest the taker's remaining quantity, if any, on its own side.
/// Gives the new book and the fills in execution order.
pub open spec fn match_spec(b: BookModel, taker: Order) -> (BookModel, Seq<Fill>) {
    let (m, t, fs) = sweep(opposite(b, taker.side), taker);
    let b2 = with_opposite(b, taker.side, m);
    if t.qty > 0 {
        (rest_spec(b2, t), fs)
    } else {
        (b2, fs)
    }
}


// ---------------------------------------------------------------------------
// Specification of the aggregated view
// ---------------------------------------------------------------------------

/// Total quantity of a queue, summed front to back.
pub open spec fn level_total(q: Seq<Order>) -> int
    decreases q.len(),
{
    if q.len() == 0 {
        0
    } else {
        level_total(q.drop_last()) + q.last().qty
    }
}

/// Every level's total fits in a `u64`.
pub open spec fn totals_fit(m: Map<u64, Seq<Order>>) -> bool {
    forall|p: u64| #[trigger] m.dom().contains(p) ==> level_total(m[p]) <= u64::MAX
}

/// `ls` lists every level of the ladder `m` exactly once, with its total,
/// in strictly increasing price order, or strictly decreasing if `descending`.
pub open spec fn lists_ladder(m: Map<u64, Seq<Order>>, ls: Seq<Level>, descending: bool) -> bool {
    &&& ls.len() == m.dom().len()
    &&& forall|i: int|
        0 <= i < ls.len() ==> #[trigger] m.dom().contains(ls[i].price) && ls[i].qty == level_total(
            m[ls[i].price],
        )
    &&& forall|i: int, j: int|
        0 <= i < j < ls.len() ==> if descending {
            #[trigger] ls[i].price > #[trigger] ls[j].price
        } else {
            ls[i].price < ls[j].price
        }
}

/// A prefix of a queue never holds more than the whole queue.
pub proof fn lemma_level_total_prefix(q: Seq<Order>, i: int)
    requires
        0 <= i <= q.len(),
    ensures
        0 <= level_total(q.take(i)) <= level_total(q),
    decreases q.len(),
{
    if q.len() > 0 {
        if i == q.len() {
            assert(q.take(i) =~= q);
            lemma_level_total_prefix(q.drop_last(), i - 1);
            assert(q.drop_last().take(i - 1) =~= q.drop_last());
        } else {
            lemma_level_total_prefix(q.drop_last(), i);
            assert(q.drop_last().take(i) =~= q.take(i));
        }
    }
}

/// The best price, when there is one, is a price of the ladder and is its
/// lowest (for a buyer) or highest (for a seller).
pub proof fn lemma_best_price_in_dom(m: Map<u64, Seq<Order>>, side: Side)
    ensures
        best_price(m, side) matches Some(p) ==> m.dom().contains(p) && match side {
            Side::Buy => is_lowest(m, p),
            Side::Sell => is_highest(m, p),
        },
{
}

/// A level is left with orders only once the taker is used up.
pub proof fn lemma_fill_level_rest_nonempty(level: Seq<Order>, taker: Order, price: u64)
    ensures
        fill_level(level, taker, price).0.len() > 0 ==> fill_level(level, taker, price).1.qty == 0,
    decreases level.len(),
{
    if taker.qty > 0 && level.len() > 0 {
        let q = min_u64(taker.qty, level[0].qty);
        if level[0].qty == q {
            lemma_fill_level_rest_nonempty(level.drop_first(), with_qty(taker, (taker.qty - q) as u64), price);
        }
    }
}

// ---------------------------------------------------------------------------
// Trusted access to the ends of a ladder
// ---------------------------------------------------------------------------

/// `BTreeMap::first_key_value`: the entry with the smallest key, `None` when
/// the map is empty. Only its key is kept.
#[verifier::external_body]
fn lowest_price(m: &Ladder) -> (r: Option<u64>)
    ensures
        r is None ==> forall|k: u64| !(#[trigger] m@.dom().contains(k)),
        r matches Some(p) ==> m@.dom().contains(p) && forall|k: u64|
            #[trigger] m@.dom().contains(k) ==> p <= k,
{
    match m.first_key_value() {
        Some((price, _)) => Some(*price),
        None => None,
    }
}

/// `BTreeMap::last_key_value`: the entry with the largest key, `None` when
/// the map is empty. Only its key is kept.
#[verifier::external_body]
fn highest_price(m: &Ladder) -> (r: Option<u64>)
    ensures
        r is None ==> forall|k: u64| !(#[trigger] m@.dom().contains(k)),
        r matches Some(p) ==> m@.dom().contains(p) && forall|k: u64|
            #[trigger] m@.dom().contains(k) ==> k <= p,
{
    match m.last_key_value() {
        Some((price, _)) => Some(*price),
        None => None,
    }
}

/// The best price on the ladder `m` for a taker of side `taker_side`.
fn best_price_of(m: &Ladder, taker_side: Side) -> (r: Option<u64>)
    ensures
        r == best_price(ladder_view(*m), taker_side),
{
    let r = match taker_side {
        Side::Buy => lowest_price(m),
        Side::Sell => highest_price(m),
    };
    let ghost v = ladder_view(*m);
    assert(v.dom() =~= m@.dom());
    proof {
        match r {
            Some(p) => match taker_side {
                Side::Buy => {
                    assert(is_lowest(v, p));
                    let c = choose|q: u64| is_lowest(v, q);
                    assert(c <= p && p <= c);
                },
                Side::Sell => {
                    assert(is_highest(v, p));
                    let c = choose|q: u64| is_highest(v, q);
                    assert(c <= p && p <= c);
                },
            },
            None => {
                assert(forall|q: u64| !is_lowest(v, q));
                assert(forall|q: u64| !is_highest(v, q));
            },
        }
    }
    r
}


/// A key sequence that a ladder reports as increasing is strictly increasing.
proof fn lemma_increasing_keys(keys: Seq<u64>)
    requires
        increasing_seq(keys),
    ensures
        forall|i: int, j: int| 0 <= i < j < keys.len() ==> keys[i] < keys[j],
{
    assert(obeys_cmp::<u64>());
    assert forall|i: int, j: int| 0 <= i < j < keys.len() implies keys[i] < keys[j] by {
        assert(keys[i].cmp_spec(&keys[j]) is Less);
    }
}

/// Total quantity of the queue `q`.
fn queue_total(q: &VecDeque<Order>) -> (t: u64)
    requires
        level_total(q@) <= u64::MAX,
    ensures
        t == level_total(q@),
{
    let mut total: u64 = 0;
    let mut i: usize = 0;
    while i < q.len()
        invariant
            i <= q@.len(),
            level_total(q@) <= u64::MAX,
            total == level_total(q@.take(i as int)),
        decreases q@.len() - i,
    {
        proof {
            lemma_level_total_prefix(q@, i + 1);
            assert(q@.take(i + 1).drop_last() =~= q@.take(i as int));
        }
        total = total + q[i].qty;
        i = i + 1;
    }
    assert(q@.take(i as int) =~= q@);
    total
}

/// The levels of a ladder with their totals, lowest price first.
fn ladder_levels(m: &Ladder) -> (ls: Vec<Level>)
    requires
        totals_fit(ladder_view(*m)),
    ensures
        lists_ladder(ladder_view(*m), ls@, false),
{
    let ghost v = ladder_view(*m);
    let mut ls: Vec<Level> = Vec::new();
    let iter = m.iter();
    proof {
        let r = iter.remaining();
        let keys = r.map_values(|kv: (&u64, &VecDeque<Order>)| *kv.0);
        assert(key_obeys_cmp_spec::<u64>());
        assert(increasing_seq(keys));
        lemma_increasing_keys(keys);
        assert forall|i: int, j: int| 0 <= i < j < r.len() implies *r[i].0 < *r[j].0 by {
            assert(keys[i] == *r[i].0);
            assert(keys[j] == *r[j].0);
        }
    }
    for x in it: iter
        invariant
            totals_fit(v),
            v == ladder_view(*m),
            ls.len() == it.index(),
            it.seq().len() == m@.dom().len(),
            forall|i: int|
                0 <= i < it.seq().len() ==> m@.contains_key(*it.seq()[i].0) && m@[*it.seq()[i].0]
                    == *it.seq()[i].1,
            forall|i: int, j: int|
                0 <= i < j < it.seq().len() ==> *it.seq()[i].0 < *it.seq()[j].0,
            forall|i: int|
                0 <= i < it.index() ==> ls@[i].price == *it.seq()[i].0 && ls@[i].qty
                    == level_total(it.seq()[i].1@),
            forall|i: int|
                0 <= i < ls.len() ==> #[trigger] v.dom().contains(ls@[i].price) && ls@[i].qty
                    == level_total(v[ls@[i].price]),
            forall|i: int, j: int|
                0 <= i < j < ls.len() ==> #[trigger] ls@[i].price < #[trigger] ls@[j].price,
            ls.len() <= m@.dom().len(),
            it.index() == it.seq().len() ==> ls.len() == m@.dom().len(),
    {
        let (price, level) = x;
        assert(m@.contains_key(*price));
        assert(v.dom().contains(*price));
        let qty = queue_total(level);
        ls.push(Level { price: *price, qty });
        assert(v.dom() =~= m@.dom());
    }
    assert(v.dom() =~= m@.dom());
    ls
}

/// Total quantity of the queue `q`, or `None` when it does not fit in a `u64`.
fn queue_total_checked(q: &VecDeque<Order>) -> (t: Option<u64>)
    ensures
        t matches Some(x) ==> x == level_total(q@),
        t is None ==> level_total(q@) > u64::MAX,
{
    let mut total: u64 = 0;
    let mut i: usize = 0;
    while i < q.len()
        invariant
            i <= q@.len(),
            total == level_total(q@.take(i as int)),
        decreases q@.len() - i,
    {
        proof {
            assert(q@.take(i + 1).drop_last() =~= q@.take(i as int));
        }
        match total.checked_add(q[i].qty) {
            Some(x) => total = x,
            None => {
                proof {
                    lemma_level_total_prefix(q@, i + 1);
                }
                return None;
            },
        }
        i = i + 1;
    }
    assert(q@.take(i as int) =~= q@);
    Some(total)
}

/// Whether every level of the ladder has a total that fits in a `u64`.
fn ladder_fits(m: &Ladder) -> (r: bool)
    ensures
        r == totals_fit(ladder_view(*m)),
{
    let ghost v = ladder_view(*m);
    assert(v.dom() =~= m@.dom());
    let iter = m.iter();
    proof {
        assert(key_obeys_cmp_spec::<u64>());
        let r = iter.remaining();
        assert forall|k: u64| #[trigger] m@.contains_key(k) implies exists|i: int|
            0 <= i < r.len() && *r[i].0 == k by {
            assert(r.contains((&k, &m@[k])));
            let i = choose|i: int| 0 <= i < r.len() && r[i] == (&k, &m@[k]);
            assert(*r[i].0 == k);
        }
    }
    for x in it: iter
        invariant
            v == ladder_view(*m),
            v.dom() == m@.dom(),
            forall|i: int|
                0 <= i < it.seq().len() ==> m@.contains_key(*it.seq()[i].0) && m@[*it.seq()[i].0]
                    == *it.seq()[i].1,
            forall|k: u64| #[trigger] m@.contains_key(k) ==> exists|i: int|
                0 <= i < it.seq().len() && *it.seq()[i].0 == k,
            forall|i: int|
                0 <= i < it.index() ==> level_total(v[*#[trigger] it.seq()[i].0]) <= u64::MAX,
    {
        let (price, level) = x;
        match queue_total_checked(level) {
            Some(_) => {},
            None => {
                assert(v.dom().contains(*price));
                return false;
            },
        }
    }
    assert forall|p: u64| #[trigger] v.dom().contains(p) implies level_total(v[p]) <= u64::MAX by {
        assert(m@.contains_key(p));
    }
    true
}

/// The levels `ls` in the opposite order.
fn reversed_levels(ls: &Vec<Level>) -> (r: Vec<Level>)
    ensures
        r@ == ls@.reverse(),
{
    let mut r: Vec<Level> = Vec::new();
    let n = ls.len();
    let mut i: usize = 0;
    while i < n
        invariant
            n == ls@.len(),
            i <= n,
            r@ == ls@.reverse().take(i as int),
        decreases n - i,
    {
        r.push(ls[n - 1 - i]);
        i = i + 1;
        assert(r@ =~= ls@.reverse().take(i as int));
    }
    assert(ls@.reverse().take(n as int) =~= ls@.reverse());
    r
}

impl Book {
    /// An empty book.
    pub fn new() -> (b: Self)
        ensures
            b@.bids == Map::<u64, Seq<Order>>::empty(),
            b@.asks == Map::<u64, Seq<Order>>::empty(),
    {
        let b = Book { bids: BTreeMap::new(), asks: BTreeMap::new() };
        assert(ladder_view(b.bids) =~= Map::<u64, Seq<Order>>::empty());
        assert(ladder_view(b.asks) =~= Map::<u64, Seq<Order>>::empty());
        b
    }

    /// Whether every level's total quantity fits in a `u64`, the condition
    /// under which `snapshot` can add it up.
    pub fn can_snapshot(&self) -> (r: bool)
        ensures
            r == (totals_fit(self@.bids) && totals_fit(self@.asks)),
    {
        ladder_fits(&self.bids) && ladder_fits(&self.asks)
    }

    /// The aggregated book: one entry per price level with the total
    /// quantity resting there; bids highest price first, asks lowest first.
    pub fn snapshot(&self) -> (s: Snapshot)
        requires
            totals_fit(self@.bids),
            totals_fit(self@.asks),
        ensures
            lists_ladder(self@.bids, s.bids@, true),
            lists_ladder(self@.asks, s.asks@, false),
    {
        let ascending_bids = ladder_levels(&self.bids);
        let bids = reversed_levels(&ascending_bids);
        let asks = ladder_levels(&self.asks);
        proof {
            let n = ascending_bids@.len();
            let v = self@.bids;
            assert forall|i: int| 0 <= i < bids@.len() implies #[trigger] v.dom().contains(
                bids@[i].price,
            ) && bids@[i].qty == level_total(v[bids@[i].price]) by {
                assert(bids@[i] == ascending_bids@[n - 1 - i]);
            }
            assert forall|i: int, j: int| 0 <= i < j < bids@.len() implies #[trigger] bids@[i].price
                > #[trigger] bids@[j].price by {
                assert(bids@[i] == ascending_bids@[n - 1 - i]);
                assert(bids@[j] == ascending_bids@[n - 1 - j]);
            }
        }
        Snapshot { bids, asks }
    }

    /// Puts `order` at the back of the queue at its price on its own side.
    fn rest(&mut self, order: Order)
        ensures
            final(self)@ == rest_spec(old(self)@, order),
    {
        match order.side {
            Side::Buy => rest_on(&mut self.bids, order),
            Side::Sell => rest_on(&mut self.asks, order),
        }
    }
}

impl Default for Book {
    fn default() -> (b: Self)
        ensures
            b@.bids == Map::<u64, Seq<Order>>::empty(),
            b@.asks == Map::<u64, Seq<Order>>::empty(),
    {
        Book::new()
    }
}

fn rest_on(m: &mut Ladder, order: Order)
    ensures
        ladder_view(*final(m)) == rest_in(ladder_view(*old(m)), order),
{
    let mut level = match m.remove(&order.price) {
        Some(level) => level,
        None => VecDeque::new(),
    };
    level.push_back(order);
    m.insert(order.price, level);
    assert(ladder_view(*m) =~= rest_in(ladder_view(*old(m)), order));
}

/// Trades `taker` against the queue `level` at `price`, front first,
/// appending each fill to `fills`; gives the taker left.
fn fill_from_level(level: &mut VecDeque<Order>, taker: Order, price: u64, fills: &mut Vec<Fill>) -> (t: Order)
    ensures
        ({
            let (l, t2, fs) = fill_level(old(level)@, taker, price);
            &&& final(level)@ == l
            &&& t == t2
            &&& final(fills)@ == old(fills)@ + fs
        }),
{
    let ghost target = fill_level(level@, taker, price);
    let ghost fills0 = fills@;
    let mut taker = taker;
    loop
        invariant
            ({
                let (l, t2, fs) = fill_level(level@, taker, price);
                &&& l == target.0
                &&& t2 == target.1
                &&& fills0 + target.2 == fills@ + fs
            }),
        ensures
            level@ == target.0,
            taker == target.1,
            fills@ == fills0 + target.2,
        decreases level@.len(), taker.qty,
    {
        if taker.qty == 0 || level.len() == 0 {
            assert(fills@ + Seq::<Fill>::empty() =~= fills@);
            break;
        }
        let maker = level[0];
        let q = if taker.qty <= maker.qty { taker.qty } else { maker.qty };
        let fill = Fill { maker_order_id: maker.id, taker_order_id: taker.id, price, qty: q };
        let ghost before = level@;
        let ghost fills_before = fills@;
        fills.push(fill);
        taker.qty = taker.qty - q;
        level.pop_front();
        if maker.qty != q {
            level.push_front(Order { id: maker.id, side: maker.side, price: maker.price, qty: maker.qty - q });
            assert(level@ =~= before.update(0, with_qty(maker, (maker.qty - q) as u64)));
        } else {
            assert(level@ =~= before.drop_first());
        }
        proof {
            let (l, t2, fs) = fill_level(level@, taker, price);
            assert(fills_before + (seq![fill] + fs) =~= fills@ + fs);
        }
    }
    taker
}

/// Sweeps the ladder `m` with `taker`; gives the taker left and the fills.
fn sweep_ladder(m: &mut Ladder, taker: Order) -> (r: (Order, Vec<Fill>))
    ensures
        ({
            let (m2, t2, fs) = sweep(ladder_view(*old(m)), taker);
            &&& ladder_view(*final(m)) == m2
            &&& r.0 == t2
            &&& r.1@ == fs
        }),
{
    let ghost target = sweep(ladder_view(*m), taker);
    let mut taker = taker;
    let mut fills: Vec<Fill> = Vec::new();
    loop
        invariant
            m@.dom().finite(),
            ({
                let (m2, t2, fs) = sweep(ladder_view(*m), taker);
                &&& m2 == target.0
                &&& t2 == target.1
                &&& fills@ + fs == target.2
            }),
        ensures
            ladder_view(*m) == target.0,
            taker == target.1,
            fills@ == target.2,
        decreases m@.dom().len(), taker.qty,
    {
        let ghost v = ladder_view(*m);
        assert(v.dom() =~= m@.dom());
        assert(fills@ + Seq::<Fill>::empty() =~= fills@);
        if taker.qty == 0 {
            break;
        }
        let price = match best_price_of(m, taker.side) {
            Some(p) => p,
            None => break,
        };
        let cross = match taker.side {
            Side::Buy => taker.price >= price,
            Side::Sell => taker.price <= price,
        };
        if !cross {
            break;
        }
        proof {
            lemma_best_price_in_dom(v, taker.side);
        }
        let mut level = match m.remove(&price) {
            Some(level) => level,
            None => {
                assert(false);
                break;
            },
        };
        let ghost fills_before = fills@;
        let ghost taker_before = taker;
        let ghost level0 = level@;
        let ghost res = fill_level(level@, taker, price);
        taker = fill_from_level(&mut level, taker, price, &mut fills);
        if level.len() == 0 {
            assert(ladder_view(*m) =~= v.remove(price));
            proof {
                let (m3, t3, fs3) = sweep(v.remove(price), taker);
                assert(fills_before + (res.2 + fs3) =~= fills@ + fs3);
            }
        } else {
            proof {
                lemma_fill_level_rest_nonempty(level0, taker_before, price);
            }
            m.insert(price, level);
            assert(ladder_view(*m) =~= v.insert(price, res.0));
            proof {
                assert(fills_before + res.2 =~= fills@ + Seq::<Fill>::empty());
            }
        }
    }
    (taker, fills)
}

/// Matches `taker` against `book` with price-time priority and rests any
/// quantity left; gives the fills in execution order.
pub fn match_order(book: &mut Book, taker: Order) -> (fills: Vec<Fill>)
    ensures
        (final(book)@, fills@) == match_spec(old(book)@, taker),
{
    let ghost b0 = book@;
    let (left, fills) = match taker.side {
        Side::Buy => sweep_ladder(&mut book.asks, taker),
        Side::Sell => sweep_ladder(&mut book.bids, taker),
    };
    assert(book@ == with_opposite(b0, taker.side, sweep(opposite(b0, taker.side), taker).0));
    if left.qty > 0 {
        book.rest(left);
    }
    fills
}

} // verus!
