use matcher::book::{match_order, Book};
use matcher::engine::{BatchEnd, Matcher};
use matcher::types::{Fill, NewOrder, Order, Side};

fn o(id: u64, side: Side, price: u64, qty: u64) -> Order {
    Order { id, side, price, qty }
}

fn filled(fills: &[Fill]) -> u64 {
    fills.iter().map(|f| f.qty).sum()
}

#[test]
fn sell_taker_takes_highest_bid_first() {
    let mut book = Book::new();
    match_order(&mut book, o(1, Side::Buy, 98, 2));
    match_order(&mut book, o(2, Side::Buy, 100, 2));
    match_order(&mut book, o(3, Side::Buy, 99, 2));
    let fills = match_order(&mut book, o(4, Side::Sell, 99, 5));
    assert_eq!(fills.len(), 2);
    assert_eq!(fills[0].maker_order_id, 2);
    assert_eq!(fills[0].price, 100);
    assert_eq!(fills[1].maker_order_id, 3);
    assert_eq!(fills[1].price, 99);
    assert_eq!(filled(&fills), 4);
    let snap = book.snapshot();
    assert_eq!(snap.bids.len(), 1);
    assert_eq!(snap.bids[0].price, 98);
    assert_eq!(snap.asks.len(), 1);
    assert_eq!(snap.asks[0].price, 99);
    assert_eq!(snap.asks[0].qty, 1);
}

#[test]
fn buy_taker_takes_lowest_ask_first() {
    let mut book = Book::new();
    match_order(&mut book, o(1, Side::Sell, 105, 1));
    match_order(&mut book, o(2, Side::Sell, 103, 1));
    match_order(&mut book, o(3, Side::Sell, 104, 1));
    let fills = match_order(&mut book, o(4, Side::Buy, 104, 1));
    assert_eq!(fills.len(), 1);
    assert_eq!(fills[0].maker_order_id, 2);
    assert_eq!(fills[0].price, 103);
}

#[test]
fn fill_is_at_maker_price_not_taker_limit() {
    let mut book = Book::new();
    match_order(&mut book, o(1, Side::Sell, 90, 4));
    let fills = match_order(&mut book, o(2, Side::Buy, 120, 4));
    assert_eq!(fills.len(), 1);
    assert_eq!(fills[0].price, 90);
}

#[test]
fn non_crossing_order_rests_without_trading() {
    let mut book = Book::new();
    match_order(&mut book, o(1, Side::Sell, 101, 5));
    let fills = match_order(&mut book, o(2, Side::Buy, 100, 5));
    assert!(fills.is_empty());
    let snap = book.snapshot();
    assert_eq!(snap.bids.len(), 1);
    assert_eq!(snap.bids[0].price, 100);
    assert_eq!(snap.asks.len(), 1);
    assert_eq!(snap.asks[0].price, 101);
}

#[test]
fn zero_quantity_taker_does_nothing() {
    let mut book = Book::new();
    match_order(&mut book, o(1, Side::Sell, 100, 5));
    let fills = match_order(&mut book, o(2, Side::Buy, 100, 0));
    assert!(fills.is_empty());
    let snap = book.snapshot();
    assert!(snap.bids.is_empty());
    assert_eq!(snap.asks.len(), 1);
    assert_eq!(snap.asks[0].qty, 5);
}

#[test]
fn partially_filled_maker_keeps_its_place() {
    let mut book = Book::new();
    match_order(&mut book, o(1, Side::Sell, 100, 5));
    match_order(&mut book, o(2, Side::Sell, 100, 5));
    let first = match_order(&mut book, o(3, Side::Buy, 100, 3));
    assert_eq!(first.len(), 1);
    assert_eq!(first[0].maker_order_id, 1);
    let second = match_order(&mut book, o(4, Side::Buy, 100, 4));
    assert_eq!(second.len(), 2);
    assert_eq!(second[0].maker_order_id, 1);
    assert_eq!(second[0].qty, 2);
    assert_eq!(second[1].maker_order_id, 2);
    assert_eq!(second[1].qty, 2);
    assert_eq!(book.asks.get(&100).unwrap().len(), 1);
    assert_eq!(book.asks.get(&100).unwrap()[0].qty, 3);
}

#[test]
fn quantity_is_conserved() {
    let mut book = Book::new();
    match_order(&mut book, o(1, Side::Sell, 100, 2));
    match_order(&mut book, o(2, Side::Sell, 101, 3));
    match_order(&mut book, o(3, Side::Sell, 105, 3));
    let taker = o(4, Side::Buy, 102, 9);
    let fills = match_order(&mut book, taker);
    let traded = filled(&fills);
    assert_eq!(traded, 5);
    assert!(fills.iter().all(|f| f.taker_order_id == 4));
    let resting = book.bids.get(&102).unwrap();
    assert_eq!(resting.len(), 1);
    assert_eq!(resting[0].id, 4);
    assert_eq!(resting[0].qty, taker.qty - traded);
}

#[test]
fn book_never_crosses() {
    let mut book = Book::new();
    let orders = [
        o(1, Side::Buy, 99, 3),
        o(2, Side::Sell, 101, 3),
        o(3, Side::Buy, 102, 1),
        o(4, Side::Sell, 98, 10),
        o(5, Side::Buy, 100, 4),
        o(6, Side::Sell, 100, 2),
    ];
    for ord in orders {
        let fills = match_order(&mut book, ord);
        assert!(fills.iter().all(|f| f.qty > 0));
        let best_bid = book.bids.keys().next_back().copied();
        let best_ask = book.asks.keys().next().copied();
        if let (Some(b), Some(a)) = (best_bid, best_ask) {
            assert!(b < a);
        }
        for level in book.bids.values().chain(book.asks.values()) {
            assert!(!level.is_empty());
            assert!(level.iter().all(|r| r.qty > 0));
        }
    }
}

#[test]
fn snapshot_orders_levels_and_sums_quantities() {
    let mut book = Book::new();
    match_order(&mut book, o(1, Side::Buy, 97, 1));
    match_order(&mut book, o(2, Side::Buy, 99, 2));
    match_order(&mut book, o(3, Side::Buy, 99, 3));
    match_order(&mut book, o(4, Side::Sell, 103, 4));
    match_order(&mut book, o(5, Side::Sell, 101, 5));
    match_order(&mut book, o(6, Side::Sell, 101, 6));
    assert!(book.can_snapshot());
    let snap = book.snapshot();
    let bids: Vec<(u64, u64)> = snap.bids.iter().map(|l| (l.price, l.qty)).collect();
    let asks: Vec<(u64, u64)> = snap.asks.iter().map(|l| (l.price, l.qty)).collect();
    assert_eq!(bids, vec![(99, 5), (97, 1)]);
    assert_eq!(asks, vec![(101, 11), (103, 4)]);
}

#[test]
fn level_total_overflow_is_detected() {
    let mut book = Book::new();
    match_order(&mut book, o(1, Side::Sell, 100, u64::MAX));
    assert!(book.can_snapshot());
    match_order(&mut book, o(2, Side::Sell, 100, 1));
    assert!(!book.can_snapshot());
}

#[test]
fn default_book_is_empty() {
    let book = Book::default();
    let snap = book.snapshot();
    assert!(snap.bids.is_empty());
    assert!(snap.asks.is_empty());
}

#[test]
fn matcher_publishes_only_after_orders() {
    let mut m = Matcher::new();
    assert!(matches!(m.finish_batch(), BatchEnd::Idle));
    let fills = m.submit(o(1, Side::Sell, 100, 5));
    assert!(fills.is_empty());
    let fills = m.submit(o(2, Side::Buy, 100, 2));
    assert_eq!(fills.len(), 1);
    match m.finish_batch() {
        BatchEnd::Publish(snap) => {
            assert!(snap.bids.is_empty());
            assert_eq!(snap.asks.len(), 1);
            assert_eq!(snap.asks[0].qty, 3);
        }
        _ => panic!("expected a snapshot"),
    }
    assert!(matches!(m.finish_batch(), BatchEnd::Idle));
}

#[test]
fn matcher_reports_overflowing_totals() {
    let mut m = Matcher::new();
    m.submit(o(1, Side::Buy, 100, u64::MAX));
    m.submit(o(2, Side::Buy, 100, u64::MAX));
    assert!(matches!(m.finish_batch(), BatchEnd::TotalsOverflow));
    assert!(matches!(m.finish_batch(), BatchEnd::Idle));
}

#[test]
fn new_order_needs_positive_price_and_quantity() {
    let ok = NewOrder { side: Side::Buy, price: 10, qty: 1 };
    assert!(ok.is_acceptable());
    assert!(!NewOrder { side: Side::Buy, price: 0, qty: 1 }.is_acceptable());
    assert!(!NewOrder { side: Side::Sell, price: 10, qty: 0 }.is_acceptable());
    let order = ok.into_order(42);
    assert_eq!(order.id, 42);
    assert_eq!(order.side, Side::Buy);
    assert_eq!(order.price, 10);
    assert_eq!(order.qty, 1);
}
