//! Properties that hold of every match: what is conserved, which orders
//! trade first, and what the book looks like afterwards.
use vstd::prelude::*;

use crate::book::{
    BookModel, best_price, crosses, fill_level, lemma_best_price_in_dom, lemma_fill_level_rest_nonempty,
    level_total, match_spec, min_u64, opposite, rest_in, rest_spec, sweep, with_opposite, with_qty,
    is_lowest, is_highest, lists_ladder, Book,
};
use crate::types::{Fill, Level, Order, Side};

verus! {

/// Total quantity carried by a sequence of fills.
pub open spec fn fill_total(fs: Seq<Fill>) -> int
    decreases fs.len(),
{
    if fs.len() == 0 {
        0
    } else {
        fs[0].qty + fill_total(fs.drop_first())
    }
}

/// Every order of a ladder rests at its own price, on `side`, with some
/// quantity left, and no level is empty.
pub open spec fn ladder_wf(m: Map<u64, Seq<Order>>, side: Side) -> bool {
    forall|p: u64| #[trigger] m.dom().contains(p) ==> queue_wf(m[p], p, side)
}

/// A queue of resting orders at `price` on `side`: not empty, and every
/// order has that price and side and a positive quantity.
pub open spec fn queue_wf(q: Seq<Order>, price: u64, side: Side) -> bool {
    &&& q.len() > 0
    &&& forall|i: int|
        0 <= i < q.len() ==> (#[trigger] q[i]).price == price && q[i].side == side && q[i].qty > 0
}

/// No bid is at or above any ask.
pub open spec fn uncrossed(b: BookModel) -> bool {
    forall|pb: u64, pa: u64|
        #[trigger] b.bids.dom().contains(pb) && #[trigger] b.asks.dom().contains(pa) ==> pb < pa
}

/// A well-formed book, as every sequence of matches from an empty book leaves it.
pub open spec fn book_wf(b: BookModel) -> bool {
    &&& ladder_wf(b.bids, Side::Buy)
    &&& ladder_wf(b.asks, Side::Sell)
    &&& uncrossed(b)
}

pub open spec fn opposite_side(s: Side) -> Side {
    match s {
        Side::Buy => Side::Sell,
        Side::Sell => Side::Buy,
    }
}

// ---------------------------------------------------------------------------
// Arithmetic on totals
// ---------------------------------------------------------------------------

proof fn lemma_fill_total_concat(a: Seq<Fill>, b: Seq<Fill>)
    ensures
        fill_total(a + b) == fill_total(a) + fill_total(b),
    decreases a.len(),
{
    if a.len() > 0 {
        assert((a + b).drop_first() =~= a.drop_first() + b);
        lemma_fill_total_concat(a.drop_first(), b);
    } else {
        assert(a + b =~= b);
    }
}

proof fn lemma_level_total_front(q: Seq<Order>)
    requires
        q.len() > 0,
    ensures
        level_total(q) == q[0].qty + level_total(q.drop_first()),
    decreases q.len(),
{
    if q.len() > 1 {
        lemma_level_total_front(q.drop_last());
        assert(q.drop_last().drop_first() =~= q.drop_first().drop_last());
        assert(q.drop_first().last() == q.last());
        assert(q.drop_last()[0] == q[0]);
    } else {
        assert(q.drop_first().len() == 0);
        assert(q.drop_last().len() == 0);
        assert(level_total(q.drop_first()) == 0);
        assert(level_total(q.drop_last()) == 0);
    }
}

// ---------------------------------------------------------------------------
// One level
// ---------------------------------------------------------------------------

/// What trading against one level does: the taker keeps its id, side and
/// price; what the fills carry leaves both the taker and the level; every
/// fill is at the level's price, names the taker, and names the makers in
/// queue order; a well-formed queue stays well-formed (or empties) and
/// gives only fills of positive quantity.
pub proof fn lemma_fill_level(level: Seq<Order>, taker: Order, price: u64)
    ensures
        ({
            let (l, t, fs) = fill_level(level, taker, price);
            &&& t == with_qty(taker, t.qty)
            &&& fill_total(fs) + t.qty == taker.qty
            &&& level_total(level) == level_total(l) + fill_total(fs)
            &&& fs.len() <= level.len()
            &&& forall|k: int|
                0 <= k < fs.len() ==> (#[trigger] fs[k]).price == price && fs[k].taker_order_id
                    == taker.id && fs[k].maker_order_id == level[k].id
            &&& taker.qty == 0 ==> fs.len() == 0 && l == level
            &&& l.len() > 0 ==> t.qty == 0
            &&& forall|s: Side, p: u64|
                queue_wf(level, p, s) ==> l.len() == 0 || queue_wf(l, p, s)
            &&& forall|s: Side, p: u64|
                queue_wf(level, p, s) ==> forall|k: int|
                    0 <= k < fs.len() ==> (#[trigger] fs[k]).qty > 0
        }),
    decreases level.len(),
{
    lemma_fill_level_rest_nonempty(level, taker, price);
    if taker.qty == 0 || level.len() == 0 {
        assert(fill_total(Seq::<Fill>::empty()) == 0);
    } else {
        let maker = level[0];
        let q = min_u64(taker.qty, maker.qty);
        let fill = Fill { maker_order_id: maker.id, taker_order_id: taker.id, price, qty: q };
        let taker2 = with_qty(taker, (taker.qty - q) as u64);
        lemma_level_total_front(level);
        if maker.qty == q {
            let rest = level.drop_first();
            lemma_fill_level(rest, taker2, price);
            let (l, t, fs) = fill_level(rest, taker2, price);
            lemma_fill_total_concat(seq![fill], fs);
            assert((seq![fill] + fs).drop_first() =~= fs);
            assert forall|k: int| 0 <= k < fs.len() + 1 implies (#[trigger] (seq![fill] + fs)[k]).price == price
                && (seq![fill] + fs)[k].taker_order_id == taker.id && (seq![fill] + fs)[k].maker_order_id
                == level[k].id by {
                if k > 0 {
                    assert((seq![fill] + fs)[k] == fs[k - 1]);
                }
            }
            assert forall|s: Side, p: u64| queue_wf(level, p, s) implies l.len() == 0 || queue_wf(l, p, s) by {
                if queue_wf(level, p, s) && rest.len() > 0 {
                    assert forall|i: int| 0 <= i < rest.len() implies (#[trigger] rest[i]).price == p
                        && rest[i].side == s && rest[i].qty > 0 by {
                        assert(rest[i] == level[i + 1]);
                    }
                }
            }
            assert forall|s: Side, p: u64| queue_wf(level, p, s) implies forall|k: int|
                0 <= k < (seq![fill] + fs).len() ==> (#[trigger] (seq![fill] + fs)[k]).qty > 0 by {
                if queue_wf(level, p, s) {
                    assert(maker.qty > 0);
                    if rest.len() > 0 {
                        assert forall|i: int| 0 <= i < rest.len() implies (#[trigger] rest[i]).price == p
                            && rest[i].side == s && rest[i].qty > 0 by {
                            assert(rest[i] == level[i + 1]);
                        }
                        assert(queue_wf(rest, p, s));
                    }
                    assert forall|k: int| 0 <= k < (seq![fill] + fs).len() implies (#[trigger] (seq![fill]
                        + fs)[k]).qty > 0 by {
                        if k > 0 {
                            assert((seq![fill] + fs)[k] == fs[k - 1]);
                        }
                    }
                }
            }
        } else {
            let l = level.update(0, with_qty(maker, (maker.qty - q) as u64));
            lemma_fill_total_concat(seq![fill], Seq::empty());
            assert(seq![fill].drop_first() =~= Seq::<Fill>::empty());
            lemma_level_total_front(l);
            assert(l.drop_first() =~= level.drop_first());
        }
    }
}

// ---------------------------------------------------------------------------
// A whole ladder
// ---------------------------------------------------------------------------

/// `a` is at least as good a price as `b` for a taker on `side`:
/// no higher for a buyer, no lower for a seller.
pub open spec fn at_least_as_good(side: Side, a: u64, b: u64) -> bool {
    match side {
        Side::Buy => a <= b,
        Side::Sell => a >= b,
    }
}

/// A finite ladder with a level has a lowest and a highest price.
pub proof fn lemma_ladder_has_ends(m: Map<u64, Seq<Order>>, x: u64)
    requires
        m.dom().finite(),
        m.dom().contains(x),
    ensures
        exists|p: u64| is_lowest(m, p),
        exists|p: u64| is_highest(m, p),
    decreases m.dom().len(),
{
    let r = m.remove(x);
    if r.dom().len() == 0 {
        assert forall|k: u64| #[trigger] m.dom().contains(k) implies k == x by {
            if k != x {
                assert(r.dom().contains(k));
            }
        }
        assert(is_lowest(m, x));
        assert(is_highest(m, x));
    } else {
        let y = r.dom().choose();
        assert(r.dom().contains(y));
        lemma_ladder_has_ends(r, y);
        let lo = choose|p: u64| is_lowest(r, p);
        let hi = choose|p: u64| is_highest(r, p);
        if x < lo {
            assert(is_lowest(m, x));
        } else {
            assert(is_lowest(m, lo));
        }
        if x > hi {
            assert(is_highest(m, x));
        } else {
            assert(is_highest(m, hi));
        }
    }
}

/// What sweeping a finite ladder does: the taker keeps its id, side and
/// price and loses exactly what the fills carry; the ladder only loses
/// levels; every fill names the taker, is at a price of the ladder that
/// the taker accepts, comes no later than any better-priced fill, and is at
/// least as good as every level left; a taker with quantity left accepts no
/// level left; a well-formed ladder stays well-formed and gives only fills
/// of positive quantity.
pub proof fn lemma_sweep(m: Map<u64, Seq<Order>>, taker: Order)
    requires
        m.dom().finite(),
    ensures
        ({
            let (m2, t, fs) = sweep(m, taker);
            &&& m2.dom().finite()
            &&& t == with_qty(taker, t.qty)
            &&& fill_total(fs) + t.qty == taker.qty
            &&& m2.dom().subset_of(m.dom())
            &&& forall|k: int|
                0 <= k < fs.len() ==> (#[trigger] fs[k]).taker_order_id == taker.id && crosses(
                    taker,
                    fs[k].price,
                ) && m.dom().contains(fs[k].price)
            &&& forall|i: int, j: int|
                0 <= i < j < fs.len() ==> at_least_as_good(
                    taker.side,
                    #[trigger] fs[i].price,
                    #[trigger] fs[j].price,
                )
            &&& forall|k: int, p: u64|
                0 <= k < fs.len() && #[trigger] m2.dom().contains(p) ==> at_least_as_good(
                    taker.side,
                    #[trigger] fs[k].price,
                    p,
                )
            &&& t.qty > 0 ==> forall|p: u64| #[trigger] m2.dom().contains(p) ==> !crosses(taker, p)
            &&& taker.qty == 0 ==> fs.len() == 0 && m2 == m
            &&& forall|s: Side|
                #[trigger] ladder_wf(m, s) ==> ladder_wf(m2, s) && forall|k: int|
                    0 <= k < fs.len() ==> (#[trigger] fs[k]).qty > 0
        }),
    decreases m.dom().len(),
{
    let (m2, t, fs) = sweep(m, taker);
    assert(fill_total(Seq::<Fill>::empty()) == 0);
    if taker.qty == 0 {
    } else {
        lemma_best_price_in_dom(m, taker.side);
        match best_price(m, taker.side) {
            None => {
                if m.dom().len() > 0 {
                    let x = m.dom().choose();
                    lemma_ladder_has_ends(m, x);
                }
                assert(m.dom() =~= Set::<u64>::empty());
            },
            Some(p) => {
                if !crosses(taker, p) {
                } else {
                    let (lvl, t2, fs1) = fill_level(m[p], taker, p);
                    lemma_fill_level(m[p], taker, p);
                    if lvl.len() == 0 {
                        let r = m.remove(p);
                        lemma_sweep(r, t2);
                        let (m3, t3, fs3) = sweep(r, t2);
                        assert(fs == fs1 + fs3);
                        lemma_fill_total_concat(fs1, fs3);
                        assert forall|k: int| 0 <= k < fs.len() implies (#[trigger] fs[k]).taker_order_id
                            == taker.id && crosses(taker, fs[k].price) && m.dom().contains(
                            fs[k].price,
                        ) by {
                            if k >= fs1.len() {
                                assert(fs[k] == fs3[k - fs1.len()]);
                            }
                        }
                        assert forall|i: int, j: int| 0 <= i < j < fs.len() implies at_least_as_good(
                            taker.side,
                            #[trigger] fs[i].price,
                            #[trigger] fs[j].price,
                        ) by {
                            if j >= fs1.len() {
                                assert(fs[j] == fs3[j - fs1.len()]);
                                assert(r.dom().contains(fs[j].price));
                                if i >= fs1.len() {
                                    assert(fs[i] == fs3[i - fs1.len()]);
                                }
                            }
                        }
                        assert forall|k: int, q: u64| 0 <= k < fs.len() && #[trigger] m2.dom().contains(
                            q,
                        ) implies at_least_as_good(taker.side, #[trigger] fs[k].price, q) by {
                            if k >= fs1.len() {
                                assert(fs[k] == fs3[k - fs1.len()]);
                            } else {
                                assert(r.dom().contains(q));
                            }
                        }
                        assert forall|s: Side| #[trigger] ladder_wf(m, s) implies ladder_wf(m2, s)
                            && forall|k: int| 0 <= k < fs.len() ==> (#[trigger] fs[k]).qty > 0 by {
                            assert(queue_wf(m[p], p, s));
                            assert(ladder_wf(r, s));
                            assert forall|k: int| 0 <= k < fs.len() implies (#[trigger] fs[k]).qty > 0 by {
                                if k >= fs1.len() {
                                    assert(fs[k] == fs3[k - fs1.len()]);
                                }
                            }
                        }
                    } else {
                        assert forall|s: Side| #[trigger] ladder_wf(m, s) implies ladder_wf(m2, s)
                            && forall|k: int| 0 <= k < fs.len() ==> (#[trigger] fs[k]).qty > 0 by {
                            assert(queue_wf(m[p], p, s));
                        }
                        assert(m2.dom() =~= m.dom());
                    }
                }
            },
        }
    }
}

proof fn lemma_fill_total_nonneg(fs: Seq<Fill>)
    ensures
        fill_total(fs) >= 0,
    decreases fs.len(),
{
    if fs.len() > 0 {
        lemma_fill_total_nonneg(fs.drop_first());
    }
}

// ---------------------------------------------------------------------------
// The book
// ---------------------------------------------------------------------------

/// The ladder an order of `side` rests on.
pub open spec fn own_ladder(b: BookModel, side: Side) -> Map<u64, Seq<Order>> {
    match side {
        Side::Buy => b.bids,
        Side::Sell => b.asks,
    }
}

proof fn lemma_book_finite(book: &Book)
    ensures
        book@.bids.dom().finite(),
        book@.asks.dom().finite(),
{
    assert(book@.bids.dom() =~= book.bids@.dom());
    assert(book@.asks.dom() =~= book.asks@.dom());
}

/// Quantity is conserved by a match: the fills carry no more than the
/// taker's quantity and all name the taker; whatever they do not carry
/// rests on the taker's own side, at the back of the queue at its price,
/// as the taker with that quantity; a taker filled in full leaves its own
/// side as it was.
pub proof fn law_match_conserves_quantity(book: Book, taker: Order)
    ensures
        ({
            let (b2, fs) = match_spec(book@, taker);
            let filled = fill_total(fs);
            &&& 0 <= filled <= taker.qty
            &&& forall|k: int| 0 <= k < fs.len() ==> (#[trigger] fs[k]).taker_order_id == taker.id
            &&& filled < taker.qty ==> own_ladder(b2, taker.side) == rest_in(
                own_ladder(book@, taker.side),
                with_qty(taker, (taker.qty - filled) as u64),
            )
            &&& filled == taker.qty ==> own_ladder(b2, taker.side) == own_ladder(book@, taker.side)
        }),
{
    lemma_book_finite(&book);
    lemma_sweep(opposite(book@, taker.side), taker);
    let (m, t, fs) = sweep(opposite(book@, taker.side), taker);
    lemma_fill_total_nonneg(fs);
}

/// Price priority: every fill is at a price that was on the opposite side
/// and that the taker accepts; fills come best price first; no level left
/// on the opposite side is better than any fill; and when the taker is not
/// filled in full, no level left on the opposite side is one it accepts.
pub proof fn law_match_price_priority(book: Book, taker: Order)
    ensures
        ({
            let (b2, fs) = match_spec(book@, taker);
            let before = opposite(book@, taker.side);
            let after = opposite(b2, taker.side);
            &&& forall|k: int|
                0 <= k < fs.len() ==> crosses(taker, (#[trigger] fs[k]).price) && before.dom().contains(
                    fs[k].price,
                )
            &&& forall|i: int, j: int|
                0 <= i < j < fs.len() ==> at_least_as_good(
                    taker.side,
                    #[trigger] fs[i].price,
                    #[trigger] fs[j].price,
                )
            &&& forall|k: int, p: u64|
                0 <= k < fs.len() && #[trigger] after.dom().contains(p) ==> at_least_as_good(
                    taker.side,
                    #[trigger] fs[k].price,
                    p,
                )
            &&& after.dom().subset_of(before.dom())
            &&& fill_total(fs) < taker.qty ==> forall|p: u64|
                #[trigger] after.dom().contains(p) ==> !crosses(taker, p)
        }),
{
    lemma_book_finite(&book);
    lemma_sweep(opposite(book@, taker.side), taker);
}

/// The empty book is well-formed.
pub proof fn law_empty_book_wf()
    ensures
        book_wf(BookModel { bids: Map::empty(), asks: Map::empty() }),
{
}

/// Matching keeps a well-formed book well-formed (in particular never
/// crossed), and against such a book every fill has a positive quantity.
pub proof fn law_match_preserves_wf(book: Book, taker: Order)
    requires
        book_wf(book@),
    ensures
        book_wf(match_spec(book@, taker).0),
        forall|k: int|
            0 <= k < match_spec(book@, taker).1.len() ==> (#[trigger] match_spec(book@, taker).1[k]).qty
                > 0,
{
    let b = book@;
    lemma_book_finite(&book);
    let opp = opposite(b, taker.side);
    lemma_sweep(opp, taker);
    let (m, t, fs) = sweep(opp, taker);
    let b2 = with_opposite(b, taker.side, m);
    assert(ladder_wf(opp, opposite_side(taker.side)));
    assert(ladder_wf(m, opposite_side(taker.side)));
    assert(uncrossed(b2));
    if t.qty > 0 {
        let own = own_ladder(b2, taker.side);
        let own2 = rest_in(own, t);
        assert(ladder_wf(own, taker.side));
        assert forall|p: u64| #[trigger] own2.dom().contains(p) implies queue_wf(own2[p], p, taker.side) by {
            if p == t.price {
                let q = if own.contains_key(p) { own[p] } else { Seq::empty() };
                if own.contains_key(p) {
                    assert(queue_wf(own[p], p, taker.side));
                }
                assert forall|i: int| 0 <= i < q.push(t).len() implies (#[trigger] q.push(t)[i]).price
                    == p && q.push(t)[i].side == taker.side && q.push(t)[i].qty > 0 by {
                    if i < q.len() {
                        assert(q.push(t)[i] == q[i]);
                    }
                }
            } else {
                assert(own.dom().contains(p));
            }
        }
        let b3 = rest_spec(b2, t);
        assert forall|pb: u64, pa: u64| #[trigger] b3.bids.dom().contains(pb) && #[trigger] b3.asks.dom().contains(
            pa,
        ) implies pb < pa by {
            match taker.side {
                Side::Buy => {
                    if pb == t.price && !b2.bids.dom().contains(pb) {
                        assert(m.dom().contains(pa));
                        assert(!crosses(taker, pa));
                    } else if pb == t.price {
                        assert(b2.bids.dom().contains(pb));
                    }
                },
                Side::Sell => {
                    if pa == t.price && !b2.asks.dom().contains(pa) {
                        assert(m.dom().contains(pb));
                        assert(!crosses(taker, pb));
                    } else if pa == t.price {
                        assert(b2.asks.dom().contains(pa));
                    }
                },
            }
        }
    }
}

// ---------------------------------------------------------------------------
// Time priority
// ---------------------------------------------------------------------------

/// How many of the first `n` fills are at `price`.
pub open spec fn fills_at_before(fs: Seq<Fill>, n: int, price: u64) -> nat
    decreases n,
{
    if n <= 0 {
        0
    } else {
        fills_at_before(fs, n - 1, price) + if fs[n - 1].price == price {
            1nat
        } else {
            0nat
        }
    }
}

proof fn lemma_fills_at_before_uniform(fs: Seq<Fill>, n: int, price: u64)
    requires
        0 <= n <= fs.len(),
        forall|k: int| 0 <= k < fs.len() ==> (#[trigger] fs[k]).price == price,
    ensures
        fills_at_before(fs, n, price) == n,
    decreases n,
{
    if n > 0 {
        lemma_fills_at_before_uniform(fs, n - 1, price);
    }
}

proof fn lemma_fills_at_before_concat(a: Seq<Fill>, b: Seq<Fill>, n: int, price: u64)
    requires
        0 <= n <= b.len(),
        forall|k: int| 0 <= k < a.len() ==> (#[trigger] a[k]).price != price,
    ensures
        fills_at_before(a + b, a.len() + n, price) == fills_at_before(b, n, price),
    decreases n,
{
    if n > 0 {
        lemma_fills_at_before_concat(a, b, n - 1, price);
        assert((a + b)[a.len() + n - 1] == b[n - 1]);
    } else {
        lemma_fills_at_before_zero(a, b, a.len() as int, price);
    }
}

proof fn lemma_fills_at_before_zero(a: Seq<Fill>, b: Seq<Fill>, n: int, price: u64)
    requires
        0 <= n <= a.len(),
        forall|k: int| 0 <= k < a.len() ==> (#[trigger] a[k]).price != price,
    ensures
        fills_at_before(a + b, n, price) == 0,
    decreases n,
{
    if n > 0 {
        lemma_fills_at_before_zero(a, b, n - 1, price);
        assert((a + b)[n - 1] == a[n - 1]);
    }
}

proof fn lemma_fills_at_before_prefix(a: Seq<Fill>, b: Seq<Fill>, n: int, price: u64)
    requires
        0 <= n <= a.len(),
    ensures
        fills_at_before(a + b, n, price) == fills_at_before(a, n, price),
    decreases n,
{
    if n > 0 {
        lemma_fills_at_before_prefix(a, b, n - 1, price);
        assert((a + b)[n - 1] == a[n - 1]);
    }
}

/// Time priority across a sweep: the fill at position `k` takes the maker
/// queued at the position, in its level, given by the number of earlier
/// fills at the same price.
pub proof fn lemma_sweep_time_priority(m: Map<u64, Seq<Order>>, taker: Order)
    requires
        m.dom().finite(),
    ensures
        ({
            let fs = sweep(m, taker).2;
            forall|k: int|
                0 <= k < fs.len() ==> {
                    let i = fills_at_before(fs, k, (#[trigger] fs[k]).price) as int;
                    &&& 0 <= i < m[fs[k].price].len()
                    &&& fs[k].maker_order_id == m[fs[k].price][i].id
                }
        }),
    decreases m.dom().len(),
{
    lemma_sweep(m, taker);
    let fs = sweep(m, taker).2;
    if taker.qty > 0 {
        lemma_best_price_in_dom(m, taker.side);
        match best_price(m, taker.side) {
            None => {},
            Some(p) => {
                if crosses(taker, p) {
                    let (lvl, t2, fs1) = fill_level(m[p], taker, p);
                    lemma_fill_level(m[p], taker, p);
                    if lvl.len() == 0 {
                        let r = m.remove(p);
                        lemma_sweep(r, t2);
                        lemma_sweep_time_priority(r, t2);
                        let fs3 = sweep(r, t2).2;
                        assert(fs == fs1 + fs3);
                        assert forall|k: int| 0 <= k < fs.len() implies {
                            let i = fills_at_before(fs, k, (#[trigger] fs[k]).price) as int;
                            &&& 0 <= i < m[fs[k].price].len()
                            &&& fs[k].maker_order_id == m[fs[k].price][i].id
                        } by {
                            if k < fs1.len() {
                                assert(fs[k] == fs1[k]);
                                lemma_fills_at_before_prefix(fs1, fs3, k, p);
                                lemma_fills_at_before_uniform(fs1, k, p);
                            } else {
                                let k3 = k - fs1.len();
                                assert(fs[k] == fs3[k3]);
                                let q = fs3[k3].price;
                                assert(r.dom().contains(q));
                                assert(q != p);
                                lemma_fills_at_before_concat(fs1, fs3, k3, q);
                                assert(r[q] == m[q]);
                            }
                        }
                    } else {
                        assert forall|k: int| 0 <= k < fs.len() implies {
                            let i = fills_at_before(fs, k, (#[trigger] fs[k]).price) as int;
                            &&& 0 <= i < m[fs[k].price].len()
                            &&& fs[k].maker_order_id == m[fs[k].price][i].id
                        } by {
                            lemma_fills_at_before_uniform(fs1, k, p);
                        }
                    }
                }
            },
        }
    }
}

/// Price-then-time priority of a match: the fill at position `k` takes the
/// maker queued, at that fill's price on the opposite side, behind exactly
/// as many makers as earlier fills took at that price; so within a price
/// level makers trade in the order they arrived.
pub proof fn law_match_time_priority(book: Book, taker: Order)
    ensures
        ({
            let fs = match_spec(book@, taker).1;
            let opp = opposite(book@, taker.side);
            forall|k: int|
                0 <= k < fs.len() ==> {
                    let i = fills_at_before(fs, k, (#[trigger] fs[k]).price) as int;
                    &&& 0 <= i < opp[fs[k].price].len()
                    &&& fs[k].maker_order_id == opp[fs[k].price][i].id
                }
        }),
{
    lemma_book_finite(&book);
    lemma_sweep_time_priority(opposite(book@, taker.side), taker);
}

// ---------------------------------------------------------------------------
// The aggregate view
// ---------------------------------------------------------------------------

proof fn lemma_listing_covers(m: Map<u64, Seq<Order>>, a: Seq<Level>, descending: bool, p: u64)
    requires
        m.dom().finite(),
        lists_ladder(m, a, descending),
        m.dom().contains(p),
    ensures
        exists|j: int| 0 <= j < a.len() && (#[trigger] a[j]).price == p,
{
    let prices = a.map_values(|l: Level| l.price);
    assert forall|i: int, j: int| 0 <= i < prices.len() && 0 <= j < prices.len() && i != j implies prices[i]
        != prices[j] by {
        if i < j {
            assert(a[i].price != a[j].price);
        } else {
            assert(a[j].price != a[i].price);
        }
    }
    assert(prices.no_duplicates());
    prices.unique_seq_to_set();
    assert forall|q: u64| #[trigger] prices.to_set().contains(q) implies m.dom().contains(q) by {
        let j = choose|j: int| 0 <= j < prices.len() && prices[j] == q;
        assert(m.dom().contains(a[j].price));
    }
    vstd::set_lib::lemma_subset_equality(prices.to_set(), m.dom());
    assert(prices.to_set().contains(p));
    let j = choose|j: int| 0 <= j < prices.len() && prices[j] == p;
    assert(a[j].price == p);
}

proof fn lemma_listing_prefix(
    m: Map<u64, Seq<Order>>,
    a: Seq<Level>,
    b: Seq<Level>,
    descending: bool,
    i: int,
)
    requires
        m.dom().finite(),
        lists_ladder(m, a, descending),
        lists_ladder(m, b, descending),
        0 <= i < a.len(),
    ensures
        forall|k: int| 0 <= k <= i ==> (#[trigger] a[k]).price == b[k].price,
    decreases i,
{
    if i > 0 {
        lemma_listing_prefix(m, a, b, descending, i - 1);
    }
    assert(m.dom().contains(a[i].price));
    assert(m.dom().contains(b[i].price));
    lemma_listing_covers(m, b, descending, a[i].price);
    lemma_listing_covers(m, a, descending, b[i].price);
    let j = choose|j: int| 0 <= j < b.len() && (#[trigger] b[j]).price == a[i].price;
    let l = choose|l: int| 0 <= l < a.len() && (#[trigger] a[l]).price == b[i].price;
    if j < i {
        assert(a[j].price == b[j].price);
    }
    if l < i {
        assert(a[l].price == b[l].price);
    }
    if j != i && l != i {
        if j > i && l > i {
            assert(a[l].price == b[i].price);
            assert(b[j].price == a[i].price);
        }
    }
}

/// The aggregate of a ladder is determined by the ladder: two listings that
/// both list every level once with its total, in the same price direction,
/// are the same listing. So `Book::snapshot`'s result is pinned down.
pub proof fn law_listing_is_unique(m: Map<u64, Seq<Order>>, a: Seq<Level>, b: Seq<Level>, descending: bool)
    requires
        m.dom().finite(),
        lists_ladder(m, a, descending),
        lists_ladder(m, b, descending),
    ensures
        a == b,
{
    if a.len() > 0 {
        lemma_listing_prefix(m, a, b, descending, a.len() - 1);
    }
    assert forall|k: int| 0 <= k < a.len() implies a[k] == b[k] by {
        assert(a[k].price == b[k].price);
        assert(m.dom().contains(a[k].price));
        assert(m.dom().contains(b[k].price));
        assert(a[k].qty == b[k].qty);
    }
    assert(a =~= b);
}

// ---------------------------------------------------------------------------
// Where a level changes
// ---------------------------------------------------------------------------

/// `after` is `before` with its first `before.len() - after.len()` orders
/// gone and, when anything is left, the new front order the same order as
/// before (same id, side and price) with at most its quantity; every order
/// behind the front is exactly where it was, in the same order.
pub open spec fn front_consumed(before: Seq<Order>, after: Seq<Order>) -> bool {
    let n = before.len() - after.len();
    &&& 0 <= n <= before.len()
    &&& forall|i: int| 0 < i < after.len() ==> #[trigger] after[i] == before[n + i]
    &&& after.len() > 0 ==> {
        &&& after[0].id == before[n].id
        &&& after[0].side == before[n].side
        &&& after[0].price == before[n].price
        &&& after[0].qty <= before[n].qty
    }
}

/// Trading against one level changes the queue only at its front: the
/// first `n` makers (`n` = how many orders the level lost) were filled in
/// full and left; if anything is left, the maker now at the front is the
/// next one in the queue, still first, with its quantity reduced by exactly
/// its fill (if it had one); every maker behind it is untouched and keeps
/// its place. This holds for a taker of either side.
pub proof fn law_fill_level_changes_only_the_front(level: Seq<Order>, taker: Order, price: u64)
    ensures
        ({
            let (l, t, fs) = fill_level(level, taker, price);
            let n = level.len() - l.len();
            &&& 0 <= n <= level.len()
            &&& fs.len() == n || fs.len() == n + 1
            &&& forall|k: int| 0 <= k < n ==> (#[trigger] fs[k]).qty == level[k].qty
            &&& forall|i: int| 0 < i < l.len() ==> #[trigger] l[i] == level[n + i]
            &&& l.len() > 0 ==> {
                &&& l[0].id == level[n].id
                &&& l[0].side == level[n].side
                &&& l[0].price == level[n].price
                &&& l[0].qty == level[n].qty - (if fs.len() > n {
                    fs[n].qty as int
                } else {
                    0int
                })
            }
            &&& front_consumed(level, l)
        }),
    decreases level.len(),
{
    lemma_fill_level(level, taker, price);
    if taker.qty == 0 || level.len() == 0 {
    } else {
        let maker = level[0];
        let q = min_u64(taker.qty, maker.qty);
        let fill = Fill { maker_order_id: maker.id, taker_order_id: taker.id, price, qty: q };
        let taker2 = with_qty(taker, (taker.qty - q) as u64);
        if maker.qty == q {
            let rest = level.drop_first();
            law_fill_level_changes_only_the_front(rest, taker2, price);
            let (l, t, fs) = fill_level(rest, taker2, price);
            let fsa = seq![fill] + fs;
            let n = level.len() - l.len();
            assert forall|k: int| 0 <= k < n implies (#[trigger] fsa[k]).qty == level[k].qty by {
                if k > 0 {
                    assert(fsa[k] == fs[k - 1]);
                }
            }
            assert forall|i: int| 0 < i < l.len() implies #[trigger] l[i] == level[n + i] by {
                assert(l[i] == rest[n - 1 + i]);
            }
            if l.len() > 0 {
                assert(level[n] == rest[n - 1]);
                if fsa.len() > n {
                    assert(fsa[n] == fs[n - 1]);
                }
            }
        } else {
        }
    }
}

/// Total quantity of the fills at `price`.
pub open spec fn fill_total_at(fs: Seq<Fill>, price: u64) -> int
    decreases fs.len(),
{
    if fs.len() == 0 {
        0
    } else {
        (if fs[0].price == price {
            fs[0].qty as int
        } else {
            0int
        }) + fill_total_at(fs.drop_first(), price)
    }
}

proof fn lemma_fill_total_at_concat(a: Seq<Fill>, b: Seq<Fill>, price: u64)
    ensures
        fill_total_at(a + b, price) == fill_total_at(a, price) + fill_total_at(b, price),
    decreases a.len(),
{
    if a.len() > 0 {
        assert((a + b).drop_first() =~= a.drop_first() + b);
        lemma_fill_total_at_concat(a.drop_first(), b, price);
    } else {
        assert(a + b =~= b);
    }
}

proof fn lemma_fill_total_at_uniform(fs: Seq<Fill>, price: u64, q: u64)
    requires
        forall|k: int| 0 <= k < fs.len() ==> (#[trigger] fs[k]).price == price,
    ensures
        fill_total_at(fs, q) == if q == price {
            fill_total(fs)
        } else {
            0
        },
    decreases fs.len(),
{
    if fs.len() > 0 {
        assert forall|k: int| 0 <= k < fs.drop_first().len() implies (#[trigger] fs.drop_first()[k]).price
            == price by {
            assert(fs.drop_first()[k] == fs[k + 1]);
        }
        lemma_fill_total_at_uniform(fs.drop_first(), price, q);
    }
}

proof fn lemma_fill_total_at_absent(fs: Seq<Fill>, q: u64)
    requires
        forall|k: int| 0 <= k < fs.len() ==> (#[trigger] fs[k]).price != q,
    ensures
        fill_total_at(fs, q) == 0,
    decreases fs.len(),
{
    if fs.len() > 0 {
        assert forall|k: int| 0 <= k < fs.drop_first().len() implies (#[trigger] fs.drop_first()[k]).price
            != q by {
            assert(fs.drop_first()[k] == fs[k + 1]);
        }
        lemma_fill_total_at_absent(fs.drop_first(), q);
    }
}

/// The ladder side of a sweep, price by price: a price stays only if it was
/// there, its queue changed only at the front, and its total went down by
/// exactly the fills at that price; a price leaves only when the fills at
/// that price took its whole total; prices gain nothing.
pub proof fn lemma_sweep_per_price(m: Map<u64, Seq<Order>>, taker: Order)
    requires
        m.dom().finite(),
    ensures
        ({
            let (m2, t, fs) = sweep(m, taker);
            &&& forall|p: u64|
                #[trigger] m2.dom().contains(p) ==> {
                    &&& m.dom().contains(p)
                    &&& level_total(m2[p]) == level_total(m[p]) - fill_total_at(fs, p)
                    &&& front_consumed(m[p], m2[p])
                }
            &&& forall|p: u64|
                #[trigger] m.dom().contains(p) && !m2.dom().contains(p) ==> fill_total_at(fs, p)
                    == level_total(m[p])
        }),
    decreases m.dom().len(),
{
    lemma_sweep(m, taker);
    let (m2, t, fs) = sweep(m, taker);
    assert(fill_total_at(Seq::<Fill>::empty(), 0) == 0);
    let trivial = taker.qty == 0 || best_price(m, taker.side) is None || !crosses(
        taker,
        best_price(m, taker.side)->0,
    );
    if trivial {
        assert(m2 == m);
        assert(fs.len() == 0);
        assert forall|p: u64| #[trigger] m2.dom().contains(p) implies {
            &&& m.dom().contains(p)
            &&& level_total(m2[p]) == level_total(m[p]) - fill_total_at(fs, p)
            &&& front_consumed(m[p], m2[p])
        } by {
            assert(fill_total_at(fs, p) == 0);
            assert(m[p].len() - m2[p].len() == 0);
        }
    } else {
        lemma_best_price_in_dom(m, taker.side);
        let p = best_price(m, taker.side)->0;
        let (lvl, t2, fs1) = fill_level(m[p], taker, p);
        lemma_fill_level(m[p], taker, p);
        law_fill_level_changes_only_the_front(m[p], taker, p);
        assert forall|k: int| 0 <= k < fs1.len() implies (#[trigger] fs1[k]).price == p by {}
        if lvl.len() == 0 {
            let r = m.remove(p);
            lemma_sweep(r, t2);
            lemma_sweep_per_price(r, t2);
            let (m3, t3, fs3) = sweep(r, t2);
            assert(fs == fs1 + fs3);
            assert(level_total(lvl) == 0);
            assert forall|q: u64| true implies fill_total_at(fs, q) == fill_total_at(fs1, q) + fill_total_at(
                fs3,
                q,
            ) by {
                lemma_fill_total_at_concat(fs1, fs3, q);
            }
            assert forall|k: int| 0 <= k < fs3.len() implies (#[trigger] fs3[k]).price != p by {
                assert(r.dom().contains(fs3[k].price));
            }
            lemma_fill_total_at_absent(fs3, p);
            lemma_fill_total_at_uniform(fs1, p, p);
            assert forall|q: u64| #[trigger] m2.dom().contains(q) implies {
                &&& m.dom().contains(q)
                &&& level_total(m2[q]) == level_total(m[q]) - fill_total_at(fs, q)
                &&& front_consumed(m[q], m2[q])
            } by {
                assert(r.dom().contains(q));
                lemma_fill_total_at_uniform(fs1, p, q);
                assert(r[q] == m[q]);
            }
            assert forall|q: u64| #[trigger] m.dom().contains(q) && !m2.dom().contains(q) implies fill_total_at(
                fs,
                q,
            ) == level_total(m[q]) by {
                lemma_fill_total_at_uniform(fs1, p, q);
                if q != p {
                    assert(r.dom().contains(q));
                    assert(r[q] == m[q]);
                }
            }
        } else {
            assert(m2 == m.insert(p, lvl));
            assert(fs == fs1);
            assert forall|q: u64| #[trigger] m2.dom().contains(q) implies {
                &&& m.dom().contains(q)
                &&& level_total(m2[q]) == level_total(m[q]) - fill_total_at(fs, q)
                &&& front_consumed(m[q], m2[q])
            } by {
                lemma_fill_total_at_uniform(fs1, p, q);
                if q != p {
                    assert(m[q].len() - m2[q].len() == 0);
                }
            }
        }
    }
}

/// Matching conserves the opposite side's quantity, price by price: every
/// price still on the opposite side afterwards was there before, rests the
/// total it had minus exactly the fills at that price, and its queue only
/// lost or reduced makers at its front; a price leaves the opposite side
/// only when the fills at that price used up its whole total.
pub proof fn law_match_conserves_opposite_side(book: Book, taker: Order)
    ensures
        ({
            let (b2, fs) = match_spec(book@, taker);
            let before = opposite(book@, taker.side);
            let after = opposite(b2, taker.side);
            &&& forall|p: u64|
                #[trigger] after.dom().contains(p) ==> {
                    &&& before.dom().contains(p)
                    &&& level_total(after[p]) == level_total(before[p]) - fill_total_at(fs, p)
                    &&& front_consumed(before[p], after[p])
                }
            &&& forall|p: u64|
                #[trigger] before.dom().contains(p) && !after.dom().contains(p) ==> fill_total_at(
                    fs,
                    p,
                ) == level_total(before[p])
        }),
{
    lemma_book_finite(&book);
    let opp = opposite(book@, taker.side);
    lemma_sweep(opp, taker);
    lemma_sweep_per_price(opp, taker);
    let (m, t, fs) = sweep(opp, taker);
    assert(opposite(match_spec(book@, taker).0, taker.side) == m);
    assert(match_spec(book@, taker).1 == fs);
}

/// Resting goes to the back of the queue, on either side: when the taker is
/// not filled in full, its own side gains exactly one order, at the taker's
/// price, behind every order already queued there (which keep their places),
/// carrying the taker's id, side and price and the quantity the fills did
/// not take; every other price on its own side is untouched. When it is
/// filled in full its own side does not change.
pub proof fn law_match_rests_at_back(book: Book, taker: Order)
    ensures
        ({
            let (b2, fs) = match_spec(book@, taker);
            let filled = fill_total(fs);
            let own = own_ladder(book@, taker.side);
            let own2 = own_ladder(b2, taker.side);
            let old_len: int = if own.dom().contains(taker.price) {
                own[taker.price].len() as int
            } else {
                0
            };
            &&& filled < taker.qty ==> {
                &&& own2.dom() == own.dom().insert(taker.price)
                &&& forall|p: u64|
                    #[trigger] own.dom().contains(p) && p != taker.price ==> own2[p] == own[p]
                &&& own2[taker.price].len() == old_len + 1
                &&& forall|i: int|
                    0 <= i < old_len ==> #[trigger] own2[taker.price][i] == own[taker.price][i]
                &&& own2[taker.price][old_len].id == taker.id
                &&& own2[taker.price][old_len].side == taker.side
                &&& own2[taker.price][old_len].price == taker.price
                &&& own2[taker.price][old_len].qty == taker.qty - filled
            }
            &&& filled == taker.qty ==> own2 == own
        }),
{
    lemma_book_finite(&book);
    let opp = opposite(book@, taker.side);
    lemma_sweep(opp, taker);
    let (m, t, fs) = sweep(opp, taker);
    let own = own_ladder(book@, taker.side);
    let b2 = with_opposite(book@, taker.side, m);
    assert(own_ladder(b2, taker.side) == own);
    if t.qty > 0 {
        assert(own_ladder(rest_spec(b2, t), taker.side) == rest_in(own, t));
        assert(rest_in(own, t).dom() =~= own.dom().insert(taker.price));
    }
}

} // verus!
