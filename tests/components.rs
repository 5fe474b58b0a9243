use optimized_lob::error::LobError;
use optimized_lob::level::{Level, LevelId, PriceLevel, SortedLevels};
use optimized_lob::order::{Order, OrderId};
use optimized_lob::orderbook::OrderBook;
use optimized_lob::pool::LevelPool;
use optimized_lob::price::Price;
use optimized_lob::quantity::Qty;
use optimized_lob::utils::BookId;

#[test]
fn price_sign_and_absolute() {
    assert_eq!(Price::from_abs(500, true), Some(Price(500)));
    assert_eq!(Price::from_abs(500, false), Some(Price(-500)));
    assert_eq!(Price::from_abs(u64::MAX, true), None);
    assert!(Price(500).is_bid());
    assert!(!Price(-500).is_bid());
    assert!(!Price(0).is_bid());
    assert_eq!(Price(-500).absolute(), 500);
    assert_eq!(Price(i64::MIN).absolute(), 1u64 << 63);
    assert_eq!(Price(42).value(), 42);
}

#[test]
fn qty_arithmetic() {
    let mut q = Qty(10);
    q.add_assign(Qty(5));
    assert_eq!(q.value(), 15);
    q.sub_assign(Qty(15));
    assert!(q.is_empty());
}

#[test]
fn pool_reuses_last_freed_slot() {
    let mut pool = LevelPool::new_with_capacity(2);
    let a = pool.allocate().unwrap();
    let b = pool.allocate().unwrap();
    let c = pool.allocate().unwrap();
    assert_eq!((a, b, c), (LevelId(0), LevelId(1), LevelId(2)));
    pool.set_level(a, Level::new(Price(7), Qty(3)));
    assert_eq!(pool.free(b), Ok(()));
    assert_eq!(pool.free(c), Ok(()));
    assert_eq!(pool.free(c), Err(LobError::InvalidHandle));
    assert_eq!(pool.get(c), None);
    assert_eq!(pool.allocate(), Some(c));
    assert_eq!(pool.allocate(), Some(b));
    assert_eq!(pool.allocate(), Some(LevelId(3)));
    assert_eq!(pool.get(a), Some(Level::new(Price(7), Qty(3))));
    assert_eq!(pool.free(LevelId(99)), Err(LobError::InvalidHandle));
}

#[test]
fn sorted_levels_insert_find_remove() {
    let mut s = SortedLevels::new();
    s.insert(0, PriceLevel::new(Price(500), LevelId(0)));
    s.insert(1, PriceLevel::new(Price(700), LevelId(1)));
    s.insert(1, PriceLevel::new(Price(600), LevelId(2)));
    assert_eq!(s.len(), 3);
    assert_eq!(s.get(1).price(), Price(600));
    assert_eq!(s.insertion_point(Price(650)), (2, None));
    assert_eq!(s.insertion_point(Price(700)), (2, Some(LevelId(1))));
    assert_eq!(s.insertion_point(Price(100)), (0, None));
    assert_eq!(s.find(Price(600)).map(|e| e.level_id()), Some(LevelId(2)));
    assert_eq!(s.remove(Price(600)).map(|e| e.level_id()), Some(LevelId(2)));
    assert_eq!(s.remove(Price(600)), None);
    assert_eq!(s.len(), 2);
    assert_eq!(s.get(1).price(), Price(700));
}

#[test]
fn book_add_and_remove_orders() {
    let mut book = OrderBook::new();
    let mut o1 = Order::new(LevelId(0), Qty(10), BookId(1));
    let mut o2 = Order::new(LevelId(0), Qty(5), BookId(1));
    book.add_order(&mut o1, OrderId(1), Price(-300), Qty(10)).unwrap();
    book.add_order(&mut o2, OrderId(2), Price(-300), Qty(5)).unwrap();
    assert_eq!(o1.level_id(), o2.level_id());
    assert_eq!(book.asks.len(), 1);
    assert_eq!(book.bids.len(), 0);
    assert_eq!(book.get_orders_for_level(o1.level_id()).map(|s| s.len()), Some(2));
    assert_eq!(book.level_pool.get(o1.level_id()).map(|l| l.size()), Some(Qty(15)));
    book.reduce_order(&mut o2, OrderId(2), Qty(1));
    assert_eq!(o2.qty(), Qty(4));
    assert_eq!(book.level_pool.get(o1.level_id()).map(|l| l.size()), Some(Qty(14)));
    book.remove_order(&mut o1, OrderId(1));
    assert_eq!(book.get_orders_for_level(o1.level_id()).map(|s| s.len()), Some(1));
    book.remove_order(&mut o2, OrderId(2));
    assert_eq!(book.asks.len(), 0);
    assert!(book.get_orders_for_level(o1.level_id()).is_none());
    assert_eq!(book.level_pool.get(o1.level_id()), None);
}

#[test]
fn book_reduce_to_zero_removes_order() {
    let mut book = OrderBook::new();
    let mut o5 = Order::new(LevelId(0), Qty(50), BookId(1));
    let mut o6 = Order::new(LevelId(0), Qty(26), BookId(1));
    book.add_order(&mut o5, OrderId(5), Price(500), Qty(50)).unwrap();
    book.add_order(&mut o6, OrderId(6), Price(500), Qty(26)).unwrap();
    let l = o5.level_id();
    book.reduce_order(&mut o5, OrderId(5), Qty(50));
    assert_eq!(o5.qty(), Qty(0));
    assert_eq!(book.bids.len(), 1);
    assert_eq!(book.level_pool.get(l).map(|x| x.size()), Some(Qty(26)));
    let ids = book.get_orders_for_level(l).unwrap();
    assert_eq!(ids.len(), 1);
    assert!(ids.contains(&6));
    book.reduce_order(&mut o6, OrderId(6), Qty(26));
    assert_eq!(book.bids.len(), 0);
    assert!(book.get_orders_for_level(l).is_none());
    assert_eq!(book.level_pool.get(l), None);
}

#[test]
fn book_duplicate_add_is_ignored() {
    let mut book = OrderBook::new();
    let mut o1 = Order::new(LevelId(0), Qty(10), BookId(1));
    book.add_order(&mut o1, OrderId(1), Price(300), Qty(10)).unwrap();
    let mut again = Order::new(LevelId(7), Qty(5), BookId(1));
    assert_eq!(
        book.add_order(&mut again, OrderId(1), Price(310), Qty(5)),
        Err(LobError::Duplicate)
    );
    assert_eq!(again.level_id(), LevelId(7));
    assert_eq!(book.bids.len(), 1);
    assert_eq!(book.level_pool.get(o1.level_id()).map(|l| l.size()), Some(Qty(10)));
}
