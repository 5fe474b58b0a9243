use optimized_lob::error::LobError;
use optimized_lob::order::OrderId;
use optimized_lob::orderbook_manager::OrderBookManager;
use optimized_lob::quantity::Qty;
use optimized_lob::utils::BookId;

fn get_level_capacity(manager: &OrderBookManager, book: u16, rank: usize) -> Qty {
    manager.level_capacity(BookId(book), rank)
}

fn add_bid(manager: &mut OrderBookManager, id: u32, qty: u64, price: u64) {
    assert_eq!(manager.add_order(OrderId(id), BookId(1), Qty(qty), price, true), Ok(()));
}

#[test]
fn test_for_same_book_and_level() {
    let mut orderbook_manager = OrderBookManager::new();
    add_bid(&mut orderbook_manager, 0, 800, 500);
    add_bid(&mut orderbook_manager, 1, 50, 500);
    add_bid(&mut orderbook_manager, 2, 26, 500);
    assert_eq!(Qty(876), get_level_capacity(&orderbook_manager, 1, 0));

    orderbook_manager.remove_order(OrderId(2)).unwrap();
    assert_eq!(Qty(850), get_level_capacity(&orderbook_manager, 1, 0));

    orderbook_manager.cancel_order(OrderId(0), Qty(100)).unwrap();
    assert_eq!(Qty(750), get_level_capacity(&orderbook_manager, 1, 0));

    orderbook_manager.cancel_order(OrderId(1), Qty(50)).unwrap();
    assert_eq!(Qty(700), get_level_capacity(&orderbook_manager, 1, 0));

    add_bid(&mut orderbook_manager, 3, 50, 500);
    add_bid(&mut orderbook_manager, 4, 26, 500);
    assert_eq!(Qty(776), get_level_capacity(&orderbook_manager, 1, 0));

    orderbook_manager.remove_order(OrderId(3)).unwrap();
    assert_eq!(Qty(726), get_level_capacity(&orderbook_manager, 1, 0));

    orderbook_manager.remove_order(OrderId(4)).unwrap();
    assert_eq!(Qty(700), get_level_capacity(&orderbook_manager, 1, 0));

    orderbook_manager.remove_order(OrderId(0)).unwrap();
    assert_eq!(Qty(0), get_level_capacity(&orderbook_manager, 1, 0));

    add_bid(&mut orderbook_manager, 5, 50, 500);
    add_bid(&mut orderbook_manager, 6, 26, 500);
    assert_eq!(Qty(76), get_level_capacity(&orderbook_manager, 1, 0));
    orderbook_manager.execute_order(OrderId(5), Qty(50)).unwrap();
    assert_eq!(Qty(26), get_level_capacity(&orderbook_manager, 1, 0));
    orderbook_manager.execute_order(OrderId(6), Qty(10)).unwrap();
    assert_eq!(Qty(16), get_level_capacity(&orderbook_manager, 1, 0));
}

#[test]
fn multi_level_ordering_by_rank() {
    let mut m = OrderBookManager::new();
    add_bid(&mut m, 0, 800, 500);
    add_bid(&mut m, 1, 50, 600);
    add_bid(&mut m, 2, 26, 600);
    assert_eq!(Qty(800), get_level_capacity(&m, 1, 0));
    assert_eq!(Qty(76), get_level_capacity(&m, 1, 1));
    m.remove_order(OrderId(2)).unwrap();
    assert_eq!(Qty(50), get_level_capacity(&m, 1, 1));
    m.cancel_order(OrderId(0), Qty(100)).unwrap();
    assert_eq!(Qty(700), get_level_capacity(&m, 1, 0));
    m.remove_order(OrderId(1)).unwrap();
    assert_eq!(Qty(0), get_level_capacity(&m, 1, 1));
    add_bid(&mut m, 3, 50, 800);
    add_bid(&mut m, 4, 26, 600);
    assert_eq!(Qty(26), get_level_capacity(&m, 1, 1));
    assert_eq!(Qty(50), get_level_capacity(&m, 1, 2));
}

#[test]
fn insertion_above_and_below_extremes() {
    let mut m = OrderBookManager::new();
    add_bid(&mut m, 0, 10, 500);
    add_bid(&mut m, 1, 20, 1500);
    assert_eq!(Qty(20), get_level_capacity(&m, 1, 1));
    add_bid(&mut m, 2, 30, 1400);
    assert_eq!(Qty(10), get_level_capacity(&m, 1, 0));
    assert_eq!(Qty(30), get_level_capacity(&m, 1, 1));
    assert_eq!(Qty(20), get_level_capacity(&m, 1, 2));
    add_bid(&mut m, 3, 40, 1300);
    assert_eq!(Qty(10), get_level_capacity(&m, 1, 0));
    assert_eq!(Qty(40), get_level_capacity(&m, 1, 1));
    assert_eq!(Qty(30), get_level_capacity(&m, 1, 2));
    assert_eq!(Qty(20), get_level_capacity(&m, 1, 3));
    add_bid(&mut m, 4, 5, 100);
    assert_eq!(Qty(5), get_level_capacity(&m, 1, 0));
    assert_eq!(Qty(0), get_level_capacity(&m, 1, 5));
}

#[test]
fn execute_consumes_order() {
    let mut m = OrderBookManager::new();
    add_bid(&mut m, 5, 50, 500);
    add_bid(&mut m, 6, 26, 500);
    assert_eq!(Qty(76), get_level_capacity(&m, 1, 0));
    m.execute_order(OrderId(5), Qty(50)).unwrap();
    assert_eq!(Qty(26), get_level_capacity(&m, 1, 0));
    assert_eq!(m.order_qty(OrderId(5)), None);
    m.execute_order(OrderId(6), Qty(10)).unwrap();
    assert_eq!(Qty(16), get_level_capacity(&m, 1, 0));
    assert_eq!(m.order_qty(OrderId(6)), Some(Qty(16)));
}

#[test]
fn replace_moves_order_to_new_price() {
    let mut m = OrderBookManager::new();
    add_bid(&mut m, 7, 100, 500);
    assert_eq!(m.replace_order(OrderId(7), OrderId(8), Qty(40), 700), Ok(()));
    assert_eq!(m.order_qty(OrderId(7)), None);
    assert_eq!(m.order_qty(OrderId(8)), Some(Qty(40)));
    assert_eq!(Qty(40), get_level_capacity(&m, 1, 0));
    assert_eq!(Qty(0), get_level_capacity(&m, 1, 1));
}

#[test]
fn replace_matches_delete_then_add() {
    let mut a = OrderBookManager::new();
    let mut b = OrderBookManager::new();
    for m in [&mut a, &mut b] {
        add_bid(m, 1, 10, 300);
        add_bid(m, 2, 20, 400);
        add_bid(m, 3, 30, 400);
    }
    a.replace_order(OrderId(2), OrderId(9), Qty(15), 350).unwrap();
    b.remove_order(OrderId(2)).unwrap();
    add_bid(&mut b, 9, 15, 350);
    for rank in 0..4 {
        assert_eq!(get_level_capacity(&a, 1, rank), get_level_capacity(&b, 1, rank));
    }
    assert_eq!(Qty(15), get_level_capacity(&a, 1, 1));
    assert_eq!(Qty(30), get_level_capacity(&a, 1, 2));
}

#[test]
fn add_then_delete_restores_book() {
    let mut m = OrderBookManager::new();
    add_bid(&mut m, 1, 10, 300);
    add_bid(&mut m, 2, 20, 400);
    add_bid(&mut m, 3, 7, 450);
    m.remove_order(OrderId(3)).unwrap();
    assert_eq!(Qty(10), get_level_capacity(&m, 1, 0));
    assert_eq!(Qty(20), get_level_capacity(&m, 1, 1));
    assert_eq!(Qty(0), get_level_capacity(&m, 1, 2));
    add_bid(&mut m, 4, 7, 400);
    m.remove_order(OrderId(4)).unwrap();
    assert_eq!(Qty(20), get_level_capacity(&m, 1, 1));
}

#[test]
fn unknown_id_is_ignored() {
    let mut m = OrderBookManager::new();
    add_bid(&mut m, 1, 10, 300);
    assert_eq!(m.remove_order(OrderId(999)), Err(LobError::Missing));
    assert_eq!(m.execute_order(OrderId(999), Qty(1)), Err(LobError::Missing));
    assert_eq!(m.cancel_order(OrderId(999), Qty(1)), Err(LobError::Missing));
    assert_eq!(m.replace_order(OrderId(999), OrderId(5), Qty(1), 10), Err(LobError::Missing));
    assert_eq!(Qty(10), get_level_capacity(&m, 1, 0));
    assert_eq!(m.order_qty(OrderId(1)), Some(Qty(10)));
}

#[test]
fn duplicate_and_overflow_are_refused() {
    let mut m = OrderBookManager::new();
    add_bid(&mut m, 1, 10, 300);
    add_bid(&mut m, 2, 10, 300);
    assert_eq!(m.add_order(OrderId(1), BookId(1), Qty(5), 310, true), Err(LobError::Duplicate));
    assert_eq!(m.replace_order(OrderId(1), OrderId(2), Qty(5), 310), Err(LobError::Duplicate));
    assert_eq!(
        m.add_order(OrderId(3), BookId(1), Qty(5), u64::MAX, true),
        Err(LobError::Overflow)
    );
    assert_eq!(
        m.add_order(OrderId(4), BookId(1), Qty(u64::MAX), 300, true),
        Err(LobError::Overflow)
    );
    assert_eq!(Qty(20), get_level_capacity(&m, 1, 0));
    assert_eq!(m.order_qty(OrderId(4)), None);
}

#[test]
fn zero_share_add_does_not_rest() {
    let mut m = OrderBookManager::new();
    assert_eq!(m.add_order(OrderId(1), BookId(1), Qty(0), 300, true), Ok(()));
    assert_eq!(m.order_qty(OrderId(1)), None);
    assert_eq!(Qty(0), get_level_capacity(&m, 1, 0));
}

#[test]
fn asks_and_books_are_separate() {
    let mut m = OrderBookManager::new();
    assert_eq!(m.add_order(OrderId(1), BookId(1), Qty(10), 300, false), Ok(()));
    assert_eq!(Qty(0), get_level_capacity(&m, 1, 0));
    assert_eq!(m.add_order(OrderId(2), BookId(2), Qty(12), 300, true), Ok(()));
    assert_eq!(Qty(0), get_level_capacity(&m, 1, 0));
    assert_eq!(Qty(12), get_level_capacity(&m, 2, 0));
    assert_eq!(Qty(0), get_level_capacity(&m, 7, 0));
    assert_eq!(m.replace_order(OrderId(1), OrderId(3), Qty(4), 250), Ok(()));
    assert_eq!(Qty(0), get_level_capacity(&m, 1, 0));
    assert_eq!(m.order_qty(OrderId(3)), Some(Qty(4)));
}

#[test]
fn test_for_same_book_with_multiple_levels() {
    let mut orderbook_manager = OrderBookManager::new();
    add_bid(&mut orderbook_manager, 0, 800, 500);
    add_bid(&mut orderbook_manager, 1, 50, 600);
    add_bid(&mut orderbook_manager, 2, 26, 600);
    assert_eq!(Qty(800), get_level_capacity(&orderbook_manager, 1, 0));

    orderbook_manager.remove_order(OrderId(2)).unwrap();
    assert_eq!(Qty(50), get_level_capacity(&orderbook_manager, 1, 1));

    orderbook_manager.cancel_order(OrderId(0), Qty(100)).unwrap();
    assert_eq!(Qty(700), get_level_capacity(&orderbook_manager, 1, 0));

    orderbook_manager.remove_order(OrderId(1)).unwrap();
    assert_eq!(Qty(0), get_level_capacity(&orderbook_manager, 1, 1));

    add_bid(&mut orderbook_manager, 3, 50, 800);
    add_bid(&mut orderbook_manager, 4, 26, 600);
    assert_eq!(Qty(26), get_level_capacity(&orderbook_manager, 1, 1));
    assert_eq!(Qty(50), get_level_capacity(&orderbook_manager, 1, 2));

    orderbook_manager.remove_order(OrderId(3)).unwrap();
    assert_eq!(Qty(26), get_level_capacity(&orderbook_manager, 1, 1));
    assert_eq!(Qty(0), get_level_capacity(&orderbook_manager, 1, 2));
    orderbook_manager.remove_order(OrderId(4)).unwrap();
    assert_eq!(Qty(0), get_level_capacity(&orderbook_manager, 1, 1));
    orderbook_manager.remove_order(OrderId(0)).unwrap();
    assert_eq!(Qty(0), get_level_capacity(&orderbook_manager, 1, 0));

    add_bid(&mut orderbook_manager, 5, 50, 1500);
    add_bid(&mut orderbook_manager, 6, 26, 500);
    assert_eq!(Qty(26), get_level_capacity(&orderbook_manager, 1, 0));
    assert_eq!(Qty(50), get_level_capacity(&orderbook_manager, 1, 1));
    assert_eq!(Qty(0), get_level_capacity(&orderbook_manager, 1, 2));

    add_bid(&mut orderbook_manager, 7, 86, 1400);
    assert_eq!(Qty(86), get_level_capacity(&orderbook_manager, 1, 1));
    add_bid(&mut orderbook_manager, 8, 96, 1300);
    assert_eq!(Qty(96), get_level_capacity(&orderbook_manager, 1, 1));
    assert_eq!(Qty(86), get_level_capacity(&orderbook_manager, 1, 2));
    assert_eq!(Qty(50), get_level_capacity(&orderbook_manager, 1, 3));
}

#[test]
fn replace_succeeds_onto_existing_level() {
    let mut m = OrderBookManager::new();
    add_bid(&mut m, 1, 10, 300);
    add_bid(&mut m, 2, 20, 400);
    assert_eq!(m.replace_order(OrderId(1), OrderId(1), Qty(5), 400), Ok(()));
    assert_eq!(Qty(25), get_level_capacity(&m, 1, 0));
    assert_eq!(Qty(0), get_level_capacity(&m, 1, 1));
    assert_eq!(m.order_qty(OrderId(1)), Some(Qty(5)));
}
