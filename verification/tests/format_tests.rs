use orderbook::order::{format_order, Order, Side};

#[test]
fn formats_a_buy_order() {
    let o = Order { id: 1, side: Side::Buy, shares: 10, limit_price: 500 };
    assert_eq!(format_order(&o), "<Order 1: buy 10 shares at limit 500>");
}

#[test]
fn formats_a_sell_order() {
    let o = Order { id: 2, side: Side::Sell, shares: 20, limit_price: 400 };
    assert_eq!(format_order(&o), "<Order 2: sell 20 shares at limit 400>");
}

#[test]
fn formats_multi_digit_and_zero_fields() {
    let o = Order { id: 18446744073709551615, side: Side::Buy, shares: 1, limit_price: 907 };
    assert_eq!(
        format_order(&o),
        "<Order 18446744073709551615: buy 1 shares at limit 907>"
    );
}
