//! The shared data model: order sides, orders, fills, errors, and a plain
//! text rendering of an order.

use vstd::prelude::*;
use vstd::string::StringExecFns;

verus! {

/// Which side of the book an order belongs to.
#[derive(Clone, Copy, Debug, PartialEq, Eq, Structural)]
pub enum Side {
    Buy,
    Sell,
}

impl Side {
    /// The side an aggressive order on `self` matches against.
    pub open spec fn spec_opposite(self) -> Side {
        match self {
            Side::Buy => Side::Sell,
            Side::Sell => Side::Buy,
        }
    }

    /// The side an aggressive order on `self` matches against.
    #[verifier::when_used_as_spec(spec_opposite)]
    pub fn opposite(self) -> (r: Side)
        ensures
            r == self.spec_opposite(),
    {
        match self {
            Side::Buy => Side::Sell,
            Side::Sell => Side::Buy,
        }
    }
}

/// One resting order. `shares` is the remaining unfilled quantity; it is
/// positive for every order held in the book and only ever decreased by
/// fills. The queue position of an order inside its price level encodes its
/// time priority, so no explicit links are needed.
#[derive(Clone, Copy, Debug, PartialEq, Eq, Structural)]
pub struct Order {
    /// Caller-supplied identifier, unique for the life of the book.
    pub id: u64,
    pub side: Side,
    /// Remaining unfilled quantity; never zero for a resting order.
    pub shares: u64,
    pub limit_price: u64,
}

/// One trade: an incoming order consumed `quantity` shares of the resting
/// order, at the resting level's price.
#[derive(Clone, Copy, Debug, PartialEq, Eq, Structural)]
pub struct Fill {
    pub resting_order_id: u64,
    pub incoming_order_id: u64,
    pub price: u64,
    pub quantity: u64,
}

/// Why the book rejected an operation. A rejected operation never changes
/// the book.
#[derive(Clone, Copy, Debug, PartialEq, Eq, Structural)]
pub enum OrderBookError {
    /// A submitted order had zero shares or a zero limit price.
    InvalidOrder,
    /// A cancel named an id that is not resting in the book.
    OrderNotFound,
    /// A submit reused the id of an order still resting in the book.
    DuplicateOrderId,
    /// Resting the order would push a level's aggregates past `u64::MAX`.
    Overflow,
}

/// The character for one decimal digit.
pub open spec fn dec_digit(d: nat) -> char {
    if d == 0 {
        '0'
    } else if d == 1 {
        '1'
    } else if d == 2 {
        '2'
    } else if d == 3 {
        '3'
    } else if d == 4 {
        '4'
    } else if d == 5 {
        '5'
    } else if d == 6 {
        '6'
    } else if d == 7 {
        '7'
    } else if d == 8 {
        '8'
    } else {
        '9'
    }
}

/// The decimal digits of `n`, most significant first.
pub open spec fn dec_chars(n: nat) -> Seq<char>
    decreases n,
{
    if n < 10 {
        seq![dec_digit(n)]
    } else {
        dec_chars(n / 10).push(dec_digit(n % 10))
    }
}

/// The text `format_order` produces for an order.
pub open spec fn format_order_spec(o: Order) -> Seq<char> {
    "<Order "@ + dec_chars(o.id as nat) + ": "@ + (if o.side is Buy {
        "buy"@
    } else {
        "sell"@
    }) + " "@ + dec_chars(o.shares as nat) + " shares at limit "@ + dec_chars(o.limit_price as nat)
        + ">"@
}

/// Appends the character of one decimal digit.
fn push_digit(s: &mut String, d: u64)
    requires
        d < 10,
    ensures
        final(s)@ == old(s)@.push(dec_digit(d as nat)),
{
    if d == 0 {
        s.append("0");
        proof {
            reveal_strlit("0");
            assert(old(s)@ + "0"@ =~= old(s)@.push(dec_digit(d as nat)));
        }
    } else if d == 1 {
        s.append("1");
        proof {
            reveal_strlit("1");
            assert(old(s)@ + "1"@ =~= old(s)@.push(dec_digit(d as nat)));
        }
    } else if d == 2 {
        s.append("2");
        proof {
            reveal_strlit("2");
            assert(old(s)@ + "2"@ =~= old(s)@.push(dec_digit(d as nat)));
        }
    } else if d == 3 {
        s.append("3");
        proof {
            reveal_strlit("3");
            assert(old(s)@ + "3"@ =~= old(s)@.push(dec_digit(d as nat)));
        }
    } else if d == 4 {
        s.append("4");
        proof {
            reveal_strlit("4");
            assert(old(s)@ + "4"@ =~= old(s)@.push(dec_digit(d as nat)));
        }
    } else if d == 5 {
        s.append("5");
        proof {
            reveal_strlit("5");
            assert(old(s)@ + "5"@ =~= old(s)@.push(dec_digit(d as nat)));
        }
    } else if d == 6 {
        s.append("6");
        proof {
            reveal_strlit("6");
            assert(old(s)@ + "6"@ =~= old(s)@.push(dec_digit(d as nat)));
        }
    } else if d == 7 {
        s.append("7");
        proof {
            reveal_strlit("7");
            assert(old(s)@ + "7"@ =~= old(s)@.push(dec_digit(d as nat)));
        }
    } else if d == 8 {
        s.append("8");
        proof {
            reveal_strlit("8");
            assert(old(s)@ + "8"@ =~= old(s)@.push(dec_digit(d as nat)));
        }
    } else {
        s.append("9");
        proof {
            reveal_strlit("9");
            assert(old(s)@ + "9"@ =~= old(s)@.push(dec_digit(d as nat)));
        }
    }
}

/// Appends the decimal digits of `n`, most significant first.
fn push_dec(s: &mut String, n: u64)
    ensures
        final(s)@ == old(s)@ + dec_chars(n as nat),
    decreases n,
{
    if n < 10 {
        push_digit(s, n);
        proof {
            assert(old(s)@.push(dec_digit(n as nat)) =~= old(s)@ + dec_chars(n as nat));
        }
    } else {
        push_dec(s, n / 10);
        push_digit(s, n % 10);
        proof {
            assert((old(s)@ + dec_chars((n / 10) as nat)).push(dec_digit((n % 10) as nat)) =~= old(
                s,
            )@ + dec_chars(n as nat));
        }
    }
}

/// Renders an order as `<Order id: side shares shares at limit price>`.
pub fn format_order(o: &Order) -> (r: String)
    ensures
        r@ == format_order_spec(*o),
{
    let mut r = String::new();
    r.append("<Order ");
    push_dec(&mut r, o.id);
    r.append(": ");
    match o.side {
        Side::Buy => r.append("buy"),
        Side::Sell => r.append("sell"),
    }
    r.append(" ");
    push_dec(&mut r, o.shares);
    r.append(" shares at limit ");
    push_dec(&mut r, o.limit_price);
    r.append(">");
    proof {
        assert(r@ =~= format_order_spec(*o));
    }
    r
}

} // verus!
