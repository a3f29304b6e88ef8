//! The continuous-trading matching algorithm: an incoming aggressor crosses
//! the contra book up to its limit price, and any remainder rests in its own
//! side's book.

use vstd::prelude::*;
use std::rc::Rc;
use crate::types::{Qty, Side, K_BUY, K_SELL};
use crate::messages::OrigOrderInfoForCancel;
use crate::auction_order::{AuctionOrder, ConsumedOrder};
use crate::order_book::{
    PriceOrderBook, key_of, crossing_orders, crossing_len, flatten_levels, inserted_into,
    removed_from,
};
use crate::price_node::{consumed_from, remaining_after, left_after};

verus! {

/// What one continuous-auction step does: the contra book is consumed
/// greedily up to the aggressor's limit, and the remainder, if any, rests in
/// the aggressor's own book.
pub open spec fn continuous_match<Order: AuctionOrder>(
    contra_pre: PriceOrderBook<Order>,
    contra_post: PriceOrderBook<Order>,
    own_pre: PriceOrderBook<Order>,
    own_post: PriceOrderBook<Order>,
    order: Rc<Order>,
    consumed: Seq<ConsumedOrder<Order>>,
) -> bool {
    let m = contra_pre.spec_multiplier();
    let lk = key_of(order.spec_price(), m);
    let cross = crossing_orders(contra_pre.levels(), lk, m);
    let left = left_after(cross, order.spec_qty());
    &&& consumed == consumed_from(cross, order.spec_qty())
    &&& flatten_levels(contra_post.levels()) == remaining_after(cross, order.spec_qty())
        + flatten_levels(
        contra_pre.levels().skip(crossing_len(contra_pre.levels(), lk, m)),
    )
    &&& contra_post.spec_book_total() == contra_pre.spec_book_total() - (order.spec_qty() - left)
    &&& if left > 0 {
        &&& inserted_into(own_pre, own_post, left, order)
        &&& own_post.spec_book_total() == own_pre.spec_book_total() + left
    } else {
        own_post == own_pre
    }
}

/// The continuous-auction policy over a session's two books.
pub struct Continuos {}

impl Continuos {
    /// Matches an incoming order against the contra book and rests any
    /// remainder, returning the consumptions in priority order.
    pub fn process_new_order<Order: AuctionOrder>(
        buy_order_book: &mut PriceOrderBook<Order>,
        sell_order_book: &mut PriceOrderBook<Order>,
        side: Side,
        order: Rc<Order>,
    ) -> (consumed: Vec<ConsumedOrder<Order>>)
        requires
            old(buy_order_book).wf(),
            old(sell_order_book).wf(),
            old(buy_order_book).spec_multiplier() == -1,
            old(sell_order_book).spec_multiplier() == 1,
            side == K_BUY || side == K_SELL,
            side == K_BUY ==> old(buy_order_book).spec_book_total() + order.spec_qty()
                <= Qty::MAX,
            side == K_SELL ==> old(sell_order_book).spec_book_total() + order.spec_qty()
                <= Qty::MAX,
        ensures
            final(buy_order_book).wf(),
            final(sell_order_book).wf(),
            final(buy_order_book).spec_multiplier() == -1,
            final(sell_order_book).spec_multiplier() == 1,
            side == K_BUY ==> continuous_match(
                *old(sell_order_book),
                *final(sell_order_book),
                *old(buy_order_book),
                *final(buy_order_book),
                order,
                consumed@,
            ),
            side == K_SELL ==> continuous_match(
                *old(buy_order_book),
                *final(buy_order_book),
                *old(sell_order_book),
                *final(sell_order_book),
                order,
                consumed@,
            ),
    {
        if side == K_BUY {
            let qty = order.qty();
            let price = order.price();
            let re = sell_order_book.consume_order(qty, price);
            if re.0 > 0 {
                buy_order_book.insert_order_with_leaves_qty(re.0, order);
            }
            re.1
        } else {
            let qty = order.qty();
            let price = order.price();
            let re = buy_order_book.consume_order(qty, price);
            if re.0 > 0 {
                sell_order_book.insert_order_with_leaves_qty(re.0, order);
            }
            re.1
        }
    }

    /// Locates the resting order named by a cancel in the book of its side
    /// and removes it.
    pub fn process_cancel_request<Order: AuctionOrder>(
        buy_order_book: &mut PriceOrderBook<Order>,
        sell_order_book: &mut PriceOrderBook<Order>,
        orig_info: &OrigOrderInfoForCancel,
    ) -> (removed: Option<ConsumedOrder<Order>>)
        requires
            old(buy_order_book).wf(),
            old(sell_order_book).wf(),
            orig_info.side == K_BUY || orig_info.side == K_SELL,
        ensures
            final(buy_order_book).wf(),
            final(sell_order_book).wf(),
            final(buy_order_book).spec_multiplier() == old(buy_order_book).spec_multiplier(),
            final(sell_order_book).spec_multiplier() == old(sell_order_book).spec_multiplier(),
            orig_info.side == K_BUY ==> {
                &&& removed_from(
                    *old(buy_order_book),
                    *final(buy_order_book),
                    orig_info.price,
                    orig_info.order_id,
                    removed,
                )
                &&& *final(sell_order_book) == *old(sell_order_book)
            },
            orig_info.side == K_SELL ==> {
                &&& removed_from(
                    *old(sell_order_book),
                    *final(sell_order_book),
                    orig_info.price,
                    orig_info.order_id,
                    removed,
                )
                &&& *final(buy_order_book) == *old(buy_order_book)
            },
    {
        if orig_info.side == K_BUY {
            buy_order_book.remove_order(orig_info.price, orig_info.order_id)
        } else {
            sell_order_book.remove_order(orig_info.price, orig_info.order_id)
        }
    }
}

} // verus!
