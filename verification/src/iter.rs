//! Event streams that need no parser: one that ends another at its first
//! error, and one that walks recorded events again.

use vstd::prelude::*;
use crate::builder::{item_views, EventIterator};
use crate::errors::Error;
use crate::parser::{item_view, Event, Item};

verus! {

/// The items of a stream up to its first error, which is the last of them.
pub open spec fn fused(items: Seq<Item>) -> Seq<Item>
    decreases items.len(),
{
    if items.len() == 0 {
        Seq::empty()
    } else {
        match items[0] {
            Err(e) => seq![Err(e)],
            Ok(event) => seq![Ok(event)] + fused(items.skip(1)),
        }
    }
}

/// An event stream that yields nothing more once it has yielded an error.
pub struct ResultIterator<I: EventIterator> {
    iterator: I,
    errored: bool,
}

impl<I: EventIterator> ResultIterator<I> {
    /// What the stream underneath has yet to yield.
    pub closed spec fn source(&self) -> Seq<Item> {
        self.iterator.upcoming()
    }

    /// Whether an error has been handed out.
    pub closed spec fn errored(&self) -> bool {
        self.errored
    }

    /// The stream underneath is in order.
    pub closed spec fn inner_wf(&self) -> bool {
        self.iterator.wf()
    }

    /// Wraps `iterator`, so that its first error ends the stream.
    pub fn new(iterator: I) -> (r: ResultIterator<I>)
        requires
            iterator.wf(),
        ensures
            r.wf(),
            !r.errored(),
            r.source() == iterator.upcoming(),
    {
        ResultIterator { iterator, errored: false }
    }
}

impl<I: EventIterator> EventIterator for ResultIterator<I> {
    open spec fn wf(&self) -> bool {
        self.inner_wf()
    }

    open spec fn upcoming(&self) -> Seq<Item> {
        if self.errored() {
            Seq::empty()
        } else {
            fused(self.source())
        }
    }

    fn next(&mut self) -> (r: Option<Result<Event, Error>>)
        ensures
            final(self).errored() == (old(self).errored() || r matches Some(Err(_))),
            final(self).source() == if old(self).errored() || old(self).source().len() == 0 {
                old(self).source()
            } else {
                old(self).source().skip(1)
            },
    {
        if self.errored {
            return None;
        }
        let value = self.iterator.next();
        proof {
            if value is None {
                assert(self.source() =~= old(self).source());
            }
        }
        match &value {
            Some(Err(_)) => {
                self.errored = true;
            },
            _ => {},
        }
        proof {
            if value is Some {
                assert(self.upcoming() =~= old(self).upcoming().skip(1));
            }
        }
        value
    }
}

/// Recorded events as a stream: it yields them again in the order in which
/// they were recorded.
pub struct Replay {
    // What is left, the next item last.
    left: Vec<Result<Event, Error>>,
}

impl Replay {
    /// The recorded items that are left, in order.
    pub closed spec fn view(&self) -> Seq<Item> {
        item_views(self.left@).reverse()
    }

    /// A stream of the recorded `items`.
    pub fn new(items: Vec<Result<Event, Error>>) -> (r: Replay)
        ensures
            r@ == item_views(items@),
    {
        let ghost all = item_views(items@);
        let mut rest = items;
        let mut left: Vec<Result<Event, Error>> = Vec::new();
        assert(all =~= item_views(rest@) + item_views(left@).reverse());
        loop
            invariant
                all == item_views(items@),
                all == item_views(rest@) + item_views(left@).reverse(),
            decreases rest.len(),
        {
            let ghost front = item_views(rest@);
            let ghost back = item_views(left@).reverse();
            match rest.pop() {
                None => {
                    assert(all =~= item_views(left@).reverse());
                    return Replay { left };
                },
                Some(item) => {
                    left.push(item);
                    assert(item_views(rest@) =~= front.drop_last());
                    assert(item_views(left@).reverse() =~= seq![item_view(item)] + back);
                    assert(all =~= item_views(rest@) + item_views(left@).reverse());
                },
            }
        }
    }
}

impl EventIterator for Replay {
    open spec fn wf(&self) -> bool {
        true
    }

    open spec fn upcoming(&self) -> Seq<Item> {
        self@
    }

    fn next(&mut self) -> (r: Option<Result<Event, Error>>) {
        let ghost before = self@;
        let r = self.left.pop();
        proof {
            if r is Some {
                assert(item_views(self.left@) =~= item_views(old(self).left@).drop_last());
                assert(self@ =~= before.skip(1));
            }
        }
        r
    }
}

} // verus!
