//! The mathematical model of the decode pipeline.
//!
//! Every layer turns a sequence of tokens of the layer below into a sequence of
//! tokens of its own: a token is either a completed item or a boundary, given
//! by its rank (0 for units, 1 for records, 2 for groups, 3 for files).
use vstd::prelude::*;

verus! {

/// A token as the model sees it: a completed item, or a boundary of some rank.
pub enum Tok<T> {
    Item(T),
    Bound(u8),
}

/// What one accumulation layer with boundary rank `own` produces from `input`,
/// given the currently open container `open`. A boundary of rank `own` closes
/// the open container; any other boundary closes it and is passed on after it.
/// At the end of the input the open container is emitted only when `flush`
/// holds (the input ended cleanly) and it is not empty.
pub open spec fn run<T>(open: Seq<T>, input: Seq<Tok<T>>, own: u8, flush: bool) -> Seq<Tok<Seq<T>>>
    decreases input.len(),
{
    if input.len() == 0 {
        if flush && open.len() > 0 {
            seq![Tok::Item(open)]
        } else {
            seq![]
        }
    } else {
        match input[0] {
            Tok::Item(x) => run(open.push(x), input.drop_first(), own, flush),
            Tok::Bound(b) => if b == own {
                seq![Tok::Item(open)] + run(Seq::empty(), input.drop_first(), own, flush)
            } else {
                seq![Tok::Item(open), Tok::Bound(b)] + run(Seq::empty(), input.drop_first(), own, flush)
            },
        }
    }
}

/// What the top layer produces: every boundary closes the open container and
/// is consumed; at the end the open container is emitted as for `run`.
pub open spec fn assemble<T>(open: Seq<T>, input: Seq<Tok<T>>, flush: bool) -> Seq<Seq<T>>
    decreases input.len(),
{
    if input.len() == 0 {
        if flush && open.len() > 0 {
            seq![open]
        } else {
            seq![]
        }
    } else {
        match input[0] {
            Tok::Item(x) => assemble(open.push(x), input.drop_first(), flush),
            Tok::Bound(_) => seq![open] + assemble(Seq::empty(), input.drop_first(), flush),
        }
    }
}

/// The outcome of one pull on a layer whose remaining output is `rest0`
/// (followed by a failure when `fails0`): the next item with the rest after it,
/// else the failure once, else nothing. `got` is `None` for an exhausted layer,
/// `Some(None)` for a failure and `Some(Some(t))` for an item `t`.
pub open spec fn pulled<V>(
    rest0: Seq<V>,
    fails0: bool,
    rest1: Seq<V>,
    fails1: bool,
    got: Option<Option<V>>,
) -> bool {
    match got {
        Some(Some(t)) => rest0.len() > 0 && t == rest0[0] && rest1 == rest0.drop_first()
            && fails1 == fails0,
        Some(None) => rest0.len() == 0 && fails0 && rest1.len() == 0 && !fails1,
        None => rest0.len() == 0 && !fails0 && rest1.len() == 0 && !fails1,
    }
}

} // verus!

verus! {

/// The outcome of a pull, as `pulled` reads it.
pub open spec fn outcome<T: View, E>(r: Option<Result<T, E>>) -> Option<Option<T::V>> {
    match r {
        None => None,
        Some(Err(_)) => Some(None),
        Some(Ok(t)) => Some(Some(t@)),
    }
}

/// The one pending token of a layer, as a sequence.
pub open spec fn pending<T: View>(p: Option<T>) -> Seq<T::V> {
    match p {
        Some(t) => seq![t@],
        None => Seq::empty(),
    }
}

} // verus!
