//! Records, and the tokeniser that builds them from units.
use vstd::prelude::*;

use crate::model::{outcome, pending, pulled, run, Tok};
use crate::unit::{byte_len, lines, widest, Unit, UnitToken, UnitTokeniser};

verus! {

/// The texts of a sequence of units.
pub open spec fn unit_views(s: Seq<Unit>) -> Seq<Seq<char>> {
    s.map_values(|u: Unit| u@)
}

/// An ordered row of units; it may be empty.
#[derive(Debug, Clone)]
pub struct Record {
    units: Vec<Unit>,
}

impl View for Record {
    type V = Seq<Seq<char>>;

    closed spec fn view(&self) -> Seq<Seq<char>> {
        unit_views(self.units@)
    }
}

impl Record {
    /// A record of the given units, in order.
    pub fn new(units: Vec<Unit>) -> (r: Self)
        ensures
            r@ == unit_views(units@),
    {
        Record { units }
    }

    /// The units, in order.
    pub fn units(&self) -> (r: &[Unit])
        ensures
            unit_views(r@) == self@,
    {
        self.units.as_slice()
    }

    /// For each unit in order, its display width and its height, as
    /// `Unit::width_height` gives them.
    pub fn widths_heights(&self) -> (r: (Vec<usize>, Vec<usize>))
        requires
            forall|i: int| 0 <= i < self@.len() ==> byte_len(#[trigger] self@[i]) <= usize::MAX,
        ensures
            r.0@.len() == self@.len(),
            r.1@.len() == self@.len(),
            forall|i: int|
                0 <= i < self@.len() ==> r.0@[i] == widest(lines(#[trigger] self@[i])) && r.1@[i] == if lines(
                    self@[i],
                ).len() == 0 {
                    0usize
                } else {
                    1usize
                },
    {
        let mut widths: Vec<usize> = Vec::new();
        let mut heights: Vec<usize> = Vec::new();
        let mut idx: usize = 0;
        while idx < self.units.len()
            invariant
                idx <= self.units@.len(),
                widths@.len() == idx,
                heights@.len() == idx,
                forall|i: int| 0 <= i < self@.len() ==> byte_len(#[trigger] self@[i]) <= usize::MAX,
                forall|i: int|
                    0 <= i < idx ==> widths@[i] == widest(lines(#[trigger] self@[i])) && heights@[i] == if lines(
                        self@[i],
                    ).len() == 0 {
                        0usize
                    } else {
                        1usize
                    },
            decreases self.units@.len() - idx,
        {
            assert(self@[idx as int] == self.units@[idx as int]@);
            let (w, h) = self.units[idx].width_height();
            heights.push(h);
            widths.push(w);
            idx += 1;
        }
        (widths, heights)
    }
}

/// What the record layer hands to the group layer.
#[derive(Debug, Clone)]
pub enum RecordToken {
    FileSeparator,
    GroupSeparator,
    Record(Record),
}

impl View for RecordToken {
    type V = Tok<Seq<Seq<char>>>;

    open spec fn view(&self) -> Tok<Seq<Seq<char>>> {
        match self {
            RecordToken::FileSeparator => Tok::Bound(3),
            RecordToken::GroupSeparator => Tok::Bound(2),
            RecordToken::Record(r) => Tok::Item(r@),
        }
    }
}

/// Gathers units into records, passing on the separators of higher levels
/// right after the record that they close.
pub struct RecordTokeniser {
    units: UnitTokeniser,
    record: Vec<Unit>,
    next_item: Option<RecordToken>,
}

impl RecordTokeniser {
    pub closed spec fn wf(&self) -> bool {
        self.units.wf()
    }

    /// The tokens still to come.
    pub closed spec fn rest(&self) -> Seq<Tok<Seq<Seq<char>>>> {
        pending(self.next_item) + run(unit_views(self.record@), self.units.rest(), 1, !self.units.fails())
    }

    /// Whether a failure comes after the remaining tokens.
    pub closed spec fn fails(&self) -> bool {
        self.units.fails()
    }

    pub fn new(units: UnitTokeniser) -> (r: Self)
        requires
            units.wf(),
        ensures
            r.wf(),
            r.rest() == run(Seq::empty(), units.rest(), 1, !units.fails()),
            r.fails() == units.fails(),
    {
        let r = RecordTokeniser { units, record: Vec::new(), next_item: None };
        assert(unit_views(r.record@) =~= Seq::empty());
        assert(r.rest() =~= run(Seq::empty(), units.rest(), 1, !units.fails()));
        r
    }

    fn take_record(&mut self) -> (r: Record)
        ensures
            r@ == unit_views(old(self).record@),
            final(self).record@ == Seq::<Unit>::empty(),
            final(self).units == old(self).units,
            final(self).next_item == old(self).next_item,
    {
        let mut v: Vec<Unit> = Vec::new();
        core::mem::swap(&mut self.record, &mut v);
        Record { units: v }
    }

    fn handle_separator(&mut self, token: UnitToken) -> (r: RecordToken)
        requires
            old(self).next_item is None,
            !(token is Unit),
        ensures
            final(self).units == old(self).units,
            final(self).record@ == Seq::<Unit>::empty(),
            r@ == Tok::Item(unit_views(old(self).record@)),
            token@ == Tok::<Seq<char>>::Bound(1) ==> final(self).next_item is None,
            forall|b: u8|
                token@ == Tok::<Seq<char>>::Bound(b) && b != 1 ==> pending(final(self).next_item)
                    == seq![Tok::<Seq<Seq<char>>>::Bound(b)],
    {
        self.next_item = match token {
            UnitToken::FileSeparator => Some(RecordToken::FileSeparator),
            UnitToken::GroupSeparator => Some(RecordToken::GroupSeparator),
            UnitToken::RecordSeparator => None,
            UnitToken::Unit(_) => {
                assert(false);
                None
            },
        };
        RecordToken::Record(self.take_record())
    }

    /// The next record or separator; then the failure of the text, once; then
    /// nothing.
    pub fn next(&mut self) -> (r: Option<Result<RecordToken, utf8_read::Error>>)
        requires
            old(self).wf(),
        ensures
            final(self).wf(),
            pulled(old(self).rest(), old(self).fails(), final(self).rest(), final(self).fails(), outcome(r)),
    {
        if let Some(item) = self.next_item.take() {
            assert(self.rest() =~= old(self).rest().drop_first());
            return Some(Ok(item));
        }
        let ghost r0 = self.rest();
        let ghost f0 = self.fails();
        assert(old(self).rest() == r0);
        loop
            invariant
                old(self).rest() == r0,
                old(self).fails() == f0,
                self.wf(),
                self.next_item is None,
                self.rest() == r0,
                self.fails() == f0,
            decreases self.units.rest().len(),
        {
            let ghost c0 = self.units.rest();
            let ghost u0 = unit_views(self.record@);
            assert(r0 =~= run(u0, c0, 1, !f0));
            match self.units.next() {
                None => {
                    assert(c0.len() == 0);
                    if self.record.len() == 0 {
                        assert(r0.len() == 0);
                        assert(self.rest().len() == 0);
                        return None;
                    }
                    let rec = self.take_record();
                    assert(self.rest() =~= r0.drop_first());
                    return Some(Ok(RecordToken::Record(rec)));
                },
                Some(Err(e)) => {
                    self.record = Vec::new();
                    assert(self.rest() =~= Seq::<Tok<Seq<Seq<char>>>>::empty());
                    return Some(Err(e));
                },
                Some(Ok(UnitToken::Unit(u))) => {
                    assert(c0[0] == Tok::Item(u@));
                    self.record.push(u);
                    assert(unit_views(self.record@) =~= u0.push(u@));
                },
                Some(Ok(t)) => {
                    let ghost tv = t@;
                    let r = self.handle_separator(t);
                    assert(self.rest() =~= r0.drop_first()) by {
                        assert(c0[0] == tv);
                        assert(self.units.rest() == c0.drop_first());
                        let tail = run(Seq::<Seq<char>>::empty(), c0.drop_first(), 1, !f0);
                        assert(unit_views(self.record@) =~= Seq::empty());
                        if let Tok::Bound(b) = tv {
                            if b == 1 {
                                assert(r0 == seq![Tok::Item(u0)] + tail);
                                assert((seq![Tok::Item(u0)] + tail).drop_first() =~= tail);
                            } else {
                                assert(r0 == seq![Tok::Item(u0), Tok::Bound(b)] + tail);
                                assert((seq![Tok::Item(u0), Tok::Bound(b)] + tail).drop_first()
                                    =~= seq![Tok::Bound(b)] + tail);
                            }
                        }
                    }
                    return Some(Ok(r));
                },
            }
        }
    }
}

} // verus!
