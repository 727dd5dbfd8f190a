//! Groups, and the tokeniser that builds them from records.
use vstd::prelude::*;

use crate::model::{outcome, pending, pulled, run, Tok};
use crate::record::{Record, RecordToken, RecordTokeniser};

verus! {

/// The models of a sequence of records.
pub open spec fn record_views(s: Seq<Record>) -> Seq<Seq<Seq<char>>> {
    s.map_values(|r: Record| r@)
}

/// An ordered block of records; it may be empty.
#[derive(Debug, Clone)]
pub struct Group {
    records: Vec<Record>,
}

impl View for Group {
    type V = Seq<Seq<Seq<char>>>;

    closed spec fn view(&self) -> Seq<Seq<Seq<char>>> {
        record_views(self.records@)
    }
}

impl Group {
    /// A group of the given records, in order.
    pub fn new(records: Vec<Record>) -> (r: Self)
        ensures
            r@ == record_views(records@),
    {
        Group { records }
    }

    /// The records, in order.
    pub fn records(&self) -> (r: &[Record])
        ensures
            record_views(r@) == self@,
    {
        self.records.as_slice()
    }
}

/// What the group layer hands to the file layer.
#[derive(Debug, Clone)]
pub enum GroupToken {
    FileSeparator,
    Group(Group),
}

impl View for GroupToken {
    type V = Tok<Seq<Seq<Seq<char>>>>;

    open spec fn view(&self) -> Tok<Seq<Seq<Seq<char>>>> {
        match self {
            GroupToken::FileSeparator => Tok::Bound(3),
            GroupToken::Group(g) => Tok::Item(g@),
        }
    }
}

/// Gathers records into groups, passing on the separators of higher levels
/// right after the group that they close.
pub struct GroupTokeniser {
    records: RecordTokeniser,
    group: Vec<Record>,
    next_item: Option<GroupToken>,
}

impl GroupTokeniser {
    pub closed spec fn wf(&self) -> bool {
        self.records.wf()
    }

    /// The tokens still to come.
    pub closed spec fn rest(&self) -> Seq<Tok<Seq<Seq<Seq<char>>>>> {
        pending(self.next_item) + run(record_views(self.group@), self.records.rest(), 2, !self.records.fails())
    }

    /// Whether a failure comes after the remaining tokens.
    pub closed spec fn fails(&self) -> bool {
        self.records.fails()
    }

    pub fn new(records: RecordTokeniser) -> (r: Self)
        requires
            records.wf(),
        ensures
            r.wf(),
            r.rest() == run(Seq::empty(), records.rest(), 2, !records.fails()),
            r.fails() == records.fails(),
    {
        let r = GroupTokeniser { records, group: Vec::new(), next_item: None };
        assert(record_views(r.group@) =~= Seq::empty());
        assert(r.rest() =~= run(Seq::empty(), records.rest(), 2, !records.fails()));
        r
    }

    fn take_group(&mut self) -> (r: Group)
        ensures
            r@ == record_views(old(self).group@),
            final(self).group@ == Seq::<Record>::empty(),
            final(self).records == old(self).records,
            final(self).next_item == old(self).next_item,
    {
        let mut v: Vec<Record> = Vec::new();
        core::mem::swap(&mut self.group, &mut v);
        Group { records: v }
    }

    fn handle_separator(&mut self, token: RecordToken) -> (r: GroupToken)
        requires
            old(self).next_item is None,
            !(token is Record),
        ensures
            final(self).records == old(self).records,
            final(self).group@ == Seq::<Record>::empty(),
            r@ == Tok::Item(record_views(old(self).group@)),
            token@ == Tok::<Seq<Seq<char>>>::Bound(2) ==> final(self).next_item is None,
            forall|b: u8|
                token@ == Tok::<Seq<Seq<char>>>::Bound(b) && b != 2 ==> pending(final(self).next_item)
                    == seq![Tok::<Seq<Seq<Seq<char>>>>::Bound(b)],
    {
        self.next_item = match token {
            RecordToken::FileSeparator => Some(GroupToken::FileSeparator),
            RecordToken::GroupSeparator => None,
            RecordToken::Record(_) => {
                assert(false);
                None
            },
        };
        GroupToken::Group(self.take_group())
    }

    /// The next group or separator; then the failure of the text, once; then
    /// nothing.
    pub fn next(&mut self) -> (r: Option<Result<GroupToken, utf8_read::Error>>)
        requires
            old(self).wf(),
        ensures
            final(self).wf(),
            pulled(old(self).rest(), old(self).fails(), final(self).rest(), final(self).fails(), outcome(r)),
    {
        if let Some(item) = self.next_item.take() {
            assert(self.rest() =~= old(self).rest().drop_first());
            return Some(Ok(item));
        }
        let ghost r0 = self.rest();
        let ghost f0 = self.fails();
        assert(old(self).rest() == r0);
        loop
            invariant
                old(self).rest() == r0,
                old(self).fails() == f0,
                self.wf(),
                self.next_item is None,
                self.rest() == r0,
                self.fails() == f0,
            decreases self.records.rest().len(),
        {
            let ghost c0 = self.records.rest();
            let ghost u0 = record_views(self.group@);
            assert(r0 =~= run(u0, c0, 2, !f0));
            match self.records.next() {
                None => {
                    assert(c0.len() == 0);
                    if self.group.len() == 0 {
                        assert(r0.len() == 0);
                        assert(self.rest().len() == 0);
                        return None;
                    }
                    let rec = self.take_group();
                    assert(self.rest() =~= r0.drop_first());
                    return Some(Ok(GroupToken::Group(rec)));
                },
                Some(Err(e)) => {
                    self.group = Vec::new();
                    assert(self.rest() =~= Seq::<Tok<Seq<Seq<Seq<char>>>>>::empty());
                    return Some(Err(e));
                },
                Some(Ok(RecordToken::Record(u))) => {
                    assert(c0[0] == Tok::Item(u@));
                    self.group.push(u);
                    assert(record_views(self.group@) =~= u0.push(u@));
                },
                Some(Ok(t)) => {
                    let ghost tv = t@;
                    let r = self.handle_separator(t);
                    assert(self.rest() =~= r0.drop_first()) by {
                        assert(c0[0] == tv);
                        assert(self.records.rest() == c0.drop_first());
                        let tail = run(Seq::<Seq<Seq<char>>>::empty(), c0.drop_first(), 2, !f0);
                        assert(record_views(self.group@) =~= Seq::empty());
                        if let Tok::Bound(b) = tv {
                            if b == 2 {
                                assert(r0 == seq![Tok::Item(u0)] + tail);
                                assert((seq![Tok::Item(u0)] + tail).drop_first() =~= tail);
                            } else {
                                assert(r0 == seq![Tok::Item(u0), Tok::Bound(b)] + tail);
                                assert((seq![Tok::Item(u0), Tok::Bound(b)] + tail).drop_first()
                                    =~= seq![Tok::Bound(b)] + tail);
                            }
                        }
                    }
                    return Some(Ok(r));
                },
            }
        }
    }
}

} // verus!
