//! Files (documents), and the tokeniser that assembles them from groups.
use vstd::prelude::*;

use crate::chars::CharTokeniser;
use crate::group::{Group, GroupToken, GroupTokeniser};
use crate::model::{assemble, outcome, pulled, run, Tok};
use crate::record::RecordTokeniser;
use crate::separator::tokens_of;
use crate::unit::UnitTokeniser;

verus! {

/// The model of a file: groups of records of units of characters.
pub type FileModel = Seq<Seq<Seq<Seq<char>>>>;

/// The models of a sequence of groups.
pub open spec fn group_views(s: Seq<Group>) -> FileModel {
    s.map_values(|g: Group| g@)
}

/// The files that `text` decodes to, in order. When `failed` holds, the text
/// is followed by a failure of the source: containers still open then are
/// dropped.
pub open spec fn decode(text: Seq<char>, failed: bool) -> Seq<FileModel> {
    let f = !failed;
    assemble(
        Seq::empty(),
        run(Seq::empty(), run(Seq::empty(), run(Seq::empty(), tokens_of(text), 0, f), 1, f), 2, f),
        f,
    )
}

/// The top-level container: an ordered sequence of groups; it may be empty.
#[derive(Debug, Clone)]
pub struct File {
    groups: Vec<Group>,
}

impl View for File {
    type V = FileModel;

    closed spec fn view(&self) -> FileModel {
        group_views(self.groups@)
    }
}

impl File {
    /// A file of the given groups, in order.
    pub fn new(groups: Vec<Group>) -> (r: Self)
        ensures
            r@ == group_views(groups@),
    {
        File { groups }
    }

    /// The groups, in order.
    pub fn groups(&self) -> (r: &[Group])
        ensures
            group_views(r@) == self@,
    {
        self.groups.as_slice()
    }
}

/// Gathers groups into files: any file separator closes the open file.
pub struct FileTokeniser {
    groups: GroupTokeniser,
    file: Vec<Group>,
}

impl FileTokeniser {
    pub closed spec fn wf(&self) -> bool {
        self.groups.wf()
    }

    /// The files still to come.
    pub closed spec fn rest(&self) -> Seq<FileModel> {
        assemble(group_views(self.file@), self.groups.rest(), !self.groups.fails())
    }

    /// Whether a failure comes after the remaining files.
    pub closed spec fn fails(&self) -> bool {
        self.groups.fails()
    }

    /// The decoding pipeline over the scalar values `chars`, ended by
    /// `failure` if the source failed after them.
    pub fn new(chars: Vec<char>, failure: Option<utf8_read::Error>) -> (r: Self)
        ensures
            r.wf(),
            r.rest() == decode(chars@, failure is Some),
            r.fails() == failure is Some,
    {
        let c = CharTokeniser::new(chars, failure);
        let u = UnitTokeniser::new(c);
        let rec = RecordTokeniser::new(u);
        let g = GroupTokeniser::new(rec);
        let r = FileTokeniser { groups: g, file: Vec::new() };
        assert(group_views(r.file@) =~= Seq::empty());
        r
    }

    fn take_file(&mut self) -> (r: File)
        ensures
            r@ == group_views(old(self).file@),
            final(self).file@ == Seq::<Group>::empty(),
            final(self).groups == old(self).groups,
    {
        let mut v: Vec<Group> = Vec::new();
        core::mem::swap(&mut self.file, &mut v);
        File { groups: v }
    }

    /// The next file; then the failure of the text, once; then nothing.
    pub fn next(&mut self) -> (r: Option<Result<File, utf8_read::Error>>)
        requires
            old(self).wf(),
        ensures
            final(self).wf(),
            pulled(old(self).rest(), old(self).fails(), final(self).rest(), final(self).fails(), outcome(r)),
    {
        let ghost r0 = self.rest();
        let ghost f0 = self.fails();
        loop
            invariant
                old(self).rest() == r0,
                old(self).fails() == f0,
                self.wf(),
                self.rest() == r0,
                self.fails() == f0,
            decreases self.groups.rest().len(),
        {
            let ghost c0 = self.groups.rest();
            let ghost u0 = group_views(self.file@);
            match self.groups.next() {
                None => {
                    assert(c0.len() == 0);
                    if self.file.len() == 0 {
                        assert(r0.len() == 0);
                        assert(self.rest().len() == 0);
                        return None;
                    }
                    let f = self.take_file();
                    assert(self.rest() =~= r0.drop_first());
                    return Some(Ok(f));
                },
                Some(Err(e)) => {
                    self.file = Vec::new();
                    assert(self.rest() =~= Seq::<FileModel>::empty());
                    return Some(Err(e));
                },
                Some(Ok(GroupToken::Group(g))) => {
                    assert(c0[0] == Tok::Item(g@));
                    self.file.push(g);
                    assert(group_views(self.file@) =~= u0.push(g@));
                },
                Some(Ok(GroupToken::FileSeparator)) => {
                    let f = self.take_file();
                    assert(self.rest() =~= r0.drop_first()) by {
                        let tail = assemble(Seq::<Seq<Seq<Seq<char>>>>::empty(), c0.drop_first(), !f0);
                        assert(group_views(self.file@) =~= Seq::empty());
                        assert(r0 == seq![u0] + tail);
                        assert((seq![u0] + tail).drop_first() =~= tail);
                    }
                    return Some(Ok(f));
                },
            }
        }
    }
}

} // verus!
