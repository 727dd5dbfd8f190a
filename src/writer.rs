//! The structural writer: the encode side, which keeps separators and content
//! alternating so that what it writes decodes back unambiguously.
use vstd::prelude::*;

use crate::file::{group_views, FileModel};
use crate::group::{record_views, Group};
use crate::record::{unit_views, Record};
use crate::separator::{FS, GS, RS, US};
use crate::text::push_char;
use vstd::string::StringExecFns;
use crate::unit::Unit;

verus! {

/// `parts` with `sep` between each two neighbours.
pub open spec fn join(parts: Seq<Seq<char>>, sep: char) -> Seq<char>
    decreases parts.len(),
{
    if parts.len() == 0 {
        Seq::empty()
    } else if parts.len() == 1 {
        parts[0]
    } else {
        join(parts.drop_last(), sep).push(sep) + parts.last()
    }
}

/// The text of a record: its units separated by the unit separator.
pub open spec fn record_text(r: Seq<Seq<char>>) -> Seq<char> {
    join(r, US)
}

/// The text of a group: its records separated by the record separator.
pub open spec fn group_text(g: Seq<Seq<Seq<char>>>) -> Seq<char> {
    join(g.map_values(|r: Seq<Seq<char>>| record_text(r)), RS)
}

/// The text of a file: its groups separated by the group separator.
pub open spec fn file_text(d: FileModel) -> Seq<char> {
    join(d.map_values(|g: Seq<Seq<Seq<char>>>| group_text(g)), GS)
}

/// Joining one more part adds a separator and the part.
pub proof fn lemma_join_take_step(parts: Seq<Seq<char>>, sep: char, i: int)
    requires
        1 <= i < parts.len(),
    ensures
        join(parts.take(i + 1), sep) == join(parts.take(i), sep).push(sep) + parts[i],
{
    assert(parts.take(i + 1).drop_last() =~= parts.take(i));
}

/// Joining a single part gives the part.
pub proof fn lemma_join_take_one(parts: Seq<Seq<char>>, sep: char)
    requires
        1 <= parts.len(),
    ensures
        join(parts.take(1), sep) == parts[0],
{
}

/// A misuse of the writer's grammar.
#[derive(PartialEq, Eq, Structural, Debug)]
pub enum WriteError {
    /// Content was written where a separator had to come.
    ExpectedSeparator,
    /// A separator was written where content had to come.
    ExpectedContent,
}

/// Writes units, records, groups, files and separators into a text, and
/// refuses any write that would put two separators or two pieces of content
/// next to each other.
pub struct AdelWriter {
    out: String,
    next_sep: bool,
}

impl AdelWriter {
    /// What has been written so far.
    pub closed spec fn text(&self) -> Seq<char> {
        self.out@
    }

    /// Whether the next write must be a separator.
    pub closed spec fn expects_separator(&self) -> bool {
        self.next_sep
    }

    /// A writer with nothing written, expecting content.
    pub fn new() -> (r: Self)
        ensures
            r.text() == Seq::<char>::empty(),
            !r.expects_separator(),
    {
        AdelWriter { out: String::new(), next_sep: false }
    }

    /// What has been written so far.
    pub fn as_str(&self) -> (r: &str)
        ensures
            r@ == self.text(),
    {
        self.out.as_str()
    }

    /// The written text.
    pub fn into_string(self) -> (r: String)
        ensures
            r@ == self.text(),
    {
        self.out
    }

    fn write_char(&mut self, c: char)
        ensures
            final(self).text() == old(self).text().push(c),
            final(self).next_sep == old(self).next_sep,
    {
        push_char(&mut self.out, c);
    }

    fn check_next_char(&self, next_sep: bool) -> (r: Result<(), WriteError>)
        ensures
            r is Ok <==> next_sep == self.next_sep,
            r matches Err(e) ==> (e == WriteError::ExpectedSeparator <==> self.next_sep),
    {
        if next_sep != self.next_sep {
            if self.next_sep {
                Err(WriteError::ExpectedSeparator)
            } else {
                Err(WriteError::ExpectedContent)
            }
        } else {
            Ok(())
        }
    }

    /// Writes one unit where content is expected.
    pub fn write_unit(&mut self, unit: &Unit) -> (r: Result<(), WriteError>)
        ensures
            old(self).expects_separator() ==> r == Err::<(), WriteError>(WriteError::ExpectedSeparator)
                && *final(self) == *old(self),
            !old(self).expects_separator() ==> r is Ok && final(self).text() == old(self).text() + unit@
                && final(self).expects_separator(),
    {
        match self.check_next_char(false) {
            Err(e) => return Err(e),
            Ok(()) => {},
        }
        self.next_sep = true;
        self.out.append(unit.as_str());
        Ok(())
    }

    fn write_separator(&mut self, c: char) -> (r: Result<(), WriteError>)
        ensures
            !old(self).expects_separator() ==> r == Err::<(), WriteError>(WriteError::ExpectedContent)
                && *final(self) == *old(self),
            old(self).expects_separator() ==> r is Ok && final(self).text() == old(self).text().push(c)
                && !final(self).expects_separator(),
    {
        match self.check_next_char(true) {
            Err(e) => return Err(e),
            Ok(()) => {},
        }
        self.next_sep = false;
        self.write_char(c);
        Ok(())
    }

    /// Writes the unit separator where a separator is expected.
    pub fn write_us(&mut self) -> (r: Result<(), WriteError>)
        ensures
            !old(self).expects_separator() ==> r == Err::<(), WriteError>(WriteError::ExpectedContent)
                && *final(self) == *old(self),
            old(self).expects_separator() ==> r is Ok && final(self).text() == old(self).text().push(US)
                && !final(self).expects_separator(),
    {
        self.write_separator(US)
    }

    /// Writes the record separator where a separator is expected.
    pub fn write_rs(&mut self) -> (r: Result<(), WriteError>)
        ensures
            !old(self).expects_separator() ==> r == Err::<(), WriteError>(WriteError::ExpectedContent)
                && *final(self) == *old(self),
            old(self).expects_separator() ==> r is Ok && final(self).text() == old(self).text().push(RS)
                && !final(self).expects_separator(),
    {
        self.write_separator(RS)
    }

    /// Writes the group separator where a separator is expected.
    pub fn write_gs(&mut self) -> (r: Result<(), WriteError>)
        ensures
            !old(self).expects_separator() ==> r == Err::<(), WriteError>(WriteError::ExpectedContent)
                && *final(self) == *old(self),
            old(self).expects_separator() ==> r is Ok && final(self).text() == old(self).text().push(GS)
                && !final(self).expects_separator(),
    {
        self.write_separator(GS)
    }

    /// Writes the file separator where a separator is expected.
    pub fn write_fs(&mut self) -> (r: Result<(), WriteError>)
        ensures
            !old(self).expects_separator() ==> r == Err::<(), WriteError>(WriteError::ExpectedContent)
                && *final(self) == *old(self),
            old(self).expects_separator() ==> r is Ok && final(self).text() == old(self).text().push(FS)
                && !final(self).expects_separator(),
    {
        self.write_separator(FS)
    }
    /// Writes a record where content is expected: its units with the unit
    /// separator between each two. A separator must come next, also after an
    /// empty record.
    pub fn write_record(&mut self, units: &[Unit]) -> (r: Result<(), WriteError>)
        ensures
            old(self).expects_separator() ==> r == Err::<(), WriteError>(WriteError::ExpectedSeparator)
                && *final(self) == *old(self),
            !old(self).expects_separator() ==> r is Ok && final(self).text() == old(self).text()
                + record_text(unit_views(units@)) && final(self).expects_separator(),
    {
        self.check_next_char(false)?;
        let ghost parts = unit_views(units@);
        let ghost t0 = self.out@;
        if units.len() == 0 {
            assert(t0 + record_text(parts) =~= t0);
            self.next_sep = true;
            return Ok(());
        }
        self.write_unit(&units[0])?;
        proof {
            lemma_join_take_one(parts, US);
        }
        let mut i: usize = 1;
        while i < units.len()
            invariant
                1 <= i <= units@.len(),
                parts == unit_views(units@),
                self.next_sep,
                self.out@ == t0 + join(parts.take(i as int), US),
            decreases units@.len() - i,
        {
            self.write_us()?;
            self.write_unit(&units[i])?;
            proof {
                lemma_join_take_step(parts, US, i as int);
            }
            assert(self.out@ =~= t0 + join(parts.take(i + 1), US));
            i += 1;
        }
        assert(parts.take(units@.len() as int) =~= parts);
        Ok(())
    }

    /// Writes a group where content is expected: its records with the record
    /// separator between each two. A separator must come next, also after an
    /// empty group.
    pub fn write_group(&mut self, records: &[Record]) -> (r: Result<(), WriteError>)
        ensures
            old(self).expects_separator() ==> r == Err::<(), WriteError>(WriteError::ExpectedSeparator)
                && *final(self) == *old(self),
            !old(self).expects_separator() ==> r is Ok && final(self).text() == old(self).text()
                + group_text(record_views(records@)) && final(self).expects_separator(),
    {
        self.check_next_char(false)?;
        let ghost gv = record_views(records@);
        let ghost parts = gv.map_values(|r: Seq<Seq<char>>| record_text(r));
        let ghost t0 = self.out@;
        if records.len() == 0 {
            assert(t0 + group_text(gv) =~= t0);
            self.next_sep = true;
            return Ok(());
        }
        self.write_record(records[0].units())?;
        proof {
            lemma_join_take_one(parts, RS);
        }
        let mut i: usize = 1;
        while i < records.len()
            invariant
                1 <= i <= records@.len(),
                gv == record_views(records@),
                parts == gv.map_values(|r: Seq<Seq<char>>| record_text(r)),
                self.next_sep,
                self.out@ == t0 + join(parts.take(i as int), RS),
            decreases records@.len() - i,
        {
            self.write_rs()?;
            self.write_record(records[i].units())?;
            proof {
                lemma_join_take_step(parts, RS, i as int);
            }
            assert(self.out@ =~= t0 + join(parts.take(i + 1), RS));
            i += 1;
        }
        assert(parts.take(records@.len() as int) =~= parts);
        Ok(())
    }

    /// Writes a file where content is expected: its groups with the group
    /// separator between each two. A separator must come next, also after an
    /// empty file.
    pub fn write_file(&mut self, groups: &[Group]) -> (r: Result<(), WriteError>)
        ensures
            old(self).expects_separator() ==> r == Err::<(), WriteError>(WriteError::ExpectedSeparator)
                && *final(self) == *old(self),
            !old(self).expects_separator() ==> r is Ok && final(self).text() == old(self).text()
                + file_text(group_views(groups@)) && final(self).expects_separator(),
    {
        self.check_next_char(false)?;
        let ghost dv = group_views(groups@);
        let ghost parts = dv.map_values(|g: Seq<Seq<Seq<char>>>| group_text(g));
        let ghost t0 = self.out@;
        if groups.len() == 0 {
            assert(t0 + file_text(dv) =~= t0);
            self.next_sep = true;
            return Ok(());
        }
        self.write_group(groups[0].records())?;
        proof {
            lemma_join_take_one(parts, GS);
        }
        let mut i: usize = 1;
        while i < groups.len()
            invariant
                1 <= i <= groups@.len(),
                dv == group_views(groups@),
                parts == dv.map_values(|g: Seq<Seq<Seq<char>>>| group_text(g)),
                self.next_sep,
                self.out@ == t0 + join(parts.take(i as int), GS),
            decreases groups@.len() - i,
        {
            self.write_gs()?;
            self.write_group(groups[i].records())?;
            proof {
                lemma_join_take_step(parts, GS, i as int);
            }
            assert(self.out@ =~= t0 + join(parts.take(i + 1), GS));
            i += 1;
        }
        assert(parts.take(groups@.len() as int) =~= parts);
        Ok(())
    }
}

} // verus!
