//! Units, and the tokeniser that builds them from scalar values.
use vstd::prelude::*;

use crate::chars::{plain_tokens, CharToken, CharTokeniser, Token};
use crate::model::{outcome, pending, pulled, run, Tok};
use crate::separator::{is_plain, ContainsControlChar};
use crate::text::push_char;
use vstd::utf8::{encode_scalar, encode_utf8};

verus! {

/// The pieces of a text between line feeds, the last one possibly empty.
pub open spec fn pieces(s: Seq<char>) -> Seq<Seq<char>>
    decreases s.len(),
{
    if s.len() == 0 {
        seq![Seq::empty()]
    } else {
        let p = pieces(s.drop_last());
        if s.last() == '\n' {
            p.push(Seq::empty())
        } else {
            p.update(p.len() - 1, p.last().push(s.last()))
        }
    }
}

/// A line without the carriage return that ended it.
pub open spec fn strip_cr(l: Seq<char>) -> Seq<char> {
    if l.len() > 0 && l.last() == '\r' {
        l.drop_last()
    } else {
        l
    }
}

/// The lines of a text: split at each line feed, with a carriage return just
/// before the line feed taken off, and no empty line after a final line feed.
pub open spec fn lines(s: Seq<char>) -> Seq<Seq<char>> {
    let p = pieces(s);
    let ended = p.drop_last().map_values(|l: Seq<char>| strip_cr(l));
    if p.last().len() == 0 {
        ended
    } else {
        ended.push(p.last())
    }
}

/// The number of bytes of a character in UTF-8.
pub open spec fn utf8_len(c: char) -> nat {
    encode_scalar(c as u32).len()
}

/// The number of bytes of a text in UTF-8.
pub open spec fn byte_len(l: Seq<char>) -> nat
    decreases l.len(),
{
    if l.len() == 0 {
        0
    } else {
        byte_len(l.drop_last()) + utf8_len(l.last())
    }
}

/// The largest number of bytes of any of the lines, or zero.
pub open spec fn widest(ls: Seq<Seq<char>>) -> nat
    decreases ls.len(),
{
    if ls.len() == 0 {
        0
    } else {
        let w = widest(ls.drop_last());
        let b = byte_len(ls.last());
        if w >= b {
            w
        } else {
            b
        }
    }
}

proof fn lemma_encode_concat(a: Seq<char>, b: Seq<char>)
    ensures
        encode_utf8(a + b) == encode_utf8(a) + encode_utf8(b),
    decreases a.len(),
{
    if a.len() == 0 {
        assert(a + b =~= b);
        assert(encode_utf8(a) + encode_utf8(b) =~= encode_utf8(b));
    } else {
        assert((a + b)[0] == a[0]);
        assert((a + b).drop_first() =~= a.drop_first() + b);
        lemma_encode_concat(a.drop_first(), b);
        let e = encode_scalar(a[0] as u32);
        assert(e + (encode_utf8(a.drop_first()) + encode_utf8(b)) =~= (e + encode_utf8(a.drop_first()))
            + encode_utf8(b));
    }
}

/// Counting bytes character by character gives the length of the UTF-8
/// encoding.
pub proof fn lemma_byte_len_utf8(l: Seq<char>)
    ensures
        byte_len(l) == encode_utf8(l).len(),
    decreases l.len(),
{
    if l.len() > 0 {
        let c = l.last();
        lemma_byte_len_utf8(l.drop_last());
        lemma_encode_concat(l.drop_last(), seq![c]);
        assert(l.drop_last() + seq![c] =~= l);
        assert(seq![c].drop_first() =~= Seq::<char>::empty());
        assert(encode_utf8(seq![c]) =~= encode_scalar(c as u32) + encode_utf8(Seq::<char>::empty()));
    }
}

proof fn lemma_byte_len_prefix(s: Seq<char>, i: int)
    requires
        0 <= i <= s.len(),
    ensures
        byte_len(s.take(i)) <= byte_len(s),
    decreases s.len() - i,
{
    if i < s.len() {
        lemma_byte_len_prefix(s, i + 1);
        assert(s.take(i + 1).drop_last() =~= s.take(i));
    } else {
        assert(s.take(i) =~= s);
    }
}

proof fn lemma_piece_le(s: Seq<char>)
    ensures
        pieces(s).len() >= 1,
        byte_len(pieces(s).last()) <= byte_len(s),
        pieces(s).last().len() == 0 || pieces(s).last().last() == s.last(),
    decreases s.len(),
{
    if s.len() > 0 {
        lemma_piece_le(s.drop_last());
        let p = pieces(s.drop_last());
        assert(p.last().push(s.last()).drop_last() =~= p.last());
    }
}

/// The atomic content value: text without any reserved separator.
#[derive(Debug)]
pub struct Unit {
    value: String,
}

impl View for Unit {
    type V = Seq<char>;

    closed spec fn view(&self) -> Seq<char> {
        self.value@
    }
}

impl Clone for Unit {
    fn clone(&self) -> (r: Self)
        ensures
            r@ == self@,
    {
        proof {
            use_type_invariant(self);
        }
        Unit { value: self.value.clone() }
    }
}

impl Unit {
    #[verifier::type_invariant]
    spec fn inv(&self) -> bool {
        is_plain(self.value@)
    }

    fn new_unchecked(s: String) -> (r: Self)
        requires
            is_plain(s@),
        ensures
            r@ == s@,
    {
        Unit { value: s }
    }

    /// A unit of `value`, refused when it holds a reserved separator.
    pub fn new(value: String) -> (r: Result<Self, ContainsControlChar>)
        ensures
            r is Ok <==> is_plain(value@),
            r matches Ok(u) ==> u@ == value@,
            r matches Err(e) ==> e.text() == value@,
    {
        match ContainsControlChar::check_str(value.as_str()) {
            Ok(()) => Ok(Unit::new_unchecked(value)),
            Err(e) => Err(e),
        }
    }

    /// The unit's text, which holds no reserved separator.
    pub fn as_str(&self) -> (r: &str)
        ensures
            r@ == self@,
            is_plain(self@),
    {
        proof {
            use_type_invariant(self);
        }
        self.value.as_str()
    }

    /// The length of the unit's text in bytes.
    pub fn len(&self) -> (r: usize)
        ensures
            r == byte_len(self@) as usize,
    {
        proof {
            lemma_byte_len_utf8(self@);
        }
        self.value.as_str().len()
    }

    /// The display width of the unit, the byte length of its widest line,
    /// and its height: zero for an empty unit and one otherwise.
    pub fn width_height(&self) -> (r: (usize, usize))
        requires
            byte_len(self@) <= usize::MAX,
        ensures
            r.0 == widest(lines(self@)),
            r.1 == if lines(self@).len() == 0 {
                0usize
            } else {
                1usize
            },
    {
        let s = self.value.as_str();
        let n = s.unicode_len();
        let mut width: usize = 0;
        let mut count: usize = 0;
        let mut cur: usize = 0;
        let mut last_cr = false;
        let mut i: usize = 0;
        let ghost full = s@;
        while i < n
            invariant
                n == full.len(),
                full == s@,
                byte_len(full) <= usize::MAX,
                i <= n,
                pieces(full.take(i as int)).len() == count + 1,
                count + (if cur > 0 {
                    1int
                } else {
                    0int
                }) <= i,
                cur == byte_len(pieces(full.take(i as int)).last()),
                last_cr == (pieces(full.take(i as int)).last().len() > 0 && pieces(
                    full.take(i as int),
                ).last().last() == '\r'),
                width == widest(pieces(full.take(i as int)).drop_last().map_values(
                    |l: Seq<char>| strip_cr(l),
                )),
            decreases n - i,
        {
            let ghost p = pieces(full.take(i as int));
            let c = s.get_char(i);
            assert(full.take(i + 1).drop_last() =~= full.take(i as int));
            proof {
                lemma_piece_le(full.take(i + 1));
                lemma_byte_len_prefix(full, i + 1);
            }
            if c == '\n' {
                let line_w = if last_cr {
                    cur - 1
                } else {
                    cur
                };
                proof {
                    let l = p.last();
                    if last_cr {
                        assert(byte_len(l) == byte_len(l.drop_last()) + 1);
                    }
                    assert(line_w == byte_len(strip_cr(l)));
                    let q = pieces(full.take(i + 1));
                    assert(q == p.push(Seq::empty()));
                    assert(q.drop_last() =~= p);
                    assert(p.map_values(|l: Seq<char>| strip_cr(l)).drop_last() =~= p.drop_last().map_values(
                        |l: Seq<char>| strip_cr(l),
                    ));
                }
                if line_w > width {
                    width = line_w;
                }
                count += 1;
                cur = 0;
                last_cr = false;
            } else {
                proof {
                    let q = pieces(full.take(i + 1));
                    assert(q.drop_last() =~= p.drop_last());
                    assert(q.last() == p.last().push(c));
                    assert(q.last().drop_last() =~= p.last());
                }
                let cu = c as u32;
                let w: usize = if cu < 0x80 {
                    1
                } else if cu < 0x800 {
                    2
                } else if cu < 0x10000 && !(0xD800 <= cu && cu <= 0xDFFF) {
                    3
                } else {
                    4
                };
                assert(w == utf8_len(c));
                cur = cur + w;
                last_cr = c == '\r';
            }
            i += 1;
        }
        assert(full.take(n as int) =~= full);
        let ghost p = pieces(full);
        let ghost ended = p.drop_last().map_values(|l: Seq<char>| strip_cr(l));
        if cur > 0 {
            if cur > width {
                width = cur;
            }
            count += 1;
            assert(lines(full).drop_last() =~= ended);
        } else {
            proof {
                if p.last().len() > 0 {
                    assert(byte_len(p.last()) == byte_len(p.last().drop_last()) + utf8_len(p.last().last()));
                }
            }
        }
        let height: usize = if count < 1 {
            count
        } else {
            1
        };
        proof {
            if lines(full).len() == 0 {
                assert(count == 0);
            }
        }
        (width, height)
    }

    pub fn is_empty(&self) -> (r: bool)
        ensures
            r == (self@.len() == 0),
    {
        self.value.as_str().is_empty()
    }
}

/// What the unit layer hands to the record layer.
#[derive(Debug, Clone)]
pub enum UnitToken {
    FileSeparator,
    GroupSeparator,
    RecordSeparator,
    Unit(Unit),
}

impl View for UnitToken {
    type V = Tok<Seq<char>>;

    open spec fn view(&self) -> Tok<Seq<char>> {
        match self {
            UnitToken::FileSeparator => Tok::Bound(3),
            UnitToken::GroupSeparator => Tok::Bound(2),
            UnitToken::RecordSeparator => Tok::Bound(1),
            UnitToken::Unit(u) => Tok::Item(u@),
        }
    }
}

/// Gathers characters into units, passing on the separators of higher levels
/// right after the unit that they close.
pub struct UnitTokeniser {
    chars: CharTokeniser,
    unit: String,
    next_item: Option<UnitToken>,
}

impl UnitTokeniser {
    pub closed spec fn wf(&self) -> bool {
        &&& self.chars.wf()
        &&& is_plain(self.unit@)
    }

    /// The tokens still to come.
    pub closed spec fn rest(&self) -> Seq<Tok<Seq<char>>> {
        pending(self.next_item) + run(self.unit@, self.chars.rest(), 0, !self.chars.fails())
    }

    /// Whether a failure comes after the remaining tokens.
    pub closed spec fn fails(&self) -> bool {
        self.chars.fails()
    }

    pub fn new(chars: CharTokeniser) -> (r: Self)
        requires
            chars.wf(),
        ensures
            r.wf(),
            r.rest() == run(Seq::empty(), chars.rest(), 0, !chars.fails()),
            r.fails() == chars.fails(),
    {
        let r = UnitTokeniser { chars, unit: String::new(), next_item: None };
        assert(r.rest() =~= run(Seq::empty(), chars.rest(), 0, !chars.fails()));
        r
    }

    fn take_unit(&mut self) -> (u: Unit)
        requires
            old(self).wf(),
        ensures
            final(self).wf(),
            u@ == old(self).unit@,
            final(self).unit@ == Seq::<char>::empty(),
            final(self).chars == old(self).chars,
            final(self).next_item == old(self).next_item,
    {
        let mut s = String::new();
        core::mem::swap(&mut self.unit, &mut s);
        Unit::new_unchecked(s)
    }

    fn handle_separator(&mut self, token: CharToken) -> (r: UnitToken)
        requires
            old(self).wf(),
            old(self).next_item is None,
            token.spec_is_separator(),
        ensures
            final(self).wf(),
            final(self).chars == old(self).chars,
            final(self).unit@ == Seq::<char>::empty(),
            r@ == Tok::Item(old(self).unit@),
            token@ == Tok::<char>::Bound(0) ==> final(self).next_item is None,
            forall|b: u8|
                token@ == Tok::<char>::Bound(b) && b != 0 ==> pending(final(self).next_item)
                    == seq![Tok::<Seq<char>>::Bound(b)],
    {
        self.next_item = match token {
            CharToken::FileSeparator => Some(UnitToken::FileSeparator),
            CharToken::GroupSeparator => Some(UnitToken::GroupSeparator),
            CharToken::RecordSeparator => Some(UnitToken::RecordSeparator),
            CharToken::UnitSeparator => None,
            CharToken::Character(_) => {
                assert(false);
                None
            },
        };
        UnitToken::Unit(self.take_unit())
    }

    /// The next unit or separator; then the failure of the text, once; then
    /// nothing.
    pub fn next(&mut self) -> (r: Option<Result<UnitToken, utf8_read::Error>>)
        requires
            old(self).wf(),
        ensures
            final(self).wf(),
            pulled(old(self).rest(), old(self).fails(), final(self).rest(), final(self).fails(), outcome(r)),
    {
        if let Some(item) = self.next_item.take() {
            assert(self.rest() =~= old(self).rest().drop_first());
            return Some(Ok(item));
        }
        let ghost r0 = self.rest();
        let ghost f0 = self.fails();
        assert(old(self).rest() == r0);
        loop
            invariant
                old(self).rest() == r0,
                old(self).fails() == f0,
                self.wf(),
                self.next_item is None,
                self.rest() == r0,
                self.fails() == f0,
            decreases self.chars.rest().len(),
        {
            let ghost c0 = self.chars.rest();
            let ghost u0 = self.unit@;
            proof {
                self.chars.lemma_plain();
            }
            assert(r0 =~= run(u0, c0, 0, !f0));
            match self.chars.next() {
                None => {
                    assert(c0.len() == 0);
                    assert(!f0);
                    assert(self.chars.rest().len() == 0);
                    if self.unit.as_str().is_empty() {
                        assert(r0.len() == 0);
                        assert(self.rest().len() == 0);
                        return None;
                    }
                    let u = self.take_unit();
                    assert(self.rest() =~= r0.drop_first());
                    return Some(Ok(UnitToken::Unit(u)));
                },
                Some(Err(e)) => {
                    self.unit = String::new();
                    assert(self.rest() =~= Seq::<Tok<Seq<char>>>::empty());
                    return Some(Err(e));
                },
                Some(Ok(CharToken::Character(c))) => {
                    assert(c0[0] == Tok::Item(c));
                    push_char(&mut self.unit, c);
                    assert forall|i: int| 0 <= i < self.unit@.len() implies !crate::separator::is_reserved(
                        #[trigger] self.unit@[i],
                    ) by {
                        if i < u0.len() {
                            assert(self.unit@[i] == u0[i]);
                        }
                    }
                },
                Some(Ok(t)) => {
                    let ghost tv = t@;
                    let r = self.handle_separator(t);
                    assert(self.rest() =~= r0.drop_first()) by {
                        assert(c0[0] == tv);
                        assert(self.chars.rest() == c0.drop_first());
                        let tail = run(Seq::<char>::empty(), c0.drop_first(), 0, !f0);
                        if let Tok::Bound(b) = tv {
                            if b == 0 {
                                assert(r0 == seq![Tok::Item(u0)] + tail);
                                assert((seq![Tok::Item(u0)] + tail).drop_first() =~= tail);
                            } else {
                                assert(r0 == seq![Tok::Item(u0), Tok::Bound(b)] + tail);
                                assert((seq![Tok::Item(u0), Tok::Bound(b)] + tail).drop_first()
                                    =~= seq![Tok::Bound(b)] + tail);
                            }
                        }
                    }
                    return Some(Ok(r));
                },
            }
        }
    }
}

} // verus!
