//! The four reserved separator characters and the classification of scalars.
use vstd::prelude::*;

use crate::model::Tok;

verus! {

/// Separates files (documents).
pub const FS: char = '\u{241C}';

/// Separates groups within a file.
pub const GS: char = '\u{241D}';

/// Separates records within a group.
pub const RS: char = '\u{241E}';

/// Separates units within a record.
pub const US: char = '\u{241F}';

/// Whether `c` is one of the four reserved separators.
pub open spec fn is_reserved(c: char) -> bool {
    c == FS || c == GS || c == RS || c == US
}

/// Whether a character sequence holds no reserved separator.
pub open spec fn is_plain(s: Seq<char>) -> bool {
    forall|i: int| 0 <= i < s.len() ==> !is_reserved(#[trigger] s[i])
}

/// The separator character of a boundary rank.
pub open spec fn sep_char(rank: u8) -> char {
    if rank == 0 {
        US
    } else if rank == 1 {
        RS
    } else if rank == 2 {
        GS
    } else {
        FS
    }
}

/// The token that a scalar value stands for.
pub open spec fn token_of(c: char) -> Tok<char> {
    if c == US {
        Tok::Bound(0)
    } else if c == RS {
        Tok::Bound(1)
    } else if c == GS {
        Tok::Bound(2)
    } else if c == FS {
        Tok::Bound(3)
    } else {
        Tok::Item(c)
    }
}

/// The tokens that a character sequence stands for.
pub open spec fn tokens_of(s: Seq<char>) -> Seq<Tok<char>> {
    s.map_values(|c: char| token_of(c))
}

/// The reserved separators, file separator first.
pub fn control_chars() -> (r: Vec<char>)
    ensures
        r@ == seq![FS, GS, RS, US],
{
    let r = vec![FS, GS, RS, US];
    assert(r@ =~= seq![FS, GS, RS, US]);
    r
}

/// The error of building a unit from text that holds a reserved separator.
#[derive(Debug)]
pub struct ContainsControlChar {
    string: String,
}

impl ContainsControlChar {
    /// The offending text.
    pub closed spec fn text(&self) -> Seq<char> {
        self.string@
    }

    /// The error for the offending text `string`.
    pub fn new(string: String) -> (r: Self)
        ensures
            r.text() == string@,
    {
        ContainsControlChar { string }
    }

    /// The offending text.
    pub fn string(&self) -> (r: &str)
        ensures
            r@ == self.text(),
    {
        self.string.as_str()
    }

    /// Succeeds exactly when `s` holds no reserved separator; the error
    /// carries `s`.
    pub fn check_str(s: &str) -> (r: Result<(), ContainsControlChar>)
        ensures
            r is Ok <==> is_plain(s@),
            r matches Err(e) ==> e.text() == s@,
    {
        let banned = control_chars();
        let n = s.unicode_len();
        let mut i: usize = 0;
        while i < n
            invariant
                n == s@.len(),
                i <= n,
                banned@ == seq![FS, GS, RS, US],
                forall|k: int| 0 <= k < i ==> !is_reserved(#[trigger] s@[k]),
            decreases n - i,
        {
            let c = s.get_char(i);
            let mut j: usize = 0;
            while j < banned.len()
                invariant
                    banned@ == seq![FS, GS, RS, US],
                    j <= banned.len(),
                    n == s@.len(),
                    i < n,
                    c == s@[i as int],
                    forall|k: int| 0 <= k < j ==> banned@[k] != c,
                decreases banned.len() - j,
            {
                if banned[j] == c {
                    assert(is_reserved(s@[i as int]));
                    assert(!is_plain(s@));
                    return Err(ContainsControlChar { string: String::from_str(s) });
                }
                j += 1;
            }
            assert(!is_reserved(c)) by {
                assert(banned@[0] == FS && banned@[1] == GS && banned@[2] == RS && banned@[3] == US);
            }
            i += 1;
        }
        Ok(())
    }
}

} // verus!
