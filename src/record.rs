//! Parsing of one fixed-width listing row into a package record.
use vstd::prelude::*;
use crate::text::{
    chars_of, contains_char, is_white_space, remove_char, trim, trim_end, trim_start, trimmed,
    without_char,
};

verus! {

/// Width of the name column, counted in characters from the start of a row.
pub const NAME_WIDTH: usize = 34;

/// Width of the identifier column, counted in characters from the end of a row.
pub const ID_WIDTH: usize = 35;

/// Width of a full row: the name column followed by the identifier column.
pub const ROW_WIDTH: usize = NAME_WIDTH + ID_WIDTH;

/// The glyph the package manager writes where it cut a field short.
pub const ELLIPSIS: char = '\u{2026}';

/// The name column of a row: its first `NAME_WIDTH` characters (all of them
/// when the row is shorter).
pub open spec fn name_field(line: Seq<char>) -> Seq<char> {
    if line.len() < NAME_WIDTH {
        line
    } else {
        line.take(NAME_WIDTH as int)
    }
}

/// The identifier column of a row: its last `ID_WIDTH` characters (all of them
/// when the row is shorter).
pub open spec fn id_field(line: Seq<char>) -> Seq<char> {
    if line.len() < ID_WIDTH {
        line
    } else {
        line.skip(line.len() - ID_WIDTH)
    }
}

/// `s` padded on the right with spaces up to `width` characters.
pub open spec fn pad(s: Seq<char>, width: nat) -> Seq<char> {
    s + Seq::new((width - s.len()) as nat, |i: int| ' ')
}

/// A package row of the listing.
#[derive(Debug)]
pub struct Program {
    /// Display name, with elision glyphs removed and white space trimmed.
    pub name: String,
    /// Package identifier, white space trimmed; possibly cut short.
    pub id: String,
    /// Whether the identifier column held no elision glyph.
    pub is_id_complete: bool,
}

impl Program {
    /// The fields of this record are those that `line` yields.
    pub open spec fn parsed_from(self, line: Seq<char>) -> bool {
        &&& self.name@ == trim(without_char(name_field(line), ELLIPSIS))
        &&& self.id@ == trim(id_field(line))
        &&& self.is_id_complete == !id_field(line).contains(ELLIPSIS)
    }

    /// The value that names this package to the user and to the upgrade: the
    /// identifier when it is complete, the display name otherwise.
    pub open spec fn working_identifier(self) -> Seq<char> {
        if self.is_id_complete {
            self.id@
        } else {
            self.name@
        }
    }

    /// Reads a record from one row of the listing. Never fails: a row shorter
    /// than `ROW_WIDTH` gives columns that overlap.
    pub fn parse_record(line: &str) -> (r: Program)
        ensures
            r.parsed_from(line@),
    {
        let n = line.unicode_len();
        let name_end: usize = if n < NAME_WIDTH { n } else { NAME_WIDTH };
        let id_start: usize = if n < ID_WIDTH { 0 } else { n - ID_WIDTH };
        let name_part = line.substring_char(0, name_end);
        let id_part = line.substring_char(id_start, n);
        assert(name_part@ == name_field(line@));
        assert(id_part@ == id_field(line@));
        let name = trimmed(remove_char(name_part, ELLIPSIS).as_str());
        let id = trimmed(id_part);
        let id_chars = chars_of(id_part);
        assert(id_chars@.subrange(0, id_chars@.len() as int) =~= id_chars@);
        let marked = contains_char(&id_chars, 0, id_chars.len(), ELLIPSIS);
        Program { name, id, is_id_complete: !marked }
    }

    /// The working identifier of this record.
    pub fn get_identifier(&self) -> (r: &str)
        ensures
            r@ == self.working_identifier(),
    {
        if self.is_id_complete {
            self.id.as_str()
        } else {
            self.name.as_str()
        }
    }
}

proof fn lemma_without_absent(s: Seq<char>, m: char)
    requires
        !s.contains(m),
    ensures
        without_char(s, m) == s,
    decreases s.len(),
{
    if s.len() > 0 {
        assert(!s.drop_last().contains(m)) by {
            if s.drop_last().contains(m) {
                let k = choose|k: int| 0 <= k < s.drop_last().len() && s.drop_last()[k] == m;
                assert(s[k] == m);
            }
        }
        lemma_without_absent(s.drop_last(), m);
        assert(s.last() != m) by {
            assert(s[s.len() - 1] == s.last());
        }
        assert(s.drop_last().push(s.last()) =~= s);
    }
}

proof fn lemma_trim_start_blank(p: Seq<char>)
    requires
        forall|i: int| 0 <= i < p.len() ==> is_white_space(#[trigger] p[i]),
    ensures
        trim_start(p).len() == 0,
    decreases p.len(),
{
    if p.len() > 0 {
        assert forall|i: int| 0 <= i < p.drop_first().len() implies is_white_space(
            #[trigger] p.drop_first()[i],
        ) by {
            assert(p.drop_first()[i] == p[i + 1]);
        }
        lemma_trim_start_blank(p.drop_first());
    }
}

proof fn lemma_trim_start_append(s: Seq<char>, p: Seq<char>)
    ensures
        trim_start(s + p) == if trim_start(s).len() > 0 {
            trim_start(s) + p
        } else {
            trim_start(p)
        },
    decreases s.len(),
{
    if s.len() == 0 {
        assert(s + p =~= p);
    } else {
        assert((s + p)[0] == s[0]);
        assert((s + p).drop_first() =~= s.drop_first() + p);
        lemma_trim_start_append(s.drop_first(), p);
    }
}

proof fn lemma_trim_end_blank_suffix(t: Seq<char>, p: Seq<char>)
    requires
        forall|i: int| 0 <= i < p.len() ==> is_white_space(#[trigger] p[i]),
    ensures
        trim_end(t + p) == trim_end(t),
    decreases p.len(),
{
    if p.len() == 0 {
        assert(t + p =~= t);
    } else {
        assert((t + p).last() == p.last());
        assert((t + p).drop_last() =~= t + p.drop_last());
        assert forall|i: int| 0 <= i < p.drop_last().len() implies is_white_space(
            #[trigger] p.drop_last()[i],
        ) by {
            assert(p.drop_last()[i] == p[i]);
        }
        lemma_trim_end_blank_suffix(t, p.drop_last());
    }
}

/// Trailing blank padding does not change what trimming leaves.
proof fn lemma_trim_padded(s: Seq<char>, width: nat)
    ensures
        trim(pad(s, width)) == trim(s),
{
    let p = Seq::new((width - s.len()) as nat, |i: int| ' ');
    assert(pad(s, width) == s + p);
    assert forall|i: int| 0 <= i < p.len() implies is_white_space(#[trigger] p[i]) by {}
    lemma_trim_start_append(s, p);
    if trim_start(s).len() > 0 {
        lemma_trim_end_blank_suffix(trim_start(s), p);
    } else {
        lemma_trim_start_blank(p);
        assert(trim_start(s) =~= Seq::<char>::empty());
        assert(trim_start(p) =~= Seq::<char>::empty());
    }
}

/// A row built from a name padded to the name column and an identifier padded
/// to the identifier column, neither holding the elision glyph, reads back as
/// the trimmed name and identifier, with the identifier complete.
pub proof fn lemma_record_round_trip(name: Seq<char>, id: Seq<char>, p: Program)
    requires
        name.len() <= NAME_WIDTH,
        id.len() <= ID_WIDTH,
        !name.contains(ELLIPSIS),
        !id.contains(ELLIPSIS),
        p.parsed_from(pad(name, NAME_WIDTH as nat) + pad(id, ID_WIDTH as nat)),
    ensures
        p.name@ == trim(name),
        p.id@ == trim(id),
        p.is_id_complete,
{
    let a = pad(name, NAME_WIDTH as nat);
    let b = pad(id, ID_WIDTH as nat);
    let line = a + b;
    assert(name_field(line) =~= a);
    assert(id_field(line) =~= b);
    assert(!a.contains(ELLIPSIS)) by {
        if a.contains(ELLIPSIS) {
            let k = choose|k: int| 0 <= k < a.len() && a[k] == ELLIPSIS;
            if k >= name.len() {
                assert(a[k] == ' ');
            } else {
                assert(name[k] == ELLIPSIS);
            }
        }
    }
    assert(!b.contains(ELLIPSIS)) by {
        if b.contains(ELLIPSIS) {
            let k = choose|k: int| 0 <= k < b.len() && b[k] == ELLIPSIS;
            if k >= id.len() {
                assert(b[k] == ' ');
            } else {
                assert(id[k] == ELLIPSIS);
            }
        }
    }
    lemma_without_absent(a, ELLIPSIS);
    lemma_trim_padded(name, NAME_WIDTH as nat);
    lemma_trim_padded(id, ID_WIDTH as nat);
}

/// Where the identifier column holds the elision glyph, the identifier is
/// marked incomplete and the working identifier is the display name.
pub proof fn lemma_elided_identifier(line: Seq<char>, p: Program)
    requires
        p.parsed_from(line),
        id_field(line).contains(ELLIPSIS),
    ensures
        !p.is_id_complete,
        p.working_identifier() == p.name@,
{
}

} // verus!
