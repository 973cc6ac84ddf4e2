//! Building the catalog of upgradable packages from the package manager's listing.
use vstd::prelude::*;
use crate::record::{Program, ROW_WIDTH};
use crate::text::{chars_of, split};

verus! {

/// A line that ended in a line feed, without the carriage return before it.
pub open spec fn strip_cr(p: Seq<char>) -> Seq<char> {
    if p.len() > 0 && p.last() == '\r' {
        p.drop_last()
    } else {
        p
    }
}

/// Pieces that each ended in a line feed, as lines.
pub open spec fn ended_lines(pieces: Seq<Seq<char>>) -> Seq<Seq<char>>
    decreases pieces.len(),
{
    if pieces.len() == 0 {
        Seq::empty()
    } else {
        ended_lines(pieces.drop_last()).push(strip_cr(pieces.last()))
    }
}

/// The lines of `s`: split at `\n` or `\r\n`, with no empty line after a
/// final line ending.
pub open spec fn listing_lines(s: Seq<char>) -> Seq<Seq<char>> {
    let pieces = split(s, '\n');
    if pieces.last().len() == 0 {
        ended_lines(pieces.drop_last())
    } else {
        ended_lines(pieces.drop_last()).push(pieces.last())
    }
}

/// Whether `m` occurs in `s` as a run of consecutive characters.
pub open spec fn contains_text(s: Seq<char>, m: Seq<char>) -> bool {
    exists|i: int| 0 <= i && i + m.len() <= s.len() && #[trigger] s.subrange(i, i + m.len()) == m
}

/// A line cut down to the first `ROW_WIDTH` characters.
pub open spec fn clip(l: Seq<char>) -> Seq<char> {
    if l.len() <= ROW_WIDTH {
        l
    } else {
        l.take(ROW_WIDTH as int)
    }
}

/// The rows that the catalog is read from: each line holding `marker`,
/// clipped, in listing order.
pub open spec fn package_rows(lines: Seq<Seq<char>>, marker: Seq<char>) -> Seq<Seq<char>>
    decreases lines.len(),
{
    if lines.len() == 0 {
        Seq::empty()
    } else if contains_text(lines.last(), marker) {
        package_rows(lines.drop_last(), marker).push(clip(lines.last()))
    } else {
        package_rows(lines.drop_last(), marker)
    }
}

/// Each record was read from the row at its own position.
pub open spec fn catalog_of(ps: Seq<Program>, rows: Seq<Seq<char>>) -> bool {
    &&& ps.len() == rows.len()
    &&& forall|i: int| 0 <= i < ps.len() ==> (#[trigger] ps[i]).parsed_from(rows[i])
}

fn matches_at(v: &Vec<char>, i: usize, m: &Vec<char>) -> (r: bool)
    requires
        i + m.len() <= v.len(),
    ensures
        r == (v@.subrange(i as int, i + m.len()) == m@),
{
    let mut k: usize = 0;
    while k < m.len()
        invariant
            k <= m.len(),
            i + m.len() <= v.len(),
            forall|t: int| 0 <= t < k ==> v@[i + t] == m@[t],
        decreases m.len() - k,
    {
        if v[i + k] != m[k] {
            assert(v@.subrange(i as int, i + m.len())[k as int] != m@[k as int]);
            return false;
        }
        k = k + 1;
    }
    assert(v@.subrange(i as int, i + m.len()) =~= m@);
    true
}

/// Whether `m` occurs in `v[lo..hi]`.
fn has_text(v: &Vec<char>, lo: usize, hi: usize, m: &Vec<char>) -> (r: bool)
    requires
        lo <= hi <= v.len(),
    ensures
        r == contains_text(v@.subrange(lo as int, hi as int), m@),
{
    let ghost s = v@.subrange(lo as int, hi as int);
    if m.len() == 0 {
        assert(s.subrange(0, 0 + m@.len() as int) =~= m@);
        return true;
    }
    if m.len() > hi - lo {
        return false;
    }
    let last = hi - m.len();
    let mut i: usize = lo;
    while i <= last
        invariant
            lo <= i <= last + 1,
            last + m.len() == hi <= v.len(),
            m.len() > 0,
            s == v@.subrange(lo as int, hi as int),
            forall|k: int| 0 <= k < i - lo ==> #[trigger] s.subrange(k, k + m.len()) != m@,
        decreases last + 1 - i,
    {
        assert(s.subrange(i - lo, i - lo + m.len()) =~= v@.subrange(i as int, i + m.len()));
        if matches_at(v, i, m) {
            return true;
        }
        i = i + 1;
    }
    false
}

/// Appends the record of the line `v[a..b]` when it holds the marker.
fn add_row(
    listing: &str,
    v: &Vec<char>,
    a: usize,
    b: usize,
    ended: bool,
    m: &Vec<char>,
    programs: &mut Vec<Program>,
)
    requires
        v@ == listing@,
        a <= b <= v.len(),
    ensures
        ({
            let piece = v@.subrange(a as int, b as int);
            let line = if ended {
                strip_cr(piece)
            } else {
                piece
            };
            if contains_text(line, m@) {
                &&& final(programs)@.len() == old(programs)@.len() + 1
                &&& final(programs)@.drop_last() == old(programs)@
                &&& final(programs)@.last().parsed_from(clip(line))
            } else {
                final(programs)@ == old(programs)@
            }
        }),
{
    let mut e = b;
    if ended && e > a && v[e - 1] == '\r' {
        e = e - 1;
    }
    assert(v@.subrange(a as int, e as int) == if ended {
        strip_cr(v@.subrange(a as int, b as int))
    } else {
        v@.subrange(a as int, b as int)
    });
    if has_text(v, a, e, m) {
        let c = if e - a > ROW_WIDTH {
            a + ROW_WIDTH
        } else {
            e
        };
        let line = listing.substring_char(a, c);
        assert(line@ =~= clip(v@.subrange(a as int, e as int)));
        programs.push(Program::parse_record(line));
    }
}

/// Reads the catalog from the package manager's listing: one record for each
/// line that holds `marker`, read from the line's first `ROW_WIDTH`
/// characters, in listing order.
pub fn build_catalog(listing: &str, marker: &str) -> (r: Vec<Program>)
    ensures
        catalog_of(r@, package_rows(listing_lines(listing@), marker@)),
{
    let v = chars_of(listing);
    let m = chars_of(marker);
    let n = v.len();
    let mut programs: Vec<Program> = Vec::new();
    let mut start: usize = 0;
    let mut j: usize = 0;
    assert(v@.subrange(0, 0) =~= Seq::<char>::empty());
    assert(split(v@.subrange(0, 0), '\n').drop_last() =~= Seq::<Seq<char>>::empty());
    while j < n
        invariant
            start <= j <= n == v.len(),
            v@ == listing@,
            m@ == marker@,
            split(v@.subrange(0, j as int), '\n').len() >= 1,
            split(v@.subrange(0, j as int), '\n').last() == v@.subrange(start as int, j as int),
            catalog_of(
                programs@,
                package_rows(ended_lines(split(v@.subrange(0, j as int), '\n').drop_last()), m@),
            ),
        decreases n - j,
    {
        let ghost before = split(v@.subrange(0, j as int), '\n');
        let ghost after_s = v@.subrange(0, j + 1);
        assert(after_s.drop_last() =~= v@.subrange(0, j as int));
        assert(after_s.last() == v[j as int]);
        if v[j] == '\n' {
            let ghost old_ps = programs@;
            let ghost rows = package_rows(ended_lines(before.drop_last()), m@);
            assert(split(after_s, '\n').drop_last() =~= before);
            assert(before.drop_last().push(before.last()) =~= before);
            assert(ended_lines(before).drop_last() =~= ended_lines(before.drop_last()));
            add_row(listing, &v, start, j, true, &m, &mut programs);
            let ghost rows2 = package_rows(ended_lines(before), m@);
            assert(catalog_of(programs@, rows2)) by {
                if contains_text(strip_cr(before.last()), m@) {
                    assert forall|i: int| 0 <= i < programs@.len() implies (
                    #[trigger] programs@[i]).parsed_from(rows2[i]) by {
                        if i < old_ps.len() {
                            assert(programs@[i] == programs@.drop_last()[i]);
                        }
                    }
                }
            }
            start = j + 1;
            assert(v@.subrange(start as int, j + 1) =~= Seq::<char>::empty());
        } else {
            let ghost after = split(after_s, '\n');
            assert(after == before.update(before.len() - 1, before.last().push(v[j as int])));
            assert(after.drop_last() =~= before.drop_last());
            assert(v@.subrange(start as int, j + 1) =~= v@.subrange(start as int, j as int).push(v[j as int]));
        }
        j = j + 1;
    }
    assert(v@.subrange(0, n as int) =~= listing@);
    let ghost pieces = split(listing@, '\n');
    let ghost old_ps = programs@;
    if start < n {
        add_row(listing, &v, start, n, false, &m, &mut programs);
        let ghost lines = listing_lines(listing@);
        assert(lines.drop_last() == ended_lines(pieces.drop_last()));
        let ghost rows2 = package_rows(lines, m@);
        assert(catalog_of(programs@, rows2)) by {
            if contains_text(pieces.last(), m@) {
                assert forall|i: int| 0 <= i < programs@.len() implies (
                #[trigger] programs@[i]).parsed_from(rows2[i]) by {
                    if i < old_ps.len() {
                        assert(programs@[i] == programs@.drop_last()[i]);
                    }
                }
            }
        }
    } else {
        assert(pieces.last() =~= Seq::<char>::empty());
    }
    programs
}

} // verus!
