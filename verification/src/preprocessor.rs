use vstd::prelude::*;
use vstd::string::StrSliceExecFns;

use crate::error::{Error, ErrorType};
use crate::station::{
    lookup_spec, Namespace, SourceLocation, Station, StationModifiers, StationType,
};

verus! {

// ---------------------------------------------------------------------------
// Byte offsets and character columns
// ---------------------------------------------------------------------------
/// Number of bytes of the UTF-8 encoding of `c`.
pub open spec fn char_utf8_width(c: char) -> int {
    if (c as u32) < 0x80 {
        1
    } else if (c as u32) < 0x800 {
        2
    } else if (c as u32) < 0x10000 {
        3
    } else {
        4
    }
}

/// The width assigned to a character here is the length of its UTF-8
/// encoding in vstd's model of the encoding.
pub proof fn lemma_char_utf8_width_agrees(c: char)
    ensures
        char_utf8_width(c) == vstd::utf8::encode_scalar(c as u32).len(),
{
}

/// How many characters of `s` start strictly before byte offset `off` of its
/// UTF-8 encoding.
pub open spec fn char_index_spec(s: Seq<char>, off: int) -> int
    decreases s.len(),
{
    if off <= 0 || s.len() == 0 {
        0
    } else {
        1 + char_index_spec(s.drop_first(), off - char_utf8_width(s[0]))
    }
}

/// Number of bytes of the UTF-8 encoding of `c`.
fn char_width(c: char) -> (w: usize)
    ensures
        w == char_utf8_width(c),
{
    let v = c as u32;
    if v < 0x80 {
        1
    } else if v < 0x800 {
        2
    } else if v < 0x10000 {
        3
    } else {
        4
    }
}

/// Translates a byte offset into `s` to the index of the character holding
/// that byte: the count of decoded characters starting before the offset.
pub fn get_char_index_from_byte_offset(byte_offset: usize, s: &str) -> (r: usize)
    ensures
        r == char_index_spec(s@, byte_offset as int),
{
    let n = s.unicode_len();
    let mut i: usize = 0;
    let mut remaining: usize = byte_offset;
    proof {
        assert(s@.skip(0) =~= s@);
    }
    while i < n && remaining > 0
        invariant
            n == s@.len(),
            i <= n,
            char_index_spec(s@, byte_offset as int) == i + char_index_spec(
                s@.skip(i as int),
                remaining as int,
            ),
        decreases n - i,
    {
        let ghost i0 = i as int;
        let ghost rem0 = remaining as int;
        let w = char_width(s.get_char(i));
        if remaining > w {
            remaining = remaining - w;
        } else {
            remaining = 0;
        }
        i = i + 1;
        proof {
            assert(s@.skip(i0).drop_first() =~= s@.skip(i0 + 1));
            assert(s@.skip(i0)[0] == s@[i0]);
            assert(char_index_spec(s@.skip(i0), rem0) == 1 + char_index_spec(
                s@.skip(i0 + 1),
                rem0 - char_utf8_width(s@[i0]),
            ));
            assert(char_index_spec(s@.skip(i0 + 1), remaining as int) == char_index_spec(
                s@.skip(i0 + 1),
                rem0 - char_utf8_width(s@[i0]),
            ));
        }
    }
    proof {
        if i == n {
            assert(s@.skip(n as int) =~= Seq::<char>::empty());
        }
    }
    i
}

// ---------------------------------------------------------------------------
// Marker extraction
// ---------------------------------------------------------------------------
/// The least index at or after `from` where `c` occurs in `line`, if any.
pub open spec fn find_char_spec(line: Seq<char>, c: char, from: int) -> Option<int>
    decreases line.len() - from
        when 0 <= from <= line.len()
{
    if from >= line.len() {
        None
    } else if line[from] == c {
        Some(from)
    } else {
        find_char_spec(line, c, from + 1)
    }
}

/// A found index lies between `from` and the end of the line, holds `c`, and
/// nothing between `from` and it does; a miss means no occurrence at all.
pub proof fn lemma_find_char_bounds(line: Seq<char>, c: char, from: int)
    requires
        0 <= from <= line.len(),
    ensures
        match find_char_spec(line, c, from) {
            Some(i) => from <= i < line.len() && line[i] == c && (forall|k: int|
                from <= k < i ==> line[k] != c),
            None => forall|k: int| from <= k < line.len() ==> line[k] != c,
        },
    decreases line.len() - from,
{
    if from < line.len() && line[from] != c {
        lemma_find_char_bounds(line, c, from + 1);
    }
}

/// The station markers of one line from column `from` on, each as a
/// `(column, span length)` pair running from a `[` to the first `]` after it.
/// `Err(col)` reports a `[` at `col` that is never closed.
pub open spec fn line_markers_spec(line: Seq<char>, from: int) -> Result<Seq<(int, int)>, int>
    decreases line.len() - from
        when 0 <= from <= line.len()
        via line_markers_spec_decreases
{
    match find_char_spec(line, '[', from) {
        None => Ok(Seq::empty()),
        Some(i) => match find_char_spec(line, ']', i + 1) {
            None => Err(i),
            Some(j) => match line_markers_spec(line, j + 1) {
                Err(c) => Err(c),
                Ok(rest) => Ok(seq![(i, j - i + 1)] + rest),
            },
        },
    }
}

#[via_fn]
proof fn line_markers_spec_decreases(line: Seq<char>, from: int) {
    lemma_find_char_bounds(line, '[', from);
    match find_char_spec(line, '[', from) {
        Some(i) => {
            lemma_find_char_bounds(line, ']', i + 1);
        },
        None => {},
    }
}

/// Every marker of a line lies inside the line, spans at least the two
/// bracket characters, and starts at or after `from`.
pub proof fn lemma_line_markers_bounds(line: Seq<char>, from: int)
    requires
        0 <= from <= line.len(),
    ensures
        match line_markers_spec(line, from) {
            Ok(v) => forall|k: int|
                0 <= k < v.len() ==> from <= #[trigger] v[k].0 && v[k].1 >= 2 && v[k].0 + v[k].1
                    <= line.len(),
            Err(c) => from <= c < line.len(),
        },
    decreases line.len() - from,
{
    lemma_find_char_bounds(line, '[', from);
    match find_char_spec(line, '[', from) {
        Some(i) => {
            lemma_find_char_bounds(line, ']', i + 1);
            match find_char_spec(line, ']', i + 1) {
                Some(j) => {
                    lemma_line_markers_bounds(line, j + 1);
                },
                None => {},
            }
        },
        None => {},
    }
}

/// The marker pairs of one line tagged with that line's number.
pub open spec fn attach_line(l: int, ps: Seq<(int, int)>) -> Seq<(int, int, int)> {
    ps.map(|_i: int, p: (int, int)| (l, p.0, p.1))
}

/// The views of a list of text lines.
pub open spec fn line_views(lines: Seq<&str>) -> Seq<Seq<char>> {
    lines.map(|_i: int, s: &str| s@)
}

/// The markers of a whole source text, in document order (line by line, left
/// to right), each as a `(line, column, span length)` triple. `Err((line,
/// col))` reports the first unclosed `[`.
pub open spec fn doc_markers_spec(lines: Seq<Seq<char>>) -> Result<Seq<(int, int, int)>, (int, int)>
    decreases lines.len(),
{
    if lines.len() == 0 {
        Ok(Seq::empty())
    } else {
        let l = lines.len() - 1;
        match doc_markers_spec(lines.drop_last()) {
            Err(p) => Err(p),
            Ok(ms) => match line_markers_spec(lines[l], 0) {
                Err(c) => Err((l, c)),
                Ok(lm) => Ok(ms + attach_line(l, lm)),
            },
        }
    }
}

/// One more line extends the document markers by that line's markers, or
/// turns the result into that line's failure.
proof fn lemma_doc_markers_step(ls: Seq<Seq<char>>, m: int)
    requires
        0 <= m < ls.len(),
    ensures
        doc_markers_spec(ls.take(m + 1)) == (match doc_markers_spec(ls.take(m)) {
            Err(p) => Err::<Seq<(int, int, int)>, (int, int)>(p),
            Ok(b) => match line_markers_spec(ls[m], 0) {
                Err(c) => Err((m, c)),
                Ok(lm) => Ok(b + attach_line(m, lm)),
            },
        }),
{
    assert(ls.take(m + 1).drop_last() =~= ls.take(m));
    assert(ls.take(m + 1)[m] == ls[m]);
}

/// A failure in a prefix of the lines is the failure of the whole document.
proof fn lemma_doc_markers_err_extends(ls: Seq<Seq<char>>, m: int, m2: int)
    requires
        0 <= m <= m2 <= ls.len(),
        doc_markers_spec(ls.take(m)) is Err,
    ensures
        doc_markers_spec(ls.take(m2)) == doc_markers_spec(ls.take(m)),
    decreases m2 - m,
{
    if m2 > m {
        lemma_doc_markers_err_extends(ls, m, m2 - 1);
        lemma_doc_markers_step(ls, m2 - 1);
    }
}

/// Every marker names a line of the document and lies inside that line.
pub proof fn lemma_doc_markers_bounds(ls: Seq<Seq<char>>)
    ensures
        match doc_markers_spec(ls) {
            Ok(ms) => forall|k: int|
                0 <= k < ms.len() ==> 0 <= #[trigger] ms[k].0 < ls.len() && 0 <= ms[k].1 && ms[k].2
                    >= 2 && ms[k].1 + ms[k].2 <= ls[ms[k].0].len(),
            Err(p) => 0 <= p.0 < ls.len() && 0 <= p.1 < ls[p.0].len(),
        },
    decreases ls.len(),
{
    if ls.len() > 0 {
        let l = ls.len() - 1;
        lemma_doc_markers_bounds(ls.drop_last());
        lemma_line_markers_bounds(ls[l], 0);
        match doc_markers_spec(ls.drop_last()) {
            Ok(ms) => {
                assert(forall|k: int|
                    0 <= k < ls.drop_last().len() ==> ls.drop_last()[k] == ls[k]);
            },
            Err(p) => {},
        }
    }
}

/// The characters strictly between the brackets of a marker.
pub open spec fn marker_id(ls: Seq<Seq<char>>, m: (int, int, int)) -> Seq<char> {
    ls[m.0].subrange(m.1 + 1, m.1 + m.2 - 1)
}

// ---------------------------------------------------------------------------
// Identifier resolution and the entry station
// ---------------------------------------------------------------------------
/// Whether marker `m` resolves to a registry entry.
pub open spec fn marker_resolves(ls: Seq<Seq<char>>, m: (int, int, int), ns: Seq<StationType>) -> bool {
    lookup_spec(ns, marker_id(ls, m)) is Some
}

/// Whether marker `m` resolves to the registry's entry station type.
pub open spec fn is_entry_marker(ls: Seq<Seq<char>>, m: (int, int, int), ns: Seq<StationType>) -> bool {
    match lookup_spec(ns, marker_id(ls, m)) {
        Some(i) => ns[i].is_entry,
        None => false,
    }
}

/// The first marker (in document order) whose identifier resolves to no
/// registry entry, if any.
pub open spec fn first_unresolved_from(
    ls: Seq<Seq<char>>,
    ms: Seq<(int, int, int)>,
    ns: Seq<StationType>,
    k: int,
) -> Option<int>
    decreases ms.len() - k
        when 0 <= k <= ms.len()
{
    if k >= ms.len() {
        None
    } else if !marker_resolves(ls, ms[k], ns) {
        Some(k)
    } else {
        first_unresolved_from(ls, ms, ns, k + 1)
    }
}

/// The first marker whose identifier resolves to no registry entry, if any.
pub open spec fn first_unresolved(
    ls: Seq<Seq<char>>,
    ms: Seq<(int, int, int)>,
    ns: Seq<StationType>,
) -> Option<int> {
    first_unresolved_from(ls, ms, ns, 0)
}

/// If everything before `k` resolves and `k` does not, then `k` is the first
/// unresolved marker.
proof fn lemma_first_unresolved_at(
    ls: Seq<Seq<char>>,
    ms: Seq<(int, int, int)>,
    ns: Seq<StationType>,
    k: int,
)
    requires
        0 <= k < ms.len(),
        forall|x: int| 0 <= x < k ==> marker_resolves(ls, ms[x], ns),
        !marker_resolves(ls, ms[k], ns),
    ensures
        first_unresolved(ls, ms, ns) == Some(k),
{
    lemma_first_unresolved_none_below(ls, ms, ns, 0, k);
}

proof fn lemma_first_unresolved_none_below(
    ls: Seq<Seq<char>>,
    ms: Seq<(int, int, int)>,
    ns: Seq<StationType>,
    j: int,
    k: int,
)
    requires
        0 <= j <= k < ms.len(),
        forall|x: int| j <= x < k ==> marker_resolves(ls, ms[x], ns),
        !marker_resolves(ls, ms[k], ns),
    ensures
        first_unresolved_from(ls, ms, ns, j) == Some(k),
    decreases k - j,
{
    if j < k {
        lemma_first_unresolved_none_below(ls, ms, ns, j + 1, k);
    }
}

/// If every marker resolves, no marker is unresolved.
proof fn lemma_first_unresolved_none(
    ls: Seq<Seq<char>>,
    ms: Seq<(int, int, int)>,
    ns: Seq<StationType>,
    j: int,
)
    requires
        0 <= j <= ms.len(),
        forall|x: int| j <= x < ms.len() ==> marker_resolves(ls, ms[x], ns),
    ensures
        first_unresolved_from(ls, ms, ns, j) is None,
    decreases ms.len() - j,
{
    if j < ms.len() {
        lemma_first_unresolved_none(ls, ms, ns, j + 1);
    }
}

/// How many markers resolve to the entry station type.
pub open spec fn entry_count(
    ls: Seq<Seq<char>>,
    ms: Seq<(int, int, int)>,
    ns: Seq<StationType>,
) -> int
    decreases ms.len(),
{
    if ms.len() == 0 {
        0
    } else {
        entry_count(ls, ms.drop_last(), ns) + if is_entry_marker(ls, ms.last(), ns) {
            1int
        } else {
            0int
        }
    }
}

proof fn lemma_entry_count_step(
    ls: Seq<Seq<char>>,
    ms: Seq<(int, int, int)>,
    ns: Seq<StationType>,
    k: int,
)
    requires
        0 <= k < ms.len(),
    ensures
        entry_count(ls, ms.take(k + 1), ns) == entry_count(ls, ms.take(k), ns) + if is_entry_marker(
            ls,
            ms[k],
            ns,
        ) {
            1int
        } else {
            0int
        },
{
    assert(ms.take(k + 1).drop_last() =~= ms.take(k));
    assert(ms.take(k + 1).last() == ms[k]);
}

/// The first marker at or after `k` resolving to the entry type, if any.
pub open spec fn first_entry_from(
    ls: Seq<Seq<char>>,
    ms: Seq<(int, int, int)>,
    ns: Seq<StationType>,
    k: int,
) -> Option<int>
    decreases ms.len() - k
        when 0 <= k <= ms.len()
{
    if k >= ms.len() {
        None
    } else if is_entry_marker(ls, ms[k], ns) {
        Some(k)
    } else {
        first_entry_from(ls, ms, ns, k + 1)
    }
}

/// A found first entry marker lies in range.
pub proof fn lemma_first_entry_bounds(
    ls: Seq<Seq<char>>,
    ms: Seq<(int, int, int)>,
    ns: Seq<StationType>,
    k: int,
)
    requires
        0 <= k <= ms.len(),
    ensures
        match first_entry_from(ls, ms, ns, k) {
            Some(j) => k <= j < ms.len() && is_entry_marker(ls, ms[j], ns),
            None => true,
        },
    decreases ms.len() - k,
{
    if k < ms.len() && !is_entry_marker(ls, ms[k], ns) {
        lemma_first_entry_bounds(ls, ms, ns, k + 1);
    }
}

/// If nothing in `[j, k)` is an entry marker and `k` is one, then `k` is the
/// first entry marker at or after `j`.
proof fn lemma_first_entry_at(
    ls: Seq<Seq<char>>,
    ms: Seq<(int, int, int)>,
    ns: Seq<StationType>,
    j: int,
    k: int,
)
    requires
        0 <= j <= k < ms.len(),
        forall|x: int| j <= x < k ==> !is_entry_marker(ls, ms[x], ns),
        is_entry_marker(ls, ms[k], ns),
    ensures
        first_entry_from(ls, ms, ns, j) == Some(k),
    decreases k - j,
{
    if j < k {
        lemma_first_entry_at(ls, ms, ns, j + 1, k);
    }
}

// ---------------------------------------------------------------------------
// Marker extraction, executable
// ---------------------------------------------------------------------------
/// The least column at or after `from` holding character `c`.
fn find_char(line: &str, c: char, from: usize, n: usize) -> (r: Option<usize>)
    requires
        n == line@.len(),
        from <= n,
    ensures
        match r {
            Some(i) => find_char_spec(line@, c, from as int) == Some(i as int) && from <= i < n,
            None => find_char_spec(line@, c, from as int) is None,
        },
{
    let mut k: usize = from;
    while k < n
        invariant
            n == line@.len(),
            from <= k <= n,
            find_char_spec(line@, c, from as int) == find_char_spec(line@, c, k as int),
        decreases n - k,
    {
        if line.get_char(k) == c {
            return Some(k);
        }
        k = k + 1;
    }
    None
}

/// The marker pairs of a line as executable values.
pub open spec fn pairs_as_int(v: Seq<(usize, usize)>) -> Seq<(int, int)> {
    v.map(|_i: int, p: (usize, usize)| (p.0 as int, p.1 as int))
}

/// Scans one line for its station markers.
fn extract_line_markers(line: &str) -> (r: Result<Vec<(usize, usize)>, usize>)
    ensures
        match r {
            Ok(v) => line_markers_spec(line@, 0) == Ok::<Seq<(int, int)>, int>(pairs_as_int(v@)),
            Err(c) => line_markers_spec(line@, 0) == Err::<Seq<(int, int)>, int>(c as int),
        },
{
    let n = line.unicode_len();
    let mut acc: Vec<(usize, usize)> = Vec::new();
    let mut from: usize = 0;
    loop
        invariant
            n == line@.len(),
            from <= n,
            match line_markers_spec(line@, from as int) {
                Ok(rest) => line_markers_spec(line@, 0) == Ok::<Seq<(int, int)>, int>(
                    pairs_as_int(acc@) + rest,
                ),
                Err(c) => line_markers_spec(line@, 0) == Err::<Seq<(int, int)>, int>(c),
            },
        ensures
            line_markers_spec(line@, 0) == Ok::<Seq<(int, int)>, int>(pairs_as_int(acc@)),
        decreases n - from,
    {
        match find_char(line, '[', from, n) {
            None => {
                proof {
                    assert(pairs_as_int(acc@) + Seq::<(int, int)>::empty() =~= pairs_as_int(
                        acc@,
                    ));
                }
                break ;
            },
            Some(i) => {
                match find_char(line, ']', i + 1, n) {
                    None => {
                        return Err(i);
                    },
                    Some(j) => {
                        let ghost old_acc = acc@;
                        acc.push((i, j - i + 1));
                        proof {
                            assert(pairs_as_int(acc@) =~= pairs_as_int(old_acc) + seq![
                                (i as int, j - i + 1),
                            ]);
                            match line_markers_spec(line@, j + 1) {
                                Ok(rest2) => {
                                    assert(pairs_as_int(old_acc) + (seq![(i as int, j - i + 1)]
                                        + rest2) =~= pairs_as_int(acc@) + rest2);
                                },
                                Err(c) => {},
                            }
                        }
                        from = j + 1;
                    },
                }
            },
        }
    }
    Ok(acc)
}

/// Triples of executable marker values as mathematical triples.
pub open spec fn triples_as_int(v: Seq<(usize, usize, usize)>) -> Seq<(int, int, int)> {
    v.map(|_i: int, t: (usize, usize, usize)| (t.0 as int, t.1 as int, t.2 as int))
}

/// Scans the whole source for its station markers, in document order.
fn extract_markers(lines: &Vec<&str>) -> (r: Result<Vec<(usize, usize, usize)>, Error>)
    ensures
        match r {
            Ok(v) => doc_markers_spec(line_views(lines@)) == Ok::<
                Seq<(int, int, int)>,
                (int, int),
            >(triples_as_int(v@)),
            Err(e) => {
                &&& doc_markers_spec(line_views(lines@)) matches Err(p)
                &&& e.t == ErrorType::StructuralError
                &&& e.loc.line == p.0 && e.loc.col == p.1 && e.loc.len == 1
            },
        },
{
    let ghost ls = line_views(lines@);
    let mut acc: Vec<(usize, usize, usize)> = Vec::new();
    let mut l: usize = 0;
    let n = lines.len();
    proof {
        assert(ls.take(0) =~= Seq::<Seq<char>>::empty());
        assert(triples_as_int(acc@) =~= Seq::<(int, int, int)>::empty());
    }
    while l < n
        invariant
            n == lines@.len(),
            ls == line_views(lines@),
            l <= n,
            doc_markers_spec(ls.take(l as int)) == Ok::<Seq<(int, int, int)>, (int, int)>(
                triples_as_int(acc@),
            ),
        decreases n - l,
    {
        let line = lines[l];
        proof {
            assert(ls[l as int] == line@);
        }
        match extract_line_markers(line) {
            Err(c) => {
                proof {
                    lemma_doc_markers_step(ls, l as int);
                    lemma_doc_markers_err_extends(ls, l as int + 1, ls.len() as int);
                    assert(ls.take(ls.len() as int) =~= ls);
                }
                return Err(
                    Error::new(
                        ErrorType::StructuralError,
                        SourceLocation { line: l, col: c, len: 1 },
                        "station marker is never closed",
                    ),
                );
            },
            Ok(pairs) => {
                let ghost old_acc = acc@;
                let m = pairs.len();
                let mut k: usize = 0;
                while k < m
                    invariant
                        m == pairs@.len(),
                        k <= m,
                        triples_as_int(acc@) =~= triples_as_int(old_acc) + attach_line(
                            l as int,
                            pairs_as_int(pairs@).take(k as int),
                        ),
                    decreases m - k,
                {
                    let p = pairs[k];
                    let ghost accb = acc@;
                    acc.push((l, p.0, p.1));
                    proof {
                        let pp = pairs_as_int(pairs@);
                        assert(pp[k as int] == (p.0 as int, p.1 as int));
                        assert(pp.take(k as int + 1) =~= pp.take(k as int).push(pp[k as int]));
                        assert(attach_line(l as int, pp.take(k as int + 1)) =~= attach_line(
                            l as int,
                            pp.take(k as int),
                        ).push((l as int, p.0 as int, p.1 as int)));
                        assert(triples_as_int(acc@) =~= triples_as_int(accb).push(
                            (l as int, p.0 as int, p.1 as int),
                        ));
                        assert((triples_as_int(old_acc) + attach_line(
                            l as int,
                            pp.take(k as int),
                        )).push((l as int, p.0 as int, p.1 as int)) =~= triples_as_int(old_acc)
                            + attach_line(l as int, pp.take(k as int + 1)));
                        assert(triples_as_int(acc@) =~= triples_as_int(old_acc) + attach_line(
                            l as int,
                            pp.take(k as int + 1),
                        ));
                    }
                    k = k + 1;
                }
                proof {
                    lemma_doc_markers_step(ls, l as int);
                    assert(pairs_as_int(pairs@).take(m as int) =~= pairs_as_int(pairs@));
                    assert(triples_as_int(acc@) =~= triples_as_int(old_acc) + attach_line(
                        l as int,
                        pairs_as_int(pairs@),
                    ));
                }
            },
        }
        l = l + 1;
    }
    proof {
        assert(ls.take(n as int) =~= ls);
    }
    Ok(acc)
}

// ---------------------------------------------------------------------------
// Discovery
// ---------------------------------------------------------------------------
/// The station a marker must become: placed at the marker's span, behaving as
/// the first registry entry its identifier names, carrying default modifiers.
pub open spec fn station_matches_marker(
    s: Station,
    ls: Seq<Seq<char>>,
    m: (int, int, int),
    ns: Seq<StationType>,
) -> bool {
    &&& s.loc.line == m.0 && s.loc.col == m.1 && s.loc.len == m.2
    &&& lookup_spec(ns, marker_id(ls, m)) matches Some(i) && s.logic.same_type(ns[i])
    &&& s.modifiers == (StationModifiers { reverse: false, priority: crate::station::Direction::NORTH })
}

/// Scans the source lines for station markers and builds the program's
/// stations. Succeeds exactly when every marker is closed, every identifier
/// resolves, and exactly one marker names the registry's entry type; the
/// returned index is that marker's position in document order. On failure no
/// partial program is returned: an unclosed marker or an entry count other
/// than one is a structural error, an unknown identifier an identifier error
/// carrying the offending span.
pub fn discover_stations(lines: &Vec<&str>, ns: &Namespace) -> (r: Result<
    (Vec<Station>, usize),
    Error,
>)
    ensures
        match r {
            Ok(out) => {
                &&& doc_markers_spec(line_views(lines@)) matches Ok(ms)
                &&& first_unresolved(line_views(lines@), ms, ns@) is None
                &&& entry_count(line_views(lines@), ms, ns@) == 1
                &&& out.0@.len() == ms.len()
                &&& forall|k: int|
                    0 <= k < ms.len() ==> station_matches_marker(
                        out.0@[k],
                        line_views(lines@),
                        ms[k],
                        ns@,
                    )
                &&& forall|k: int|
                    0 <= k < ms.len() ==> out.0@[k].in_bays@.len() == 0
                        && out.0@[k].out_bays@.len() == 0
                &&& out.1 < ms.len()
                &&& is_entry_marker(line_views(lines@), ms[out.1 as int], ns@)
                &&& forall|k: int|
                    0 <= k < out.1 ==> !is_entry_marker(line_views(lines@), ms[k], ns@)
            },
            Err(e) => {
                ||| {
                    &&& doc_markers_spec(line_views(lines@)) matches Err(p)
                    &&& e.t == ErrorType::StructuralError
                    &&& e.loc.line == p.0 && e.loc.col == p.1 && e.loc.len == 1
                }
                ||| {
                    &&& doc_markers_spec(line_views(lines@)) matches Ok(ms)
                    &&& first_unresolved(line_views(lines@), ms, ns@) matches Some(k)
                    &&& e.t == ErrorType::IdentifierError
                    &&& e.loc.line == ms[k].0 && e.loc.col == ms[k].1 && e.loc.len == ms[k].2
                }
                ||| {
                    &&& doc_markers_spec(line_views(lines@)) matches Ok(ms)
                    &&& first_unresolved(line_views(lines@), ms, ns@) is None
                    &&& entry_count(line_views(lines@), ms, ns@) != 1
                    &&& e.t == ErrorType::StructuralError
                    &&& (entry_count(line_views(lines@), ms, ns@) == 0 ==> e.loc == (
                    SourceLocation { line: 0, col: 0, len: 0 }))
                    &&& (entry_count(line_views(lines@), ms, ns@) >= 2 ==> {
                        &&& first_entry_from(line_views(lines@), ms, ns@, 0) matches Some(k1)
                        &&& first_entry_from(line_views(lines@), ms, ns@, k1 + 1) matches Some(k2)
                        &&& e.loc.line == ms[k2].0 && e.loc.col == ms[k2].1 && e.loc.len
                            == ms[k2].2
                    })
                }
            },
        },
{
    let ghost ls = line_views(lines@);
    let markers = match extract_markers(lines) {
        Ok(v) => v,
        Err(e) => {
            return Err(e);
        },
    };
    let ghost ms = triples_as_int(markers@);
    proof {
        lemma_doc_markers_bounds(ls);
    }
    let mut stations: Vec<Station> = Vec::new();
    let nm = markers.len();
    let mut k: usize = 0;
    while k < nm
        invariant
            nm == markers@.len(),
            ms == triples_as_int(markers@),
            ls == line_views(lines@),
            doc_markers_spec(ls) == Ok::<Seq<(int, int, int)>, (int, int)>(ms),
            forall|x: int|
                0 <= x < ms.len() ==> 0 <= #[trigger] ms[x].0 < ls.len() && 0 <= ms[x].1
                    && ms[x].2 >= 2 && ms[x].1 + ms[x].2 <= ls[ms[x].0].len(),
            k <= nm,
            stations@.len() == k,
            forall|x: int| 0 <= x < k ==> station_matches_marker(stations@[x], ls, ms[x], ns@),
            forall|x: int|
                0 <= x < k ==> stations@[x].in_bays@.len() == 0 && stations@[x].out_bays@.len()
                    == 0,
            forall|x: int| 0 <= x < k ==> marker_resolves(ls, ms[x], ns@),
        decreases nm - k,
    {
        let t = markers[k];
        proof {
            assert(ms[k as int] == (t.0 as int, t.1 as int, t.2 as int));
            assert(ms[k as int].0 < ls.len());
            assert(ls.len() == lines@.len());
        }
        let line = lines[t.0];
        let nl = line.unicode_len();
        proof {
            assert(ls[t.0 as int] == line@);
            assert(t.1 + t.2 <= nl);
        }
        let ident = line.substring_char(t.1 + 1, t.1 + t.2 - 1);
        let loc = SourceLocation { line: t.0, col: t.1, len: t.2 };
        match Station::new(ident, loc, StationModifiers::default(), ns) {
            Ok(st) => {
                proof {
                    assert(ident@ == marker_id(ls, ms[k as int]));
                }
                stations.push(st);
            },
            Err(e) => {
                proof {
                    assert(ident@ == marker_id(ls, ms[k as int]));
                    lemma_first_unresolved_at(ls, ms, ns@, k as int);
                }
                return Err(e);
            },
        }
        k = k + 1;
    }
    proof {
        lemma_first_unresolved_none(ls, ms, ns@, 0);
    }
    // Count the markers resolving to the entry type; remember the first.
    let mut count: usize = 0;
    let mut start_i: usize = 0;
    let mut found = false;
    let mut second_i: usize = 0;
    let mut found2 = false;
    let mut x: usize = 0;
    proof {
        assert(ms.take(0) =~= Seq::<(int, int, int)>::empty());
    }
    while x < nm
        invariant
            nm == ms.len(),
            stations@.len() == nm,
            ls == line_views(lines@),
            forall|y: int| 0 <= y < nm ==> station_matches_marker(stations@[y], ls, ms[y], ns@),
            x <= nm,
            count == entry_count(ls, ms.take(x as int), ns@),
            count <= x,
            found ==> start_i < x && is_entry_marker(ls, ms[start_i as int], ns@) && (forall|
                y: int,
            |
                0 <= y < start_i ==> !is_entry_marker(ls, ms[y], ns@)),
            !found ==> count == 0 && (forall|y: int| 0 <= y < x ==> !is_entry_marker(ls, ms[y], ns@)),
            count > 0 ==> found,
            found2 ==> found && start_i < second_i < x && is_entry_marker(
                ls,
                ms[second_i as int],
                ns@,
            ) && (forall|y: int| start_i < y < second_i ==> !is_entry_marker(ls, ms[y], ns@)),
            !found2 ==> count <= 1,
            !found2 && found ==> (forall|y: int|
                start_i < y < x ==> !is_entry_marker(ls, ms[y], ns@)),
        decreases nm - x,
    {
        proof {
            lemma_entry_count_step(ls, ms, ns@, x as int);
            assert(station_matches_marker(stations@[x as int], ls, ms[x as int], ns@));
        }
        if stations[x].logic.is_entry {
            if !found {
                start_i = x;
                found = true;
            } else if !found2 {
                second_i = x;
                found2 = true;
            }
            count = count + 1;
        }
        x = x + 1;
    }
    proof {
        assert(ms.take(nm as int) =~= ms);
    }
    if count == 1 {
        Ok((stations, start_i))
    } else if count == 0 {
        Err(
            Error::new(
                ErrorType::StructuralError,
                SourceLocation { line: 0, col: 0, len: 0 },
                "a program needs exactly one entry station, and none was found",
            ),
        )
    } else {
        proof {
            lemma_first_entry_at(ls, ms, ns@, 0, start_i as int);
            lemma_first_entry_at(ls, ms, ns@, start_i as int + 1, second_i as int);
        }
        let t = markers[second_i];
        proof {
            assert(ms[second_i as int] == (t.0 as int, t.1 as int, t.2 as int));
        }
        Err(
            Error::new(
                ErrorType::StructuralError,
                SourceLocation { line: t.0, col: t.1, len: t.2 },
                "a program needs exactly one entry station, but several were found",
            ),
        )
    }
}


/// Builds the whole program graph from the source lines: discovers the
/// stations, then wires every station's out-bays to the nearest stations
/// found on the character grid. Succeeds exactly when discovery does, and
/// fails with the same errors.
pub fn process(lines: &Vec<&str>, ns: &Namespace) -> (r: Result<(Vec<Station>, usize), Error>)
    ensures
        match r {
            Ok(out) => {
                &&& doc_markers_spec(line_views(lines@)) matches Ok(ms)
                &&& first_unresolved(line_views(lines@), ms, ns@) is None
                &&& entry_count(line_views(lines@), ms, ns@) == 1
                &&& out.0@.len() == ms.len()
                &&& forall|k: int|
                    0 <= k < ms.len() ==> station_matches_marker(
                        out.0@[k],
                        line_views(lines@),
                        ms[k],
                        ns@,
                    )
                &&& out.1 < ms.len()
                &&& is_entry_marker(line_views(lines@), ms[out.1 as int], ns@)
                &&& forall|k: int|
                    0 <= k < out.1 ==> !is_entry_marker(line_views(lines@), ms[k], ns@)
                &&& crate::linker::fully_wired(line_views(lines@), out.0@)
            },
            Err(e) => {
                ||| {
                    &&& doc_markers_spec(line_views(lines@)) matches Err(p)
                    &&& e.t == ErrorType::StructuralError
                    &&& e.loc.line == p.0 && e.loc.col == p.1 && e.loc.len == 1
                }
                ||| {
                    &&& doc_markers_spec(line_views(lines@)) matches Ok(ms)
                    &&& first_unresolved(line_views(lines@), ms, ns@) matches Some(k)
                    &&& e.t == ErrorType::IdentifierError
                    &&& e.loc.line == ms[k].0 && e.loc.col == ms[k].1 && e.loc.len == ms[k].2
                }
                ||| {
                    &&& doc_markers_spec(line_views(lines@)) matches Ok(ms)
                    &&& first_unresolved(line_views(lines@), ms, ns@) is None
                    &&& entry_count(line_views(lines@), ms, ns@) != 1
                    &&& e.t == ErrorType::StructuralError
                    &&& (entry_count(line_views(lines@), ms, ns@) == 0 ==> e.loc == (
                    SourceLocation { line: 0, col: 0, len: 0 }))
                    &&& (entry_count(line_views(lines@), ms, ns@) >= 2 ==> {
                        &&& first_entry_from(line_views(lines@), ms, ns@, 0) matches Some(k1)
                        &&& first_entry_from(line_views(lines@), ms, ns@, k1 + 1) matches Some(k2)
                        &&& e.loc.line == ms[k2].0 && e.loc.col == ms[k2].1 && e.loc.len
                            == ms[k2].2
                    })
                }
            },
        },
{
    let ghost ls = line_views(lines@);
    let (mut stations, start_i) = match discover_stations(lines, ns) {
        Ok(p) => p,
        Err(e) => {
            return Err(e);
        },
    };
    let map = crate::linker::build_map(lines);
    proof {
        lemma_doc_markers_bounds(ls);
        assert forall|i: int| 0 <= i < stations@.len() implies crate::linker::station_in_grid(
            crate::linker::grid_views(map@),
            (#[trigger] stations@[i]).loc,
        ) by {
            let ms = doc_markers_spec(ls)->Ok_0;
            assert(station_matches_marker(stations@[i], ls, ms[i], ns@));
            assert(0 <= ms[i].0 < ls.len());
        }
    }
    crate::linker::wire_stations(&mut stations, &map);
    Ok((stations, start_i))
}


// ---------------------------------------------------------------------------
// Splitting the source into lines
// ---------------------------------------------------------------------------
/// The views of a list of owned strings.
pub open spec fn string_views(v: Seq<String>) -> Seq<Seq<char>> {
    v.map(|_i: int, s: String| s@)
}

/// The lines of `s` from position `from` on, split at every newline
/// character; the newline belongs to no line.
pub open spec fn split_from(s: Seq<char>, from: int) -> Seq<Seq<char>>
    decreases s.len() - from
        when 0 <= from <= s.len()
        via split_from_decreases
{
    match find_char_spec(s, '\n', from) {
        None => seq![s.subrange(from, s.len() as int)],
        Some(i) => seq![s.subrange(from, i)] + split_from(s, i + 1),
    }
}

#[via_fn]
proof fn split_from_decreases(s: Seq<char>, from: int) {
    lemma_find_char_bounds(s, '\n', from);
}

/// The lines of a source text.
pub open spec fn split_lines_spec(s: Seq<char>) -> Seq<Seq<char>> {
    split_from(s, 0)
}

/// Splits the source text at newline characters.
pub fn split_lines(src: &str) -> (r: Vec<String>)
    ensures
        string_views(r@) == split_lines_spec(src@),
{
    let n = src.unicode_len();
    let mut out: Vec<String> = Vec::new();
    let mut from: usize = 0;
    loop
        invariant_except_break
            string_views(out@) + split_from(src@, from as int) =~= split_lines_spec(src@),
        invariant
            n == src@.len(),
            from <= n,
        ensures
            string_views(out@) == split_lines_spec(src@),
        decreases n - from,
    {
        match find_char(src, '\n', from, n) {
            None => {
                let piece = src.substring_char(from, n);
                let ghost outb = out@;
                out.push(String::from_str(piece));
                proof {
                    assert(string_views(out@) =~= string_views(outb).push(piece@));
                    assert(string_views(outb).push(piece@) =~= string_views(outb) + seq![
                        src@.subrange(from as int, src@.len() as int),
                    ]);
                    assert(string_views(out@) =~= split_lines_spec(src@));
                }
                break ;
            },
            Some(i) => {
                let piece = src.substring_char(from, i);
                let ghost outb = out@;
                out.push(String::from_str(piece));
                proof {
                    assert(string_views(out@) =~= string_views(outb).push(piece@));
                    assert(string_views(outb).push(piece@) =~= string_views(outb) + seq![
                        src@.subrange(from as int, i as int),
                    ]);
                    assert((string_views(outb) + seq![src@.subrange(from as int, i as int)])
                        + split_from(src@, i as int + 1) =~= string_views(outb) + (seq![
                        src@.subrange(from as int, i as int),
                    ] + split_from(src@, i as int + 1)));
                }
                from = i + 1;
            },
        }
    }
    out
}

// ---------------------------------------------------------------------------
// Discovery outcomes, independently of the concrete registry value
// ---------------------------------------------------------------------------
/// Whether discovery accepts the source: every marker closed, every
/// identifier known, and exactly one entry marker.
pub open spec fn discovery_accepts(ls: Seq<Seq<char>>, ns: Seq<StationType>) -> bool {
    &&& doc_markers_spec(ls) matches Ok(ms)
    &&& first_unresolved(ls, ms, ns) is None
    &&& entry_count(ls, ms, ns) == 1
}

/// Lookup sees only the identifiers, so registries with equal identifier
/// lists resolve alike.
proof fn lemma_lookup_congruence(ns1: Seq<StationType>, ns2: Seq<StationType>, id: Seq<char>)
    requires
        ns1.len() == ns2.len(),
        forall|i: int| 0 <= i < ns1.len() ==> (#[trigger] ns1[i]).id@ == ns2[i].id@,
    ensures
        lookup_spec(ns1, id) == lookup_spec(ns2, id),
    decreases ns1.len(),
{
    if ns1.len() > 0 {
        assert(forall|i: int|
            0 <= i < ns1.drop_first().len() ==> (#[trigger] ns1.drop_first()[i]).id@
                == ns2.drop_first()[i].id@);
        lemma_lookup_congruence(ns1.drop_first(), ns2.drop_first(), id);
    }
}

/// Registries whose entries agree on identifiers and entry flags make the
/// same markers resolve, count the same entry markers, and leave the same
/// first marker unresolved.
pub proof fn lemma_registry_congruence(
    ls: Seq<Seq<char>>,
    ms: Seq<(int, int, int)>,
    ns1: Seq<StationType>,
    ns2: Seq<StationType>,
)
    requires
        ns1.len() == ns2.len(),
        forall|i: int| 0 <= i < ns1.len() ==> (#[trigger] ns1[i]).id@ == ns2[i].id@,
        forall|i: int| 0 <= i < ns1.len() ==> (#[trigger] ns1[i]).is_entry == ns2[i].is_entry,
    ensures
        forall|m: (int, int, int)| #[trigger]
            marker_resolves(ls, m, ns1) == marker_resolves(ls, m, ns2),
        forall|m: (int, int, int)| #[trigger]
            is_entry_marker(ls, m, ns1) == is_entry_marker(ls, m, ns2),
        first_unresolved(ls, ms, ns1) == first_unresolved(ls, ms, ns2),
        entry_count(ls, ms, ns1) == entry_count(ls, ms, ns2),
        forall|k: int|
            0 <= k <= ms.len() ==> #[trigger] first_entry_from(ls, ms, ns1, k) == first_entry_from(
                ls,
                ms,
                ns2,
                k,
            ),
{
    assert forall|m: (int, int, int)| #[trigger] marker_resolves(ls, m, ns1) == marker_resolves(
        ls,
        m,
        ns2,
    ) by {
        lemma_lookup_congruence(ns1, ns2, marker_id(ls, m));
    }
    assert forall|m: (int, int, int)| #[trigger] is_entry_marker(ls, m, ns1) == is_entry_marker(
        ls,
        m,
        ns2,
    ) by {
        lemma_lookup_congruence(ns1, ns2, marker_id(ls, m));
        lemma_station_at_entry_flags(ls, m, ns1, ns2);
    }
    lemma_first_unresolved_congruence(ls, ms, ns1, ns2, 0);
    lemma_entry_count_congruence(ls, ms, ns1, ns2);
    assert forall|k: int| 0 <= k <= ms.len() implies #[trigger] first_entry_from(ls, ms, ns1, k)
        == first_entry_from(ls, ms, ns2, k) by {
        lemma_first_entry_congruence(ls, ms, ns1, ns2, k);
    }
}

proof fn lemma_first_entry_congruence(
    ls: Seq<Seq<char>>,
    ms: Seq<(int, int, int)>,
    ns1: Seq<StationType>,
    ns2: Seq<StationType>,
    k: int,
)
    requires
        0 <= k <= ms.len(),
        ns1.len() == ns2.len(),
        forall|i: int| 0 <= i < ns1.len() ==> (#[trigger] ns1[i]).id@ == ns2[i].id@,
        forall|i: int| 0 <= i < ns1.len() ==> (#[trigger] ns1[i]).is_entry == ns2[i].is_entry,
    ensures
        first_entry_from(ls, ms, ns1, k) == first_entry_from(ls, ms, ns2, k),
    decreases ms.len() - k,
{
    if k < ms.len() {
        lemma_lookup_congruence(ns1, ns2, marker_id(ls, ms[k]));
        lemma_station_at_entry_flags(ls, ms[k], ns1, ns2);
        lemma_first_entry_congruence(ls, ms, ns1, ns2, k + 1);
    }
}

/// The program graph that discovery and wiring produce for an accepted
/// source: one station per marker, the first entry marker's index, and the
/// full wiring of the grid.
pub open spec fn graph_matches(
    ls: Seq<Seq<char>>,
    ns: Seq<StationType>,
    sts: Seq<Station>,
    start: int,
) -> bool {
    &&& doc_markers_spec(ls) matches Ok(ms)
    &&& first_unresolved(ls, ms, ns) is None
    &&& entry_count(ls, ms, ns) == 1
    &&& sts.len() == ms.len()
    &&& forall|k: int| 0 <= k < ms.len() ==> station_matches_marker(sts[k], ls, ms[k], ns)
    &&& 0 <= start < ms.len()
    &&& is_entry_marker(ls, ms[start], ns)
    &&& forall|k: int| 0 <= k < start ==> !is_entry_marker(ls, ms[k], ns)
    &&& crate::linker::fully_wired(ls, sts)
}

/// A graph matching the source under one registry matches it under any
/// registry whose entries agree on every field the contracts read.
pub proof fn lemma_graph_matches_congruence(
    ls: Seq<Seq<char>>,
    sts: Seq<Station>,
    start: int,
    ns1: Seq<StationType>,
    ns2: Seq<StationType>,
)
    requires
        ns1.len() == ns2.len(),
        forall|i: int|
            0 <= i < ns1.len() ==> (#[trigger] ns1[i]).id@ == ns2[i].id@ && ns1[i].inputs
                == ns2[i].inputs && ns1[i].kind == ns2[i].kind && ns1[i].is_entry
                == ns2[i].is_entry && ns1[i].is_terminal == ns2[i].is_terminal,
        graph_matches(ls, ns1, sts, start),
    ensures
        graph_matches(ls, ns2, sts, start),
{
    let ms = doc_markers_spec(ls)->Ok_0;
    lemma_registry_congruence(ls, ms, ns1, ns2);
    assert forall|k: int| 0 <= k < ms.len() implies station_matches_marker(
        sts[k],
        ls,
        ms[k],
        ns2,
    ) by {
        lemma_lookup_congruence(ns1, ns2, marker_id(ls, ms[k]));
        crate::station::lemma_lookup_spec_bounds(ns1, marker_id(ls, ms[k]));
        assert(station_matches_marker(sts[k], ls, ms[k], ns1));
        let i = lookup_spec(ns1, marker_id(ls, ms[k]))->Some_0;
        assert(sts[k].logic.same_type(ns1[i]));
        assert(sts[k].logic.same_type(ns2[i]));
    }
}

proof fn lemma_station_at_entry_flags(
    ls: Seq<Seq<char>>,
    m: (int, int, int),
    ns1: Seq<StationType>,
    ns2: Seq<StationType>,
)
    requires
        ns1.len() == ns2.len(),
        forall|i: int| 0 <= i < ns1.len() ==> (#[trigger] ns1[i]).id@ == ns2[i].id@,
        forall|i: int| 0 <= i < ns1.len() ==> (#[trigger] ns1[i]).is_entry == ns2[i].is_entry,
        lookup_spec(ns1, marker_id(ls, m)) == lookup_spec(ns2, marker_id(ls, m)),
    ensures
        is_entry_marker(ls, m, ns1) == is_entry_marker(ls, m, ns2),
{
    crate::station::lemma_lookup_spec_bounds(ns1, marker_id(ls, m));
}

proof fn lemma_first_unresolved_congruence(
    ls: Seq<Seq<char>>,
    ms: Seq<(int, int, int)>,
    ns1: Seq<StationType>,
    ns2: Seq<StationType>,
    k: int,
)
    requires
        0 <= k <= ms.len(),
        ns1.len() == ns2.len(),
        forall|i: int| 0 <= i < ns1.len() ==> (#[trigger] ns1[i]).id@ == ns2[i].id@,
    ensures
        first_unresolved_from(ls, ms, ns1, k) == first_unresolved_from(ls, ms, ns2, k),
    decreases ms.len() - k,
{
    if k < ms.len() {
        lemma_lookup_congruence(ns1, ns2, marker_id(ls, ms[k]));
        lemma_first_unresolved_congruence(ls, ms, ns1, ns2, k + 1);
    }
}

proof fn lemma_entry_count_congruence(
    ls: Seq<Seq<char>>,
    ms: Seq<(int, int, int)>,
    ns1: Seq<StationType>,
    ns2: Seq<StationType>,
)
    requires
        ns1.len() == ns2.len(),
        forall|i: int| 0 <= i < ns1.len() ==> (#[trigger] ns1[i]).id@ == ns2[i].id@,
        forall|i: int| 0 <= i < ns1.len() ==> (#[trigger] ns1[i]).is_entry == ns2[i].is_entry,
    ensures
        entry_count(ls, ms, ns1) == entry_count(ls, ms, ns2),
    decreases ms.len(),
{
    if ms.len() > 0 {
        lemma_entry_count_congruence(ls, ms.drop_last(), ns1, ns2);
        lemma_lookup_congruence(ns1, ns2, marker_id(ls, ms.last()));
        lemma_station_at_entry_flags(ls, ms.last(), ns1, ns2);
    }
}

} // verus!
