use crate::range::{Point, Range};
use crate::text::{
    char_texts, char_width, chars_of, decimal, is_numeral, lemma_width_step, numeral_value,
    parse_number, push_decimal, string_from_chars, sub_chars, text_width, texts, width_of_char,
    words, words_of,
};
use itertools::Itertools;
use vstd::prelude::*;
use vstd::string::{StrSliceExecFns, StringExecFns, StringSliceAdditionalSpecFns};
use vstd::utf8::{is_ascii_chars, is_ascii_chars_encode_utf8};

verus! {

/// The first index from `i` on at which `s` holds `c`, or the length of
/// `s` where it holds none.
pub open spec fn first_at(s: Seq<char>, c: char, i: int) -> int
    decreases s.len() - i,
{
    if i < 0 || i >= s.len() || s[i] == c {
        i
    } else {
        first_at(s, c, i + 1)
    }
}

/// `first_at` ends at or behind its start, within `s`, at the first `c`.
pub proof fn lemma_first_at(s: Seq<char>, c: char, i: int)
    requires
        0 <= i <= s.len(),
    ensures
        i <= first_at(s, c, i) <= s.len(),
        forall|j: int| i <= j < first_at(s, c, i) ==> #[trigger] s[j] != c,
        first_at(s, c, i) < s.len() ==> s[first_at(s, c, i)] == c,
    decreases s.len() - i,
{
    if i < s.len() && s[i] != c {
        lemma_first_at(s, c, i + 1);
    }
}

/// The first index from `from` on at which `v` holds `c`, or the length
/// of `v`.
pub fn find_char(v: &Vec<char>, c: char, from: usize) -> (at: usize)
    requires
        from <= v@.len(),
    ensures
        at == first_at(v@, c, from as int),
        from <= at <= v@.len(),
{
    let mut i = from;
    while i < v.len() && v[i] != c
        invariant
            from <= i <= v@.len(),
            first_at(v@, c, from as int) == first_at(v@, c, i as int),
        decreases v@.len() - i,
    {
        i += 1;
    }
    i
}

/// The lines of the text `s` from index `i` on: what each `\n` ends, and
/// what follows the last, each with a `\n` at its end. A text that ends
/// in `\n` so has an empty last line.
pub open spec fn lines_from(s: Seq<char>, i: int) -> Seq<Seq<char>>
    decreases s.len() - i,
{
    let e = first_at(s, '\n', i);
    if i < 0 || i > s.len() {
        Seq::empty()
    } else if e >= s.len() {
        seq![s.subrange(i, s.len() as int).push('\n')]
    } else {
        proof {
            lemma_first_at(s, '\n', i);
        }
        seq![s.subrange(i, e).push('\n')] + lines_from(s, e + 1)
    }
}

/// The buffer of the text `s`: its lines.
pub open spec fn lines(s: Seq<char>) -> Seq<Seq<char>> {
    lines_from(s, 0)
}

/// The buffer of `content`: the text is split at each `\n`, and each
/// part gets a `\n` at its end.
pub fn buffer_of(content: &str) -> (buffer: Vec<String>)
    ensures
        texts(buffer@) == lines(content@),
        buffer@.len() > 0,
{
    let v = chars_of(content);
    let n = v.len();
    let mut buffer: Vec<String> = Vec::new();
    let mut i: usize = 0;
    proof {
        assert(texts(buffer@) =~= Seq::<Seq<char>>::empty());
        assert(Seq::<Seq<char>>::empty() + lines_from(v@, 0) =~= lines_from(v@, 0));
    }
    loop
        invariant
            n == v@.len(),
            v@ == content@,
            i <= n,
            lines(v@) == texts(buffer@) + lines_from(v@, i as int),
        decreases n - i,
    {
        let e = find_char(&v, '\n', i);
        let mut line = sub_chars(&v, i, e);
        line.push('\n');
        let text = string_from_chars(&line);
        let ghost before = texts(buffer@);
        buffer.push(text);
        proof {
            assert(texts(buffer@) =~= before.push(line@));
        }
        if e >= n {
            proof {
                assert(before.push(line@) =~= before + seq![line@]);
            }
            return buffer;
        }
        proof {
            let rest = lines_from(v@, e + 1);
            assert(before.push(line@) + rest =~= before + (seq![line@] + rest));
        }
        i = e + 1;
    }
}

/// The bytes that the first `row` lines take.
pub open spec fn bytes_before(lines: Seq<Seq<char>>, row: int) -> nat
    decreases row,
{
    if row <= 0 {
        0
    } else {
        bytes_before(lines, row - 1) + text_width(lines[row - 1])
    }
}

/// The byte at which the `col`-th codepoint of line `row` starts, both
/// counted from 1: the bytes of the lines before, and those of the
/// codepoints before it in its line.
pub open spec fn coords_byte(lines: Seq<Seq<char>>, row: nat, col: nat) -> nat {
    bytes_before(lines, row - 1) + text_width(lines[row - 1].take(col - 1))
}

/// Whether line `row` has a `col`-th codepoint, both counted from 1, and
/// the byte at which it starts fits the machine.
pub open spec fn coords_valid(lines: Seq<Seq<char>>, row: nat, col: nat) -> bool {
    &&& 1 <= row <= lines.len()
    &&& row <= usize::MAX
    &&& 1 <= col <= lines[row - 1].len()
    &&& col <= usize::MAX
    &&& coords_byte(lines, row, col) <= usize::MAX
}

/// Columns count codepoints, not bytes: the next column of a line starts
/// behind all the bytes of the codepoint at this column, however many
/// those are.
pub proof fn lemma_next_column(lines: Seq<Seq<char>>, row: nat, col: nat)
    requires
        1 <= row <= lines.len(),
        1 <= col <= lines[row - 1].len(),
    ensures
        coords_byte(lines, row, col + 1) == coords_byte(lines, row, col) + char_width(
            lines[row - 1][col - 1],
        ),
{
    lemma_width_step(lines[row - 1], col - 1);
}

/// The line and the codepoint that `s` names, both counted from 1, where
/// `s` is of the form `row.col` with both in decimal digits.
pub open spec fn parse_coords(s: Seq<char>) -> Option<(nat, nat)> {
    let dot = first_at(s, '.', 0);
    let row = s.take(dot);
    let col = s.skip(dot + 1);
    if dot < s.len() && is_numeral(row) && is_numeral(col) {
        Some((numeral_value(row), numeral_value(col)))
    } else {
        None
    }
}

/// The byte and the position that the coordinates `s` name in the
/// buffer, where `s` is well formed and names a codepoint of the buffer.
pub open spec fn locate(lines: Seq<Seq<char>>, s: Seq<char>) -> Option<(usize, Point)> {
    match parse_coords(s) {
        Some((row, col)) => if coords_valid(lines, row, col) {
            Some(
                (
                    coords_byte(lines, row, col) as usize,
                    Point { row: (row - 1) as usize, column: (col - 1) as usize },
                ),
            )
        } else {
            None
        },
        None => None,
    }
}

/// The range between two located ends: from the one that comes first in
/// the text to the other.
pub open spec fn span_between(a: (usize, Point), b: (usize, Point)) -> Range {
    if a.0 > b.0 {
        Range { start_byte: b.0, end_byte: a.0, start_point: b.1, end_point: a.1 }
    } else {
        Range { start_byte: a.0, end_byte: b.0, start_point: a.1, end_point: b.1 }
    }
}

/// The range that the selection `s` names in the buffer, where `s` is of
/// the form `row.col,row.col` and both ends name a codepoint of the
/// buffer. The end that comes first in the text is the start.
pub open spec fn selection_range(lines: Seq<Seq<char>>, s: Seq<char>) -> Option<Range> {
    let comma = first_at(s, ',', 0);
    if comma < s.len() {
        match (locate(lines, s.take(comma)), locate(lines, s.skip(comma + 1))) {
            (Some(a), Some(b)) => Some(span_between(a, b)),
            _ => None,
        }
    } else {
        None
    }
}

/// The ranges that the selections `ws` name, in their order, where each
/// names one.
pub open spec fn decode_words(lines: Seq<Seq<char>>, ws: Seq<Seq<char>>) -> Option<Seq<Range>>
    decreases ws.len(),
{
    if ws.len() == 0 {
        Some(Seq::empty())
    } else {
        match (decode_words(lines, ws.drop_last()), selection_range(lines, ws.last())) {
            (Some(before), Some(last)) => Some(before.push(last)),
            _ => None,
        }
    }
}

/// The ranges that the selection descriptor `desc` names in the buffer:
/// one for each of its words. `None` where a word is no selection of the
/// buffer.
pub open spec fn decoded(lines: Seq<Seq<char>>, desc: Seq<char>) -> Option<Seq<Range>> {
    decode_words(lines, words(desc))
}

/// Where some of the first selections name no range, the whole list
/// names none.
pub proof fn lemma_decode_words_prefix(lines: Seq<Seq<char>>, ws: Seq<Seq<char>>, i: int)
    requires
        0 <= i <= ws.len(),
        decode_words(lines, ws.take(i)) is None,
    ensures
        decode_words(lines, ws) is None,
    decreases ws.len() - i,
{
    if i < ws.len() {
        assert(ws.take(i + 1).drop_last() =~= ws.take(i));
        lemma_decode_words_prefix(lines, ws, i + 1);
    } else {
        assert(ws.take(i) =~= ws);
    }
}

/// The bytes that the first `row` lines of `buffer` take, where they fit
/// the machine.
fn bytes_of_rows(buffer: &[String], row: usize) -> (bytes: Option<usize>)
    requires
        row <= buffer@.len(),
    ensures
        bytes matches Some(b) ==> b == bytes_before(texts(buffer@), row as int),
        bytes is None ==> bytes_before(texts(buffer@), row as int) > usize::MAX,
{
    let mut total: usize = 0;
    let mut i: usize = 0;
    while i < row
        invariant
            i <= row <= buffer@.len(),
            total == bytes_before(texts(buffer@), i as int),
        decreases row - i,
    {
        let width = buffer[i].as_str().as_bytes().len();
        proof {
            assert(texts(buffer@)[i as int] == buffer@[i as int]@);
            lemma_bytes_before_grows(texts(buffer@), i + 1, row as int);
        }
        if width > usize::MAX - total {
            return None;
        }
        total = total + width;
        i += 1;
    }
    Some(total)
}

/// More lines take no fewer bytes.
pub proof fn lemma_bytes_before_grows(lines: Seq<Seq<char>>, i: int, j: int)
    requires
        i <= j,
    ensures
        bytes_before(lines, i) <= bytes_before(lines, j),
    decreases j - i,
{
    if i < j {
        lemma_bytes_before_grows(lines, i, j - 1);
    }
}

/// The bytes that the first `count` codepoints of `line` take.
fn bytes_of_prefix(line: &Vec<char>, count: usize) -> (bytes: Option<usize>)
    requires
        count <= line@.len(),
    ensures
        bytes matches Some(b) ==> b == text_width(line@.take(count as int)),
        bytes is None ==> text_width(line@.take(count as int)) > usize::MAX,
{
    let mut total: usize = 0;
    let mut i: usize = 0;
    proof {
        assert(line@.take(0) =~= Seq::<char>::empty());
    }
    while i < count
        invariant
            i <= count <= line@.len(),
            total == text_width(line@.take(i as int)),
        decreases count - i,
    {
        let width = width_of_char(line[i]);
        proof {
            lemma_width_step(line@, i as int);
            lemma_prefix_width_grows(line@, i + 1, count as int);
        }
        if width > usize::MAX - total {
            return None;
        }
        total = total + width;
        i += 1;
    }
    Some(total)
}

/// More codepoints take no fewer bytes.
pub proof fn lemma_prefix_width_grows(s: Seq<char>, i: int, j: int)
    requires
        0 <= i <= j <= s.len(),
    ensures
        text_width(s.take(i)) <= text_width(s.take(j)),
    decreases j - i,
{
    if i < j {
        lemma_prefix_width_grows(s, i, j - 1);
        lemma_width_step(s, j - 1);
    }
}

/// The byte and the position that the coordinates in `v` name.
fn locate_chars(buffer: &[String], v: &Vec<char>) -> (place: Option<(usize, Point)>)
    ensures
        place == locate(texts(buffer@), v@),
{
    let ghost lines = texts(buffer@);
    let dot = find_char(v, '.', 0);
    if dot >= v.len() {
        return None;
    }
    let row_digits = sub_chars(v, 0, dot);
    let col_digits = sub_chars(v, dot + 1, v.len());
    proof {
        assert(row_digits@ =~= v@.take(dot as int));
        assert(col_digits@ =~= v@.skip(dot + 1));
    }
    let row = match parse_number(&row_digits) {
        Some(row) => row,
        None => {
            return None;
        },
    };
    let col = match parse_number(&col_digits) {
        Some(col) => col,
        None => {
            return None;
        },
    };
    if row == 0 || row > buffer.len() || col == 0 {
        return None;
    }
    let line = chars_of(buffer[row - 1].as_str());
    proof {
        assert(lines[row - 1] == buffer@[row - 1]@);
    }
    if col > line.len() {
        return None;
    }
    let before = match bytes_of_rows(buffer, row - 1) {
        Some(before) => before,
        None => {
            return None;
        },
    };
    let within = match bytes_of_prefix(&line, col - 1) {
        Some(within) => within,
        None => {
            return None;
        },
    };
    if within > usize::MAX - before {
        return None;
    }
    Some((before + within, Point { row: row - 1, column: col - 1 }))
}

/// The range that the selection in `v` names.
fn range_of_chars(buffer: &[String], v: &Vec<char>) -> (range: Option<Range>)
    ensures
        range == selection_range(texts(buffer@), v@),
{
    let comma = find_char(v, ',', 0);
    if comma >= v.len() {
        return None;
    }
    let first = sub_chars(v, 0, comma);
    let second = sub_chars(v, comma + 1, v.len());
    proof {
        assert(first@ =~= v@.take(comma as int));
        assert(second@ =~= v@.skip(comma + 1));
    }
    let (start_byte, start_point) = match locate_chars(buffer, &first) {
        Some(place) => place,
        None => {
            return None;
        },
    };
    let (end_byte, end_point) = match locate_chars(buffer, &second) {
        Some(place) => place,
        None => {
            return None;
        },
    };
    let reverse = start_byte > end_byte;
    if reverse {
        Some(
            Range {
                start_byte: end_byte,
                end_byte: start_byte,
                start_point: end_point,
                end_point: start_point,
            },
        )
    } else {
        Some(Range { start_byte, end_byte, start_point, end_point })
    }
}

/// The byte and the position that the coordinates `coords`, of the form
/// `row.col`, name in the buffer. The row is a line, counted from 1; the
/// column is a codepoint of that line, counted from 1. `None` where
/// `coords` is not of that form or names no codepoint of the buffer.
pub fn kak_coords_to_byte_and_point(buffer: &[String], coords: &str) -> (place: Option<
    (usize, Point),
>)
    ensures
        place == locate(texts(buffer@), coords@),
{
    let v = chars_of(coords);
    locate_chars(buffer, &v)
}

/// The range that the selection `selection_desc`, of the form
/// `row.col,row.col`, names in the buffer. Where the first end lies
/// behind the second in the text, the two change places. `None` where
/// `selection_desc` is not of that form or an end names no codepoint of
/// the buffer.
pub fn selection_desc_to_range(buffer: &[String], selection_desc: &str) -> (range: Option<Range>)
    ensures
        range == selection_range(texts(buffer@), selection_desc@),
        range matches Some(r) ==> r.ordered(),
{
    let v = chars_of(selection_desc);
    range_of_chars(buffer, &v)
}

/// The ranges that the selection descriptor names in the buffer: one for
/// each of its words, which white space separates. `None` where a word
/// is no selection of the buffer.
pub fn parse_selections_desc(buffer: &[String], selections_desc: &str) -> (ranges: Option<
    Vec<Range>,
>)
    ensures
        match ranges {
            Some(list) => decoded(texts(buffer@), selections_desc@) == Some(list@),
            None => decoded(texts(buffer@), selections_desc@) is None,
        },
{
    let ghost lines = texts(buffer@);
    let v = chars_of(selections_desc);
    let ws = words_of(&v);
    let ghost all = char_texts(ws@);
    let mut ranges: Vec<Range> = Vec::new();
    let mut i: usize = 0;
    proof {
        assert(all.take(0) =~= Seq::<Seq<char>>::empty());
    }
    while i < ws.len()
        invariant
            i <= ws@.len(),
            lines == texts(buffer@),
            all == char_texts(ws@),
            all == words(selections_desc@),
            decode_words(lines, all.take(i as int)) == Some(ranges@),
        decreases ws@.len() - i,
    {
        proof {
            assert(all.take(i + 1).drop_last() =~= all.take(i as int));
            assert(all.take(i + 1).last() == ws@[i as int]@);
        }
        match range_of_chars(buffer, &ws[i]) {
            Some(range) => {
                ranges.push(range);
            },
            None => {
                proof {
                    lemma_decode_words_prefix(lines, all, i + 1);
                }
                return None;
            },
        }
        i += 1;
    }
    proof {
        assert(all.take(all.len() as int) =~= all);
    }
    Some(ranges)
}

/// The ranges that the selection descriptor names in the buffer, one for
/// each of its words, in their order.
pub fn selections_desc_to_ranges(buffer: &[String], selections_desc: &str) -> (ranges: Vec<Range>)
    requires
        decoded(texts(buffer@), selections_desc@) is Some,
    ensures
        Some(ranges@) == decoded(texts(buffer@), selections_desc@),
{
    parse_selections_desc(buffer, selections_desc).unwrap()
}

/// The column that stands for the end of a line. It is taken for larger
/// than any line is long; in a longer line it is a column like any
/// other.
pub const END_OF_LINE: usize = 1_000_000;

/// The last codepoint that a range ending at `end` holds: the codepoint
/// before `end` in its line, or the end of the line before where `end`
/// is the start of a line.
pub open spec fn last_selected(end: Point) -> Point {
    if end.column > 0 {
        Point { row: end.row, column: (end.column - 1) as usize }
    } else {
        Point { row: (end.row - 1) as usize, column: END_OF_LINE }
    }
}

/// Whether both ends of `r` can be written as coordinates of the buffer:
/// the start lies in a line of the buffer, and so does the last
/// codepoint that `r` holds.
pub open spec fn encodable(lines: Seq<Seq<char>>, r: Range) -> bool {
    &&& r.start_point.row < lines.len()
    &&& if r.end_point.column > 0 {
        r.end_point.row < lines.len()
    } else {
        1 <= r.end_point.row <= lines.len()
    }
}

/// Whether each of `ranges` is `encodable`.
pub open spec fn all_encodable(lines: Seq<Seq<char>>, ranges: Seq<Range>) -> bool {
    forall|i: int| 0 <= i < ranges.len() ==> encodable(lines, #[trigger] ranges[i])
}

/// The coordinates `row.col` in decimal digits.
pub open spec fn coords_text(row: nat, col: nat) -> Seq<char> {
    decimal(row) + seq!['.'] + decimal(col)
}

/// The column of the position `p` as the editor counts it, from 1: the
/// codepoint `p.column` of its line, or the end of the line where the
/// line has no such codepoint.
pub open spec fn editor_column(lines: Seq<Seq<char>>, p: Point) -> nat {
    if p.column < lines[p.row as int].len() {
        (p.column + 1) as nat
    } else {
        lines[p.row as int].len() + 1
    }
}

/// The coordinates of the position `p`, as the editor writes them.
pub open spec fn point_text(lines: Seq<Seq<char>>, p: Point) -> Seq<char> {
    coords_text((p.row + 1) as nat, editor_column(lines, p))
}

/// The selection `row.col,row.col` that stands for `r`: its start, and
/// the last codepoint that it holds.
pub open spec fn range_text(lines: Seq<Seq<char>>, r: Range) -> Seq<char> {
    point_text(lines, r.start_point) + seq![','] + point_text(lines, last_selected(r.end_point))
}

/// The selections that stand for `ranges`, in their order.
pub open spec fn range_texts(lines: Seq<Seq<char>>, ranges: Seq<Range>) -> Seq<Seq<char>> {
    ranges.map_values(|r: Range| range_text(lines, r))
}

/// The texts `parts`, in their order, with `sep` between each two.
pub open spec fn joined(parts: Seq<Seq<char>>, sep: Seq<char>) -> Seq<char>
    decreases parts.len(),
{
    if parts.len() == 0 {
        Seq::empty()
    } else if parts.len() == 1 {
        parts[0]
    } else {
        joined(parts.drop_last(), sep) + sep + parts.last()
    }
}

/// The selection descriptor that stands for `ranges`: their selections,
/// with one space between each two.
pub open spec fn encoded(lines: Seq<Seq<char>>, ranges: Seq<Range>) -> Seq<char> {
    joined(range_texts(lines, ranges), seq![' '])
}

/// Joins `parts` with `sep` between each two. Trusted: it calls
/// `Itertools::join` of itertools, which writes the first item, then for
/// each further item the separator and the item, and gives the empty
/// string for no items. The separator is at most one codepoint long, so
/// that the size that `join` reserves from it cannot overflow.
#[verifier::external_body]
fn join_texts(parts: &Vec<String>, sep: &str) -> (all: String)
    requires
        sep@.len() <= 1,
    ensures
        all@ == joined(texts(parts@), sep@),
{
    parts.iter().join(sep)
}

/// Tells whether both ends of `range` can be written as coordinates of
/// the buffer.
pub fn is_encodable(buffer: &[String], range: &Range) -> (b: bool)
    ensures
        b == encodable(texts(buffer@), *range),
{
    range.start_point.row < buffer.len() && (if range.end_point.column > 0 {
        range.end_point.row < buffer.len()
    } else {
        1 <= range.end_point.row && range.end_point.row <= buffer.len()
    })
}

/// Tells whether each of `ranges` can be written as a selection of the
/// buffer.
pub fn are_encodable(buffer: &[String], ranges: &[Range]) -> (b: bool)
    ensures
        b == all_encodable(texts(buffer@), ranges@),
{
    let mut i: usize = 0;
    while i < ranges.len()
        invariant
            i <= ranges@.len(),
            forall|j: int| 0 <= j < i ==> encodable(texts(buffer@), #[trigger] ranges@[j]),
        decreases ranges@.len() - i,
    {
        if !is_encodable(buffer, &ranges[i]) {
            return false;
        }
        i += 1;
    }
    true
}

/// Writes the coordinates of `p` behind what `out` holds.
fn push_point(buffer: &[String], p: Point, out: &mut Vec<char>)
    requires
        p.row < buffer@.len(),
    ensures
        final(out)@ == old(out)@ + point_text(texts(buffer@), p),
{
    let ghost start = out@;
    let ghost lines = texts(buffer@);
    let length = buffer[p.row].as_str().unicode_len();
    proof {
        assert(lines[p.row as int] == buffer@[p.row as int]@);
    }
    let column = if p.column < length {
        p.column
    } else {
        length
    };
    push_decimal(out, p.row as u128 + 1);
    out.push('.');
    push_decimal(out, column as u128 + 1);
    proof {
        assert(out@ =~= start + point_text(lines, p));
    }
}

/// The coordinates `row.col` of the position `p`, as the editor counts
/// them: the line and the codepoint, both from 1. Where the line has no
/// codepoint `p.column`, the column is that of the end of the line.
pub fn point_to_kak_coords(buffer: &[String], p: Point) -> (coords: String)
    requires
        p.row < buffer@.len(),
    ensures
        coords@ == point_text(texts(buffer@), p),
{
    let mut out: Vec<char> = Vec::new();
    push_point(buffer, p, &mut out);
    proof {
        assert(Seq::<char>::empty() + point_text(texts(buffer@), p) =~= point_text(
            texts(buffer@),
            p,
        ));
    }
    string_from_chars(&out)
}

/// The selection descriptor that stands for `ranges`: for each range its
/// start and the last codepoint that it holds, as `row.col,row.col`, with
/// one space between each two. A range that ends at the start of a line
/// holds the line before up to its end.
pub fn ranges_to_selections_desc(buffer: &[String], ranges: &[Range]) -> (desc: String)
    requires
        all_encodable(texts(buffer@), ranges@),
    ensures
        desc@ == encoded(texts(buffer@), ranges@),
{
    let ghost lines = texts(buffer@);
    let mut parts: Vec<String> = Vec::new();
    let mut i: usize = 0;
    proof {
        assert(texts(parts@) =~= range_texts(lines, ranges@.take(0)));
    }
    while i < ranges.len()
        invariant
            i <= ranges@.len(),
            lines == texts(buffer@),
            all_encodable(lines, ranges@),
            texts(parts@) == range_texts(lines, ranges@.take(i as int)),
        decreases ranges@.len() - i,
    {
        let range = &ranges[i];
        proof {
            assert(encodable(lines, ranges@[i as int]));
        }
        let mut end_row = range.end_point.row;
        let mut end_column = range.end_point.column;
        if end_column > 0 {
            end_column -= 1;
        } else {
            end_row -= 1;
            end_column = END_OF_LINE;
        }
        let mut out: Vec<char> = Vec::new();
        push_point(buffer, range.start_point, &mut out);
        out.push(',');
        push_point(buffer, Point::new(end_row, end_column), &mut out);
        proof {
            assert(out@ =~= range_text(lines, ranges@[i as int]));
        }
        let part = string_from_chars(&out);
        let ghost before = texts(parts@);
        parts.push(part);
        proof {
            assert(texts(parts@) =~= before.push(part@));
            assert(range_texts(lines, ranges@.take(i + 1)) =~= range_texts(
                lines,
                ranges@.take(i as int),
            ).push(range_text(lines, ranges@[i as int])));
        }
        i += 1;
    }
    proof {
        assert(ranges@.take(ranges@.len() as int) =~= ranges@);
        reveal_strlit(" ");
        assert(" "@ =~= seq![' ']);
    }
    join_texts(&parts, " ")
}

/// The answer that selects `ranges`: `select` and their selection
/// descriptor, or, where there is no range to select, the failure
/// `fail no selections remaining`.
pub fn select_ranges(buffer: &[String], ranges: &[Range]) -> (answer: String)
    requires
        all_encodable(texts(buffer@), ranges@),
    ensures
        ranges@.len() == 0 ==> answer@ == "fail no selections remaining"@,
        ranges@.len() > 0 ==> answer@ == "select "@ + encoded(texts(buffer@), ranges@),
{
    if ranges.len() == 0 {
        String::from_str("fail no selections remaining")
    } else {
        let desc = ranges_to_selections_desc(buffer, ranges);
        String::from_str("select ").concat(desc.as_str())
    }
}

/// The number of codepoints of `line` that end within its first `bytes`
/// bytes, where the first `k` do.
pub open spec fn codepoints_in(line: Seq<char>, bytes: nat, k: int) -> int
    decreases line.len() - k,
{
    if 0 <= k < line.len() && text_width(line.take(k + 1)) <= bytes {
        codepoints_in(line, bytes, k + 1)
    } else {
        k
    }
}

/// The position `p`, whose column counts bytes, with its column counted
/// in codepoints: the codepoints of its line that end within that many
/// bytes. A position outside the buffer stays as it is.
pub open spec fn codepoint_point(lines: Seq<Seq<char>>, p: Point) -> Point {
    if p.row < lines.len() {
        Point {
            row: p.row,
            column: codepoints_in(lines[p.row as int], p.column as nat, 0) as usize,
        }
    } else {
        p
    }
}

/// The range `r`, whose columns count bytes, with its columns counted in
/// codepoints.
pub open spec fn codepoint_range(lines: Seq<Seq<char>>, r: Range) -> Range {
    Range {
        start_byte: r.start_byte,
        end_byte: r.end_byte,
        start_point: codepoint_point(lines, r.start_point),
        end_point: codepoint_point(lines, r.end_point),
    }
}

/// Whether the column of `p` counts codepoints of its line: it is at most
/// the number that the line has. Of a position outside the buffer
/// nothing is asked.
pub open spec fn column_in_line(lines: Seq<Seq<char>>, p: Point) -> bool {
    p.row < lines.len() ==> p.column <= lines[p.row as int].len()
}

/// Whether the columns of both ends of `r` count codepoints of their
/// lines.
pub open spec fn columns_in_lines(lines: Seq<Seq<char>>, r: Range) -> bool {
    column_in_line(lines, r.start_point) && column_in_line(lines, r.end_point)
}

/// In a line of ASCII, as many codepoints end within some bytes as
/// there are bytes, up to the length of the line.
pub proof fn lemma_codepoints_in_ascii(line: Seq<char>, bytes: nat, k: int)
    requires
        is_ascii_chars(line),
        0 <= k <= line.len(),
        k <= bytes,
    ensures
        codepoints_in(line, bytes, k) == if bytes < line.len() {
            bytes as int
        } else {
            line.len() as int
        },
    decreases line.len() - k,
{
    if k < line.len() {
        let head = line.take(k + 1);
        assert(is_ascii_chars(head));
        is_ascii_chars_encode_utf8(head);
        if k + 1 <= bytes {
            lemma_codepoints_in_ascii(line, bytes, k + 1);
        }
    }
}

/// The position `p`, whose column counts bytes as a parser counts them,
/// with its column counted in codepoints.
pub fn point_in_codepoints(buffer: &[String], p: Point) -> (q: Point)
    ensures
        q == codepoint_point(texts(buffer@), p),
        column_in_line(texts(buffer@), q),
{
    if p.row >= buffer.len() {
        return p;
    }
    let text = buffer[p.row].as_str();
    let ghost line = text@;
    proof {
        assert(texts(buffer@)[p.row as int] == line);
    }
    if text.is_ascii() {
        let length = text.as_bytes().len();
        proof {
            is_ascii_chars_encode_utf8(line);
            lemma_codepoints_in_ascii(line, p.column as nat, 0);
        }
        return Point { row: p.row, column: if p.column < length {
            p.column
        } else {
            length
        } };
    }
    let v = chars_of(text);
    let mut total: usize = 0;
    let mut k: usize = 0;
    proof {
        assert(v@.take(0) =~= Seq::<char>::empty());
    }
    while k < v.len()
        invariant
            p.row < buffer@.len(),
            texts(buffer@)[p.row as int] == line,
            v@ == line,
            k <= v@.len(),
            total == text_width(line.take(k as int)),
            total <= p.column,
            codepoints_in(line, p.column as nat, 0) == codepoints_in(
                line,
                p.column as nat,
                k as int,
            ),
        decreases v@.len() - k,
    {
        let width = width_of_char(v[k]);
        proof {
            lemma_width_step(line, k as int);
        }
        if width > p.column - total {
            return Point { row: p.row, column: k };
        }
        total = total + width;
        k += 1;
    }
    Point { row: p.row, column: k }
}

/// The range `range`, whose columns count bytes as a parser counts
/// them, with its columns counted in codepoints.
pub fn range_in_codepoints(buffer: &[String], range: Range) -> (r: Range)
    ensures
        r == codepoint_range(texts(buffer@), range),
        columns_in_lines(texts(buffer@), r),
{
    Range {
        start_byte: range.start_byte,
        end_byte: range.end_byte,
        start_point: point_in_codepoints(buffer, range.start_point),
        end_point: point_in_codepoints(buffer, range.end_point),
    }
}

} // verus!
