use crate::kakoune::{
    bytes_before, coords_byte, coords_text, coords_valid, decode_words, decoded, encoded,
    first_at, joined, locate, parse_coords, range_text, range_texts, selection_range,
};
use crate::range::{Point, Range};
use crate::text::{
    decimal, digit_char, digit_value, is_digit, is_numeral, is_space, lemma_prefix_is_boundary,
    lemma_word_end, numeral_value, text_width, word_end, words, words_from,
};
use vstd::prelude::*;
use vstd::utf8::{encode_utf8, is_char_boundary};

verus! {

/// A place in a text as the editor names it: a line and a codepoint of
/// that line, both counted from 1.
pub struct Coords {
    pub row: nat,
    pub col: nat,
}

/// A selection as the editor names it: its first and its last codepoint.
pub struct Selection {
    pub first: Coords,
    pub last: Coords,
}

/// The selection `sel` as the editor writes it: `row.col,row.col`, in
/// decimal digits without leading zeros.
pub open spec fn selection_text(sel: Selection) -> Seq<char> {
    coords_text(sel.first.row, sel.first.col) + seq![','] + coords_text(
        sel.last.row,
        sel.last.col,
    )
}

/// The selections `sels` as the editor writes them.
pub open spec fn selection_texts(sels: Seq<Selection>) -> Seq<Seq<char>> {
    sels.map_values(|sel: Selection| selection_text(sel))
}

/// The selection descriptor that the editor writes for `sels`: the
/// selections in their order, one space between each two, and nothing
/// else.
pub open spec fn descriptor(sels: Seq<Selection>) -> Seq<char> {
    joined(selection_texts(sels), seq![' '])
}

/// Both ends of `sel` name a codepoint of the buffer, and the first does
/// not lie behind the last.
pub open spec fn forward(lines: Seq<Seq<char>>, sel: Selection) -> bool {
    &&& coords_valid(lines, sel.first.row, sel.first.col)
    &&& coords_valid(lines, sel.last.row, sel.last.col)
    &&& coords_byte(lines, sel.first.row, sel.first.col) <= coords_byte(
        lines,
        sel.last.row,
        sel.last.col,
    )
}

/// The range that decoding gives for the selection `sel`: it starts at
/// the first codepoint of `sel` and ends at its last.
pub open spec fn range_of(lines: Seq<Seq<char>>, sel: Selection) -> Range {
    Range {
        start_byte: coords_byte(lines, sel.first.row, sel.first.col) as usize,
        end_byte: coords_byte(lines, sel.last.row, sel.last.col) as usize,
        start_point: Point {
            row: (sel.first.row - 1) as usize,
            column: (sel.first.col - 1) as usize,
        },
        end_point: Point { row: (sel.last.row - 1) as usize, column: (sel.last.col - 1) as usize },
    }
}

/// The range `r` with its end moved one codepoint to the right: where
/// the end of `r` is the last codepoint that it holds, the end of what
/// comes back is the first that it does not hold.
pub open spec fn end_exclusive(r: Range) -> Range {
    Range {
        end_point: Point { row: r.end_point.row, column: (r.end_point.column + 1) as usize },
        ..r
    }
}

/// Each of `ranges` with its end moved one codepoint to the right.
pub open spec fn ends_exclusive(ranges: Seq<Range>) -> Seq<Range> {
    ranges.map_values(|r: Range| end_exclusive(r))
}

/// A digit is a digit of its own value.
pub proof fn lemma_digit(d: nat)
    requires
        d < 10,
    ensures
        is_digit(digit_char(d)),
        digit_value(digit_char(d)) == d,
{
}

/// A digit is neither a dot, nor a comma, nor white space.
pub proof fn lemma_digit_is_plain(c: char)
    requires
        is_digit(c),
    ensures
        c != '.',
        c != ',',
        !is_space(c),
{
}

/// The decimal digits of a number are a numeral that writes the number.
pub proof fn lemma_decimal(n: nat)
    ensures
        is_numeral(decimal(n)),
        numeral_value(decimal(n)) == n,
    decreases n,
{
    if n < 10 {
        lemma_digit(n);
        let s = decimal(n);
        assert(s.drop_last() =~= Seq::<char>::empty());
        assert(numeral_value(s.drop_last()) == 0);
    } else {
        lemma_decimal(n / 10);
        lemma_digit(n % 10);
        let s = decimal(n);
        assert(s.drop_last() =~= decimal(n / 10));
        assert(s.last() == digit_char(n % 10));
    }
}

/// Where `a` holds no `c`, the first `c` of `a`, `c`, `b` in a row is
/// the one between `a` and `b`.
pub proof fn lemma_first_at_joint(a: Seq<char>, c: char, b: Seq<char>, i: int)
    requires
        0 <= i <= a.len(),
        forall|j: int| 0 <= j < a.len() ==> #[trigger] a[j] != c,
    ensures
        first_at(a + seq![c] + b, c, i) == a.len(),
    decreases a.len() - i,
{
    let s = a + seq![c] + b;
    if i < a.len() {
        assert(s[i] == a[i]);
        lemma_first_at_joint(a, c, b, i + 1);
    } else {
        assert(s[i] == c);
    }
}

/// The coordinates that are written for a line and a codepoint read as
/// that line and that codepoint.
pub proof fn lemma_parse_coords_text(row: nat, col: nat)
    ensures
        parse_coords(coords_text(row, col)) == Some((row, col)),
        forall|j: int|
            0 <= j < coords_text(row, col).len() ==> #[trigger] coords_text(row, col)[j] != ','
                && !is_space(coords_text(row, col)[j]),
        coords_text(row, col).len() > 0,
{
    let a = decimal(row);
    let b = decimal(col);
    let s = coords_text(row, col);
    lemma_decimal(row);
    lemma_decimal(col);
    assert forall|j: int| 0 <= j < a.len() implies #[trigger] a[j] != '.' by {
        lemma_digit_is_plain(a[j]);
    }
    lemma_first_at_joint(a, '.', b, 0);
    assert(s.take(a.len() as int) =~= a);
    assert(s.skip(a.len() as int + 1) =~= b);
    assert forall|j: int| 0 <= j < s.len() implies #[trigger] s[j] != ',' && !is_space(s[j]) by {
        if j < a.len() {
            lemma_digit_is_plain(a[j]);
        } else if j > a.len() {
            assert(s[j] == b[j - a.len() - 1]);
            lemma_digit_is_plain(b[j - a.len() - 1]);
        }
    }
}

/// What the coordinates `row.col` name: where line `row` has a `col`-th
/// codepoint and the byte at which it starts fits the machine, the
/// coordinates in decimal digits name that byte, which is the bytes of
/// the lines before and of the codepoints before it in its line, and the
/// position of that line and codepoint, both counted from 0. The byte is
/// the first of a codepoint of the line, never one in its middle.
pub proof fn lemma_locate_coords(lines: Seq<Seq<char>>, row: nat, col: nat)
    requires
        coords_valid(lines, row, col),
    ensures
        locate(lines, coords_text(row, col)) == Some(
            (
                coords_byte(lines, row, col) as usize,
                Point { row: (row - 1) as usize, column: (col - 1) as usize },
            ),
        ),
        coords_byte(lines, row, col) == bytes_before(lines, row - 1) + text_width(
            lines[row - 1].take(col - 1),
        ),
        is_char_boundary(
            encode_utf8(lines[row - 1]),
            coords_byte(lines, row, col) - bytes_before(lines, row - 1),
        ),
{
    lemma_parse_coords_text(row, col);
    lemma_prefix_is_boundary(lines[row - 1], col - 1);
}

/// The selection that is written for `sel` reads as the range of `sel`,
/// and holds no white space.
pub proof fn lemma_selection_text(lines: Seq<Seq<char>>, sel: Selection)
    requires
        forward(lines, sel),
    ensures
        selection_range(lines, selection_text(sel)) == Some(range_of(lines, sel)),
        selection_text(sel).len() > 0,
        forall|j: int|
            0 <= j < selection_text(sel).len() ==> !is_space(#[trigger] selection_text(sel)[j]),
{
    let a = coords_text(sel.first.row, sel.first.col);
    let b = coords_text(sel.last.row, sel.last.col);
    let s = selection_text(sel);
    lemma_parse_coords_text(sel.first.row, sel.first.col);
    lemma_parse_coords_text(sel.last.row, sel.last.col);
    lemma_first_at_joint(a, ',', b, 0);
    assert(s.take(a.len() as int) =~= a);
    assert(s.skip(a.len() as int + 1) =~= b);
    assert forall|j: int| 0 <= j < s.len() implies !is_space(#[trigger] s[j]) by {
        if j < a.len() {
            assert(s[j] == a[j]);
        } else if j > a.len() {
            assert(s[j] == b[j - a.len() - 1]);
        }
    }
}

/// Writing the range of `sel`, with its end moved one codepoint to the
/// right, gives the selection as the editor writes it.
pub proof fn lemma_range_text(lines: Seq<Seq<char>>, sel: Selection)
    requires
        forward(lines, sel),
    ensures
        range_text(lines, end_exclusive(range_of(lines, sel))) == selection_text(sel),
{
}

/// A word of `x` ends where it ends in `x` followed by a space and more.
pub proof fn lemma_word_end_joint(x: Seq<char>, w: Seq<char>, i: int)
    requires
        0 <= i <= x.len(),
    ensures
        word_end(x + seq![' '] + w, i) == word_end(x, i),
    decreases x.len() - i,
{
    let s = x + seq![' '] + w;
    if i < x.len() {
        assert(s[i] == x[i]);
        if !is_space(x[i]) {
            lemma_word_end_joint(x, w, i + 1);
        }
    } else {
        assert(s[i] == ' ');
    }
}

/// A stretch without white space that runs to the end of `s` is one
/// word.
pub proof fn lemma_last_word(s: Seq<char>, i: int)
    requires
        0 <= i < s.len(),
        forall|j: int| i <= j < s.len() ==> !is_space(#[trigger] s[j]),
    ensures
        words_from(s, i) == seq![s.subrange(i, s.len() as int)],
{
    lemma_word_end_runs(s, i + 1);
    assert(words_from(s, s.len() as int) =~= Seq::<Seq<char>>::empty());
    assert(seq![s.subrange(i, s.len() as int)] + Seq::<Seq<char>>::empty() =~= seq![
        s.subrange(i, s.len() as int),
    ]);
}

/// Where no white space follows, a word runs to the end.
pub proof fn lemma_word_end_runs(s: Seq<char>, i: int)
    requires
        0 <= i <= s.len(),
        forall|j: int| i <= j < s.len() ==> !is_space(#[trigger] s[j]),
    ensures
        word_end(s, i) == s.len(),
    decreases s.len() - i,
{
    if i < s.len() {
        lemma_word_end_runs(s, i + 1);
    }
}

/// The words of `x`, a space and the word `w` in a row are the words of
/// `x` and then `w`.
pub proof fn lemma_words_joint(x: Seq<char>, w: Seq<char>, i: int)
    requires
        0 <= i <= x.len(),
        w.len() > 0,
        forall|j: int| 0 <= j < w.len() ==> !is_space(#[trigger] w[j]),
    ensures
        words_from(x + seq![' '] + w, i) == words_from(x, i).push(w),
    decreases x.len() - i,
{
    let s = x + seq![' '] + w;
    if i < x.len() {
        assert(s[i] == x[i]);
        if is_space(x[i]) {
            lemma_words_joint(x, w, i + 1);
        } else {
            let e = word_end(x, i + 1);
            lemma_word_end(x, i + 1);
            lemma_word_end_joint(x, w, i + 1);
            lemma_words_joint(x, w, e);
            assert(s.subrange(i, e) =~= x.subrange(i, e));
            assert(seq![x.subrange(i, e)] + words_from(x, e).push(w) =~= (seq![x.subrange(i, e)]
                + words_from(x, e)).push(w));
        }
    } else {
        assert(s[i] == ' ');
        assert(words_from(x, i) =~= Seq::<Seq<char>>::empty());
        assert forall|j: int| i + 1 <= j < s.len() implies !is_space(#[trigger] s[j]) by {
            assert(s[j] == w[j - i - 1]);
        }
        lemma_last_word(s, i + 1);
        assert(s.subrange(i + 1, s.len() as int) =~= w);
        assert(Seq::<Seq<char>>::empty().push(w) =~= seq![w]);
    }
}

/// The words of words joined by single spaces are those words, where
/// each has a codepoint and none holds white space.
pub proof fn lemma_words_of_joined(parts: Seq<Seq<char>>)
    requires
        forall|k: int| 0 <= k < parts.len() ==> (#[trigger] parts[k]).len() > 0,
        forall|k: int, j: int|
            0 <= k < parts.len() && 0 <= j < parts[k].len() ==> !is_space(#[trigger] parts[k][j]),
    ensures
        words(joined(parts, seq![' '])) == parts,
    decreases parts.len(),
{
    if parts.len() == 0 {
        assert(words_from(Seq::<char>::empty(), 0) =~= Seq::<Seq<char>>::empty());
        assert(parts =~= Seq::<Seq<char>>::empty());
    } else if parts.len() == 1 {
        let w = parts[0];
        assert forall|j: int| 0 <= j < w.len() implies !is_space(#[trigger] w[j]) by {
            assert(!is_space(parts[0][j]));
        }
        lemma_last_word(w, 0);
        assert(w.subrange(0, w.len() as int) =~= w);
        assert(parts =~= seq![w]);
    } else {
        let before = parts.drop_last();
        let w = parts.last();
        assert forall|k: int| 0 <= k < before.len() implies (#[trigger] before[k]).len() > 0 by {
            assert(before[k] == parts[k]);
        }
        assert forall|k: int, j: int|
            0 <= k < before.len() && 0 <= j < before[k].len() implies !is_space(
            #[trigger] before[k][j],
        ) by {
            assert(before[k] == parts[k]);
            assert(!is_space(parts[k][j]));
        }
        lemma_words_of_joined(before);
        assert forall|j: int| 0 <= j < w.len() implies !is_space(#[trigger] w[j]) by {
            assert(!is_space(parts[parts.len() - 1][j]));
        }
        lemma_words_joint(joined(before, seq![' ']), w, 0);
        assert(before.push(w) =~= parts);
    }
}

/// The selections that are written for `sels` read as the ranges of
/// `sels`.
pub proof fn lemma_decode_selection_texts(lines: Seq<Seq<char>>, sels: Seq<Selection>)
    requires
        forall|i: int| 0 <= i < sels.len() ==> forward(lines, #[trigger] sels[i]),
    ensures
        decode_words(lines, selection_texts(sels)) == Some(
            sels.map_values(|sel: Selection| range_of(lines, sel)),
        ),
    decreases sels.len(),
{
    let ranges = sels.map_values(|sel: Selection| range_of(lines, sel));
    if sels.len() == 0 {
        assert(ranges =~= Seq::<Range>::empty());
    } else {
        let before = sels.drop_last();
        assert forall|i: int| 0 <= i < before.len() implies forward(
            lines,
            #[trigger] before[i],
        ) by {
            assert(before[i] == sels[i]);
        }
        lemma_decode_selection_texts(lines, before);
        assert(forward(lines, sels[sels.len() - 1]));
        lemma_selection_text(lines, sels.last());
        assert(selection_texts(sels).drop_last() =~= selection_texts(before));
        assert(before.map_values(|sel: Selection| range_of(lines, sel)).push(
            range_of(lines, sels.last()),
        ) =~= ranges);
    }
}

/// Decoding and encoding are inverse to each other: where the editor
/// writes a descriptor for selections of the buffer that run forward,
/// the descriptor can be read, and writing the ranges that were read,
/// each with its end moved one codepoint to the right, gives the
/// descriptor back. (Reading puts the end of a range at the last
/// codepoint of the selection; writing takes the end of a range for the
/// first codepoint behind it.)
pub proof fn lemma_encode_decode(lines: Seq<Seq<char>>, sels: Seq<Selection>)
    requires
        forall|i: int| 0 <= i < sels.len() ==> forward(lines, #[trigger] sels[i]),
    ensures
        decoded(lines, descriptor(sels)) == Some(
            sels.map_values(|sel: Selection| range_of(lines, sel)),
        ),
        encoded(lines, ends_exclusive(decoded(lines, descriptor(sels))->0)) == descriptor(sels),
{
    let texts = selection_texts(sels);
    assert forall|k: int| 0 <= k < texts.len() implies (#[trigger] texts[k]).len() > 0 by {
        assert(forward(lines, sels[k]));
        lemma_selection_text(lines, sels[k]);
    }
    assert forall|k: int, j: int| 0 <= k < texts.len() && 0 <= j < texts[k].len() implies !is_space(
        #[trigger] texts[k][j],
    ) by {
        assert(forward(lines, sels[k]));
        lemma_selection_text(lines, sels[k]);
    }
    lemma_words_of_joined(texts);
    lemma_decode_selection_texts(lines, sels);
    let ranges = sels.map_values(|sel: Selection| range_of(lines, sel));
    assert forall|i: int| 0 <= i < sels.len() implies #[trigger] range_texts(
        lines,
        ends_exclusive(ranges),
    )[i] == texts[i] by {
        assert(forward(lines, sels[i]));
        lemma_range_text(lines, sels[i]);
    }
    assert(range_texts(lines, ends_exclusive(ranges)) =~= texts);
}

} // verus!
