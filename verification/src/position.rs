//! Byte offsets in a text turned into lines and columns, a column being a
//! grapheme cluster (the `bstr` crate splits lines and clusters).
use bstr::{BStr, ByteSlice};
use vstd::prelude::*;
use vstd::string::StringSliceAdditionalSpecFns;

use crate::model::Position;

verus! {

/// The lines that `ByteSlice::lines_with_terminator` yields for `bytes`.
pub uninterp spec fn bstr_lines(bytes: Seq<u8>) -> Seq<Seq<u8>>;

/// The (start, end) byte spans of the grapheme clusters that
/// `ByteSlice::grapheme_indices` yields for `line`.
pub uninterp spec fn bstr_graphemes(line: Seq<u8>) -> Seq<(nat, nat)>;

/// `BStr::new(content).lines_with_terminator()`, each line copied. As bstr
/// documents, the lines, terminators included, concatenate to the text;
/// its source yields no empty line.
#[verifier::external_body]
fn lines_with_terminator(content: &str) -> (r: Vec<Vec<u8>>)
    ensures
        r@.map_values(|l: Vec<u8>| l@) == bstr_lines(content.spec_bytes()),
        r@.map_values(|l: Vec<u8>| l@).flatten() == content.spec_bytes(),
        forall|k: int| 0 <= k < r@.len() ==> #[trigger] r@[k]@.len() > 0,
{
    BStr::new(content).lines_with_terminator().map(|l| l.to_vec()).collect()
}

/// `line.grapheme_indices()`, keeping each cluster's start and end. Each
/// cluster spans at least one byte of the line (an invalid byte sequence
/// stands for a replacement character), so there are no more clusters
/// than bytes.
#[verifier::external_body]
fn grapheme_spans(line: &Vec<u8>) -> (r: Vec<(usize, usize)>)
    ensures
        r@.map_values(|p: (usize, usize)| (p.0 as nat, p.1 as nat)) == bstr_graphemes(line@),
        r@.len() <= line@.len(),
{
    line.as_slice().grapheme_indices().map(|(s, e, _)| (s, e)).collect()
}

/// The byte offset at which the `k`-th line starts.
pub open spec fn line_start(lines: Seq<Seq<u8>>, k: int) -> int
    decreases k,
{
    if k <= 0 || k > lines.len() {
        0
    } else {
        line_start(lines, k - 1) + lines[k - 1].len()
    }
}

/// The column of `offset` in a line starting at `start`, from the `j`-th
/// cluster on: the number of the first cluster that starts at the offset,
/// or one more than the number of the first that holds it.
pub open spec fn column_from(spans: Seq<(nat, nat)>, start: int, offset: int, j: int) -> Option<nat>
    decreases spans.len() - j,
{
    if j < 0 || j >= spans.len() {
        None
    } else if start + spans[j].0 == offset {
        Some((j + 1) as nat)
    } else if start + spans[j].0 <= offset < start + spans[j].1 {
        Some((j + 2) as nat)
    } else {
        column_from(spans, start, offset, j + 1)
    }
}

/// The line and column of `offset`, from the `k`-th line on: in the line
/// that holds it, its column there.
pub open spec fn position_from(lines: Seq<Seq<u8>>, offset: int, k: int) -> Option<(nat, nat)>
    decreases lines.len() - k,
{
    if k < 0 || k >= lines.len() {
        None
    } else {
        let s = line_start(lines, k);
        if s <= offset < s + lines[k].len() {
            match column_from(bstr_graphemes(lines[k]), s, offset, 0) {
                Some(c) => Some(((k + 1) as nat, c)),
                None => position_from(lines, offset, k + 1),
            }
        } else {
            position_from(lines, offset, k + 1)
        }
    }
}

/// The line and column of a byte offset of a text; none for an offset past
/// its end.
pub open spec fn position_of(bytes: Seq<u8>, offset: nat) -> Option<(nat, nat)> {
    if offset >= bytes.len() {
        None
    } else {
        position_from(bstr_lines(bytes), offset as int, 0)
    }
}

proof fn lemma_line_start_bound(lines: Seq<Seq<u8>>, k: int)
    requires
        0 <= k <= lines.len(),
        forall|m: int| 0 <= m < lines.len() ==> #[trigger] lines[m].len() > 0,
    ensures
        line_start(lines, k) == lines.take(k).flatten_alt().len(),
        line_start(lines, k) >= k,
    decreases k,
{
    if k > 0 {
        lemma_line_start_bound(lines, k - 1);
        assert(lines.take(k).drop_last() =~= lines.take(k - 1));
        assert(lines.take(k).last() == lines[k - 1]);
    } else {
        assert(lines.take(0) =~= Seq::<Seq<u8>>::empty());
    }
}

proof fn lemma_lines_total(lines: Seq<Seq<u8>>)
    requires
        forall|m: int| 0 <= m < lines.len() ==> #[trigger] lines[m].len() > 0,
    ensures
        line_start(lines, lines.len() as int) == lines.flatten().len(),
        lines.len() <= lines.flatten().len(),
        forall|k: int| 0 <= k < lines.len() ==> line_start(lines, k) + lines[k].len() <= lines.flatten().len(),
{
    lemma_line_start_bound(lines, lines.len() as int);
    assert(lines.take(lines.len() as int) =~= lines);
    lines.lemma_flatten_and_flatten_alt_are_equivalent();
    assert forall|k: int| 0 <= k < lines.len() implies line_start(lines, k) + lines[k].len()
        <= lines.flatten().len() by {
        lemma_line_start_mono(lines, k + 1, lines.len() as int);
    }
}

proof fn lemma_line_start_mono(lines: Seq<Seq<u8>>, a: int, b: int)
    requires
        0 <= a <= b <= lines.len(),
    ensures
        line_start(lines, a) <= line_start(lines, b),
    decreases b - a,
{
    if a < b {
        lemma_line_start_mono(lines, a, b - 1);
    }
}

/// The column of `offset` in a line starting at `start`.
fn column_in(spans: &Vec<(usize, usize)>, start: usize, offset: usize) -> (r: Option<u32>)
    requires
        spans@.len() < u32::MAX,
    ensures
        match r {
            Some(c) => c >= 1 && column_from(
                spans@.map_values(|p: (usize, usize)| (p.0 as nat, p.1 as nat)),
                start as int,
                offset as int,
                0,
            ) == Some(c as nat),
            None => column_from(
                spans@.map_values(|p: (usize, usize)| (p.0 as nat, p.1 as nat)),
                start as int,
                offset as int,
                0,
            ) is None,
        },
{
    let ghost sv = spans@.map_values(|p: (usize, usize)| (p.0 as nat, p.1 as nat));
    let mut j: usize = 0;
    while j < spans.len()
        invariant
            j <= spans.len() < u32::MAX,
            sv == spans@.map_values(|p: (usize, usize)| (p.0 as nat, p.1 as nat)),
            column_from(sv, start as int, offset as int, 0) == column_from(
                sv,
                start as int,
                offset as int,
                j as int,
            ),
        decreases spans.len() - j,
    {
        let (s, e) = spans[j];
        assert(sv[j as int] == (s as nat, e as nat));
        let gs = start as u128 + s as u128;
        let ge = start as u128 + e as u128;
        let off = offset as u128;
        if gs == off {
            return Some((j + 1) as u32);
        }
        if gs <= off && off < ge {
            return Some((j + 2) as u32);
        }
        j = j + 1;
    }
    None
}

/// The line and the column (both from 1) of a byte offset of `content`; an
/// error for an offset past the end, or one that no cluster holds.
pub fn get_position_in_string(content: &str, offset: usize) -> (r: Result<Position, String>)
    requires
        content.spec_bytes().len() < u32::MAX,
    ensures
        match r {
            Ok(p) => p.wf() && position_of(content.spec_bytes(), offset as nat) == Some(
                (p.line as nat, p.col as nat),
            ),
            Err(_) => position_of(content.spec_bytes(), offset as nat) is None,
        },
{
    if offset >= content.len() {
        return Err(String::new());
    }
    let lines = lines_with_terminator(content);
    let ghost lv = lines@.map_values(|l: Vec<u8>| l@);
    proof {
        assert forall|m: int| 0 <= m < lv.len() implies #[trigger] lv[m].len() > 0 by {
            assert(lv[m] == lines@[m]@);
        }
        lemma_lines_total(lv);
    }
    let mut current: usize = 0;
    let mut k: usize = 0;
    while k < lines.len()
        invariant
            k <= lines.len(),
            lv == lines@.map_values(|l: Vec<u8>| l@),
            lv == bstr_lines(content.spec_bytes()),
            lv.flatten() == content.spec_bytes(),
            content.spec_bytes().len() < u32::MAX,
            lines.len() <= lv.flatten().len(),
            forall|m: int| 0 <= m < lv.len() ==> line_start(lv, m) + lv[m].len() <= lv.flatten().len(),
            current == line_start(lv, k as int),
            offset < content.spec_bytes().len(),
            position_from(lv, offset as int, 0) == position_from(lv, offset as int, k as int),
        decreases lines.len() - k,
    {
        let line = &lines[k];
        assert(lv[k as int] == line@);
        let end = current + line.len();
        if current <= offset && offset < end {
            let spans = grapheme_spans(line);
            match column_in(&spans, current, offset) {
                Some(c) => {
                    return Ok(Position { line: (k + 1) as u32, col: c });
                },
                None => {},
            }
        }
        current = end;
        k = k + 1;
    }
    Err(String::new())
}

} // verus!
