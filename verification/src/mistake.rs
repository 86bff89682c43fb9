//! Reports of forbidden commas in a text: where each comma is, which line
//! holds it, and the report that points at it.

use vstd::prelude::*;
use vstd::utf8::*;
use vstd::string::StringSliceAdditionalSpecFns;
use crate::text::{decimal, format_u64_padded, pad_left, push_spaces, spaces};

verus! {

broadcast use {
    encode_utf8_valid_utf8,
    encode_utf8_decode_utf8,
    is_char_boundary_start_end_of_seq,
    is_char_boundary_iff_is_leading_byte,
    valid_utf8_split,
};

/// The UTF-8 byte of `,`.
pub open spec fn comma_byte() -> u8 {
    44
}

/// The UTF-8 byte of a line feed.
pub open spec fn newline_byte() -> u8 {
    10
}

/// The UTF-8 bytes of a text.
pub open spec fn bytes_of(text: Seq<char>) -> Seq<u8> {
    encode_utf8(text)
}

/// The byte offsets of the commas among the first `k` bytes, in increasing order.
pub open spec fn comma_positions(bytes: Seq<u8>, k: int) -> Seq<usize>
    decreases k,
{
    if k <= 0 {
        seq![]
    } else {
        let p = comma_positions(bytes, k - 1);
        if bytes[k - 1] == comma_byte() {
            p.push((k - 1) as usize)
        } else {
            p
        }
    }
}

/// The offset at which the line holding byte `index` starts: just after the
/// last line feed before `index`, or 0.
pub open spec fn line_start(bytes: Seq<u8>, index: int) -> int
    decreases index,
{
    if index <= 0 {
        0
    } else if bytes[index - 1] == newline_byte() {
        index
    } else {
        line_start(bytes, index - 1)
    }
}

/// The offset of the first line feed at or after `k`, or the length.
pub open spec fn line_end(bytes: Seq<u8>, k: int) -> int
    decreases bytes.len() - k,
{
    if k < 0 || k >= bytes.len() {
        bytes.len() as int
    } else if bytes[k] == newline_byte() {
        k
    } else {
        line_end(bytes, k + 1)
    }
}

/// In valid UTF-8, the byte after a one-byte character at a boundary starts
/// another character (or ends the text).
proof fn lemma_boundary_after_ascii(bytes: Seq<u8>, i: int)
    requires
        valid_utf8(bytes),
        0 <= i < bytes.len(),
        is_char_boundary(bytes, i),
        bytes[i] <= 0x7f,
    ensures
        is_char_boundary(bytes, i + 1),
    decreases bytes.len(),
{
    let rest = pop_first_scalar(bytes);
    let w = length_of_first_scalar(bytes);
    if i == 0 {
        assert(w == 1);
        assert(is_char_boundary(rest, 0));
    } else {
        assert(is_char_boundary(rest, i - w));
        assert(i - w >= 0);
        assert(rest[i - w] == bytes[i]);
        lemma_boundary_after_ascii(rest, i - w);
    }
}

/// A text in which commas are forbidden, and the offsets of its commas.
pub struct Mistake {
    pub path: String,
    pub text: String,
    pub locations: Vec<usize>,
}

impl Mistake {
    /// The locations are exactly the byte offsets of the commas of the text,
    /// in increasing order.
    pub open spec fn wf(&self) -> bool {
        let b = bytes_of(self.text@);
        self.locations@ == comma_positions(b, b.len() as int)
    }

    /// Every location lies in the text, and it and the offset after it fall on
    /// character boundaries (as `line_bounds` needs).
    pub open spec fn locations_in_text(&self) -> bool {
        let b = bytes_of(self.text@);
        forall|j: int|
            0 <= j < self.locations@.len() ==> #[trigger] self.locations@[j] < b.len()
                && is_char_boundary(b, self.locations@[j] as int)
                && is_char_boundary(b, self.locations@[j] + 1)
    }

    /// The bounds `(start, end)` of the line that holds byte `index`: `start`
    /// just after the last line feed before `index` (or 0), `end` at the first
    /// line feed after `index` (or the text's length). `index` and the offset
    /// after it must fall on character boundaries.
    pub fn line_bounds(&self, index: usize) -> (r: (usize, usize))
        requires
            index < bytes_of(self.text@).len(),
            is_char_boundary(bytes_of(self.text@), index as int),
            is_char_boundary(bytes_of(self.text@), index + 1),
        ensures
            r.0 == line_start(bytes_of(self.text@), index as int),
            r.1 == line_end(bytes_of(self.text@), index + 1),
            r.0 <= index < r.1 <= bytes_of(self.text@).len(),
            r.0 == 0 || bytes_of(self.text@)[r.0 - 1] == newline_byte(),
            r.1 == bytes_of(self.text@).len() || bytes_of(self.text@)[r.1 as int] == newline_byte(),
            forall|i: int|
                r.0 <= i < r.1 && i != index ==> #[trigger] bytes_of(self.text@)[i] != newline_byte(),
    {
        let bytes = self.text.as_str().as_bytes();
        let byte_count = bytes.len();
        let ghost b = bytes_of(self.text@);
        assert(bytes@ == b && b.len() == byte_count);
        let mut start: usize = index;
        while start > 0 && bytes[start - 1] != 10
            invariant
                start <= index < bytes@.len(),
                bytes@ == b,
                line_start(b, start as int) == line_start(b, index as int),
            decreases start,
        {
            start = start - 1;
        }
        let mut end: usize = index + 1;
        while end < bytes.len() && bytes[end] != 10
            invariant
                index + 1 <= end <= bytes@.len(),
                bytes@ == b,
                line_end(b, end as int) == line_end(b, index + 1),
            decreases bytes@.len() - end,
        {
            end = end + 1;
        }
        proof {
            lemma_line_start(b, index as int);
            lemma_line_end(b, index + 1);
            assert(start == line_start(b, index as int));
            assert(end == line_end(b, index + 1));
            assert forall|i: int| start <= i < end && i != index implies #[trigger] b[i] != newline_byte() by {
                if i < index {
                    assert(line_start(b, index as int) <= i < index);
                    assert(b[i] != newline_byte());
                } else {
                    assert(index + 1 <= i < line_end(b, index + 1));
                    assert(b[i] != newline_byte());
                }
            }
        }
        (start, end)
    }
}

/// The byte offsets of every comma in `text`, in increasing order (the
/// offsets that `text.match_indices(",")` yields).
pub fn comma_locations(text: &str) -> (r: Vec<usize>)
    ensures
        r@ == comma_positions(bytes_of(text@), bytes_of(text@).len() as int),
        bytes_of(text@).len() <= usize::MAX,
{
    let bytes = text.as_bytes();
    let mut r: Vec<usize> = Vec::new();
    let mut k: usize = 0;
    while k < bytes.len()
        invariant
            k <= bytes@.len(),
            bytes@ == bytes_of(text@),
            r@ == comma_positions(bytes@, k as int),
        decreases bytes@.len() - k,
    {
        if bytes[k] == 44 {
            r.push(k);
        }
        k = k + 1;
    }
    r
}

/// Every entry of `comma_positions` is a comma before `k`, in increasing order.
proof fn lemma_comma_positions(bytes: Seq<u8>, k: int)
    requires
        0 <= k <= bytes.len(),
        bytes.len() <= usize::MAX,
    ensures
        forall|j: int|
            0 <= j < comma_positions(bytes, k).len() ==> #[trigger] comma_positions(bytes, k)[j] < k
                && bytes[comma_positions(bytes, k)[j] as int] == comma_byte(),
        comma_positions(bytes, k).len() == 0 <==> forall|i: int| 0 <= i < k ==> bytes[i] != comma_byte(),
    decreases k,
{
    if k > 0 {
        lemma_comma_positions(bytes, k - 1);
        let p = comma_positions(bytes, k - 1);
        let q = comma_positions(bytes, k);
        assert forall|j: int| 0 <= j < q.len() implies #[trigger] q[j] < k && bytes[q[j] as int] == comma_byte() by {
            if j < p.len() {
                assert(q[j] == p[j]);
            } else {
                assert(q[j] == (k - 1) as usize);
            }
        }
    }
}

impl Mistake {
    /// The mistake that `text` (read from `path`) makes: `None` when it holds no
    /// comma, else the text with the offsets of all its commas.
    pub fn check_text(path: &str, text: String) -> (m: Option<Mistake>)
        ensures
            match m {
                None => forall|i: int|
                    0 <= i < bytes_of(text@).len() ==> bytes_of(text@)[i] != comma_byte(),
                Some(m) => m.wf() && m.locations_in_text() && m.path@ == path@ && m.text@ == text@
                    && m.locations.len() > 0,
            },
    {
        let locations = comma_locations(text.as_str());
        proof {
            let b = bytes_of(text@);
            lemma_comma_positions(b, b.len() as int);
            assert forall|j: int| 0 <= j < locations@.len() implies #[trigger] locations@[j] < b.len()
                && is_char_boundary(b, locations@[j] as int)
                && is_char_boundary(b, locations@[j] + 1) by {
                let loc = locations@[j] as int;
                assert(b[loc] == comma_byte());
                assert(is_leading_byte_width_1(b[loc]));
                lemma_boundary_after_ascii(b, loc);
            }
        }
        if locations.len() == 0 {
            None
        } else {
            Some(Mistake { path: path.to_string(), text, locations })
        }
    }
}

/// The number of line feeds among the first `k` bytes.
pub open spec fn newline_count(bytes: Seq<u8>, k: int) -> nat
    decreases k,
{
    if k <= 0 {
        0
    } else {
        newline_count(bytes, k - 1) + (if bytes[k - 1] == newline_byte() {
            1nat
        } else {
            0nat
        })
    }
}

/// The part of the report about the comma at byte `loc` of a text from `path`:
/// the heading, the line that holds the comma after its right-aligned line
/// number, and a caret under the comma.
pub open spec fn report_block(path: Seq<char>, bytes: Seq<u8>, loc: int) -> Seq<char> {
    let start = line_start(bytes, loc);
    let end = line_end(bytes, loc + 1);
    path + ": commas are forbidden:\n\n"@ + pad_left(decimal(newline_count(bytes, start) + 1), 8)
        + " | "@ + decode_utf8(bytes.subrange(start, end)) + "\n"@ + spaces((11 + loc - start) as nat)
        + "^\n\n"@
}

/// The report about the commas at the given offsets, one block per comma in order.
pub open spec fn report_text(path: Seq<char>, bytes: Seq<u8>, locs: Seq<usize>) -> Seq<char>
    decreases locs.len(),
{
    if locs.len() == 0 {
        seq![]
    } else {
        report_text(path, bytes, locs.drop_last()) + report_block(path, bytes, locs.last() as int)
    }
}

proof fn lemma_line_start(bytes: Seq<u8>, index: int)
    requires
        0 <= index <= bytes.len(),
    ensures
        0 <= line_start(bytes, index) <= index,
        line_start(bytes, index) == 0 || bytes[line_start(bytes, index) - 1] == newline_byte(),
        forall|i: int| line_start(bytes, index) <= i < index ==> bytes[i] != newline_byte(),
    decreases index,
{
    if index > 0 && bytes[index - 1] != newline_byte() {
        lemma_line_start(bytes, index - 1);
    }
}

proof fn lemma_line_end(bytes: Seq<u8>, k: int)
    requires
        0 <= k <= bytes.len(),
    ensures
        k <= line_end(bytes, k) <= bytes.len(),
        line_end(bytes, k) == bytes.len() || bytes[line_end(bytes, k)] == newline_byte(),
        forall|i: int| k <= i < line_end(bytes, k) ==> bytes[i] != newline_byte(),
    decreases bytes.len() - k,
{
    if k < bytes.len() && bytes[k] != newline_byte() {
        lemma_line_end(bytes, k + 1);
    }
}

/// Offsets just after a line feed, and offsets of a line feed, fall on
/// character boundaries of valid UTF-8.
proof fn lemma_line_boundaries(bytes: Seq<u8>, loc: int)
    requires
        valid_utf8(bytes),
        0 <= loc < bytes.len(),
    ensures
        is_char_boundary(bytes, line_start(bytes, loc)),
        is_char_boundary(bytes, line_end(bytes, loc + 1)),
{
    lemma_line_start(bytes, loc);
    lemma_line_end(bytes, loc + 1);
    let start = line_start(bytes, loc);
    let end = line_end(bytes, loc + 1);
    if start > 0 {
        assert(is_leading_byte_width_1(bytes[start - 1]));
        is_char_boundary_iff_is_leading_byte(bytes, start - 1);
        lemma_boundary_after_ascii(bytes, start - 1);
    }
    if end < bytes.len() {
        assert(is_leading_byte_width_1(bytes[end]));
    }
}

impl Mistake {
    /// Appends the report block about the comma at byte `loc`.
    fn push_block(&self, out: &mut String, loc: usize)
        requires
            loc < bytes_of(self.text@).len(),
            is_char_boundary(bytes_of(self.text@), loc as int),
            is_char_boundary(bytes_of(self.text@), loc + 1),
        ensures
            final(out)@ == old(out)@ + report_block(self.path@, bytes_of(self.text@), loc as int),
    {
        let text = self.text.as_str();
        let bytes = text.as_bytes();
        let ghost b = bytes_of(self.text@);
        assert(bytes@ == b);
        proof {
            lemma_line_boundaries(b, loc as int);
        }
        let (start, end) = self.line_bounds(loc);
        let mut count: usize = 0;
        let mut i: usize = 0;
        while i < start
            invariant
                i <= start <= loc < b.len(),
                bytes@ == b,
                count == newline_count(b, i as int),
                count <= i,
            decreases start - i,
        {
            if bytes[i] == 10 {
                count = count + 1;
            }
            i = i + 1;
        }
        let (head, _) = text.split_at(end);
        proof {
            let prefix = b.subrange(0, end as int);
            assert(head.spec_bytes() =~= prefix);
            valid_utf8_split(b, end as int);
            assert(valid_utf8(prefix));
            if start < end {
                assert(prefix[start as int] == b[start as int]);
                is_char_boundary_iff_is_leading_byte(b, start as int);
                is_char_boundary_iff_is_leading_byte(prefix, start as int);
            } else {
                is_char_boundary_start_end_of_seq(prefix);
            }
        }
        let (_, line) = head.split_at(start);
        proof {
            assert(line.spec_bytes() =~= b.subrange(start as int, end as int));
            assert(line@ == decode_utf8(line.spec_bytes()));
        }
        out.append(self.path.as_str());
        out.append(": commas are forbidden:\n\n");
        let number = format_u64_padded((count + 1) as u64, 8);
        out.append(number.as_str());
        out.append(" | ");
        out.append(line);
        out.append("\n");
        push_spaces(out, 11);
        push_spaces(out, loc - start);
        out.append("^\n\n");
        proof {
            assert(spaces(11) + spaces((loc - start) as nat) =~= spaces((11 + loc - start) as nat));
            assert(out@ =~= old(out)@ + report_block(self.path@, b, loc as int));
        }
    }

    /// The text of the report, one block per listed location in the listed
    /// order (see [`report_block`]), as the mistake's `Display` writes it. Each
    /// location must lie in the text, with it and the offset after it on
    /// character boundaries ([`Self::check_text`] lists only such offsets).
    pub fn report(&self) -> (r: String)
        requires
            self.locations_in_text(),
        ensures
            r@ == report_text(self.path@, bytes_of(self.text@), self.locations@),
    {
        let ghost b = bytes_of(self.text@);
        let mut out = String::new();
        let mut k: usize = 0;
        while k < self.locations.len()
            invariant
                k <= self.locations.len(),
                b == bytes_of(self.text@),
                forall|j: int|
                    0 <= j < self.locations@.len() ==> #[trigger] self.locations@[j] < b.len()
                        && is_char_boundary(b, self.locations@[j] as int)
                        && is_char_boundary(b, self.locations@[j] + 1),
                out@ == report_text(self.path@, b, self.locations@.subrange(0, k as int)),
            decreases self.locations.len() - k,
        {
            let loc = self.locations[k];
            assert(self.locations@[k as int] < b.len());
            self.push_block(&mut out, loc);
            proof {
                let done = self.locations@.subrange(0, k + 1);
                assert(done.drop_last() =~= self.locations@.subrange(0, k as int));
            }
            k = k + 1;
        }
        assert(self.locations@.subrange(0, k as int) =~= self.locations@);
        out
    }
}

/// The line number of a report block counts every line feed before the line:
/// `newline_count(bytes, k)` is the number of line-feed bytes among the first
/// `k` bytes, blank lines included.
pub proof fn lemma_newline_count_counts_line_feeds(bytes: Seq<u8>, k: int)
    requires
        0 <= k <= bytes.len(),
    ensures
        newline_count(bytes, k) == bytes.subrange(0, k).filter(|b: u8| b == newline_byte()).len(),
        k < bytes.len() && bytes[k] == newline_byte() ==> newline_count(bytes, k + 1) == newline_count(bytes, k) + 1,
        k < bytes.len() && bytes[k] != newline_byte() ==> newline_count(bytes, k + 1) == newline_count(bytes, k),
    decreases k,
{
    reveal_with_fuel(Seq::<_>::filter, 1);
    let prefix = bytes.subrange(0, k);
    if k > 0 {
        lemma_newline_count_counts_line_feeds(bytes, k - 1);
        assert(prefix.drop_last() =~= bytes.subrange(0, k - 1));
        assert(prefix.last() == bytes[k - 1]);
    } else {
        assert(prefix =~= Seq::<u8>::empty());
    }
}

/// The comma offsets of a text are exactly the offsets of its commas: every
/// listed offset holds a comma, every comma is listed, and the list is
/// strictly increasing.
pub proof fn lemma_comma_positions_are_all_commas(bytes: Seq<u8>, k: int)
    requires
        0 <= k <= bytes.len(),
        bytes.len() <= usize::MAX,
    ensures
        forall|j: int|
            0 <= j < comma_positions(bytes, k).len() ==> #[trigger] comma_positions(bytes, k)[j] < k
                && bytes[comma_positions(bytes, k)[j] as int] == comma_byte(),
        forall|i: int|
            0 <= i < k && bytes[i] == comma_byte() ==> exists|j: int|
                0 <= j < comma_positions(bytes, k).len() && #[trigger] comma_positions(bytes, k)[j] == i,
        forall|a: int, b: int|
            0 <= a < b < comma_positions(bytes, k).len() ==> #[trigger] comma_positions(bytes, k)[a]
                < #[trigger] comma_positions(bytes, k)[b],
    decreases k,
{
    lemma_comma_positions(bytes, k);
    if k > 0 {
        lemma_comma_positions_are_all_commas(bytes, k - 1);
        let p = comma_positions(bytes, k - 1);
        let q = comma_positions(bytes, k);
        assert forall|i: int| 0 <= i < k && bytes[i] == comma_byte() implies exists|j: int|
            0 <= j < q.len() && #[trigger] q[j] == i by {
            if i < k - 1 {
                let j = choose|j: int| 0 <= j < p.len() && #[trigger] p[j] == i;
                assert(q[j] == p[j]);
            } else {
                assert(q[p.len() as int] == (k - 1) as usize);
            }
        }
        assert forall|a: int, b: int| 0 <= a < b < q.len() implies #[trigger] q[a] < #[trigger] q[b] by {
            if b < p.len() {
                assert(q[a] == p[a] && q[b] == p[b]);
            } else {
                assert(q[a] == p[a]);
                assert(p[a] < k - 1);
            }
        }
    }
}

} // verus!
