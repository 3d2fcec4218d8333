//! Cutting a byte stream into lines: CRLF, a byte order mark and a missing final newline are
//! taken care of.
use vstd::prelude::*;
use vstd::slice::slice_subrange;

verus! {

/// One line of a file.
#[derive(Debug, Clone, Copy)]
pub struct Line<'a> {
    /// 1-based line number.
    pub number: u64,
    /// The bytes of the line, without byte order mark and line ending.
    pub bytes: &'a [u8],
    /// The number of bytes that the line takes in the file.
    pub raw_len: usize,
}

/// One line of a file.
#[verifier::ext_equal]
pub struct LineModel {
    pub number: nat,
    pub bytes: Seq<u8>,
    pub raw_len: nat,
}

impl<'a> View for Line<'a> {
    type V = LineModel;

    open spec fn view(&self) -> LineModel {
        LineModel {
            number: self.number as nat,
            bytes: self.bytes@,
            raw_len: self.raw_len as nat,
        }
    }
}

/// Whether `b` is white space of the ASCII range.
pub open spec fn is_blank_byte(b: u8) -> bool {
    b == 0x20 || b == 0x09 || b == 0x0A || b == 0x0C || b == 0x0D
}

/// Whether there is nothing but white space.
pub open spec fn is_blank(bytes: Seq<u8>) -> bool {
    forall|i: int| 0 <= i < bytes.len() ==> is_blank_byte(#[trigger] bytes[i])
}

impl<'a> Line<'a> {
    /// Whether the line takes no less of the file than its own bytes.
    pub open spec fn wf(&self) -> bool {
        self.bytes@.len() <= self.raw_len
    }

    /// Whether the line is empty or holds nothing but white space.
    pub fn is_blank(&self) -> (blank: bool)
        ensures
            blank == is_blank(self.bytes@),
    {
        let mut i: usize = 0;
        while i < self.bytes.len()
            invariant
                i <= self.bytes@.len(),
                forall|k: int| 0 <= k < i ==> is_blank_byte(#[trigger] self.bytes@[k]),
            decreases self.bytes@.len() - i,
        {
            let b: u8 = self.bytes[i];
            if b != 0x20 && b != 0x09 && b != 0x0A && b != 0x0C && b != 0x0D {
                assert(!is_blank_byte(self.bytes@[i as int]));
                return false;
            }
            i = i + 1;
        }
        true
    }
}

// ---------------------------------------------------------------------------------------------
// Lines of a stream
// ---------------------------------------------------------------------------------------------

/// Where the line that starts at `p` ends: behind its newline, or with the data.
pub open spec fn line_end(data: Seq<u8>, p: int) -> int
    decreases data.len() - p,
{
    if p < 0 || p >= data.len() {
        p
    } else if data[p] == 0x0A {
        p + 1
    } else {
        line_end(data, p + 1)
    }
}

/// `raw` without its line ending: a newline, or a carriage return and a newline.
pub open spec fn without_ending(raw: Seq<u8>) -> Seq<u8> {
    if raw.len() > 0 && raw.last() == 0x0A {
        let body = raw.drop_last();
        if body.len() > 0 && body.last() == 0x0D {
            body.drop_last()
        } else {
            body
        }
    } else {
        raw
    }
}

/// Whether `bytes` start with a byte order mark.
pub open spec fn has_mark(bytes: Seq<u8>) -> bool {
    bytes.len() >= 3 && bytes[0] == 0xEF && bytes[1] == 0xBB && bytes[2] == 0xBF
}

/// The line that the raw bytes `raw`, ending included, are as line number `number`. Only the
/// first line of a file loses a byte order mark.
pub open spec fn line_of(raw: Seq<u8>, number: nat) -> LineModel {
    let body = without_ending(raw);
    LineModel {
        number,
        bytes: if number == 1 && has_mark(body) {
            body.skip(3)
        } else {
            body
        },
        raw_len: raw.len(),
    }
}

/// The lines of `data` from position `p` on, which is where line number `number` starts.
pub open spec fn lines_from(data: Seq<u8>, p: int, number: nat) -> Seq<LineModel>
    decreases data.len() - p,
{
    if p < 0 || p >= data.len() {
        Seq::empty()
    } else {
        proof {
            lemma_line_end(data, p);
        }
        let end = line_end(data, p);
        seq![line_of(data.subrange(p, end), number)] + lines_from(data, end, number + 1)
    }
}

/// The lines of a file.
pub open spec fn lines_of(data: Seq<u8>) -> Seq<LineModel> {
    lines_from(data, 0, 1)
}

/// A line ends behind its start, and a newline can only be its last byte.
pub proof fn lemma_line_end(data: Seq<u8>, p: int)
    requires
        0 <= p < data.len(),
    ensures
        p < line_end(data, p) <= data.len(),
        forall|i: int| p <= i < line_end(data, p) - 1 ==> #[trigger] data[i] != 0x0A,
        line_end(data, p) < data.len() ==> data[line_end(data, p) - 1] == 0x0A,
    decreases data.len() - p,
{
    reveal_with_fuel(line_end, 2);
    if data[p] != 0x0A && p + 1 < data.len() {
        lemma_line_end(data, p + 1);
    }
}

/// The sum of the raw lengths of `lines`.
pub open spec fn raw_total(lines: Seq<LineModel>) -> nat
    decreases lines.len(),
{
    if lines.len() == 0 {
        0
    } else {
        lines[0].raw_len + raw_total(lines.drop_first())
    }
}

proof fn lemma_lines_from(data: Seq<u8>, p: int, number: nat)
    requires
        0 <= p <= data.len(),
    ensures
        raw_total(lines_from(data, p, number)) == data.len() - p,
        forall|i: int|
            #![trigger lines_from(data, p, number)[i]]
            0 <= i < lines_from(data, p, number).len() ==> {
                let line = lines_from(data, p, number)[i];
                &&& line.number == number + i
                &&& line.raw_len > 0
                &&& line.bytes.len() <= line.raw_len
                &&& !line.bytes.contains(0x0Au8)
            },
    decreases data.len() - p,
{
    if p < data.len() {
        lemma_line_end(data, p);
        let end = line_end(data, p);
        let line = line_of(data.subrange(p, end), number);
        let rest = lines_from(data, end, number + 1);
        lemma_lines_from(data, end, number + 1);
        let all = lines_from(data, p, number);
        assert(all.drop_first() =~= rest);
        assert(!line.bytes.contains(0x0Au8)) by {
            let raw = data.subrange(p, end);
            if line.bytes.contains(0x0Au8) {
                let k = choose|k: int| 0 <= k < line.bytes.len() && line.bytes[k] == 0x0A;
                let shift: int = if number == 1 && has_mark(without_ending(raw)) {
                    3
                } else {
                    0
                };
                assert(raw[k + shift] == 0x0A);
                assert(raw[k + shift] == data[p + k + shift]);
            }
        }
        assert forall|i: int| #![trigger all[i]] 0 <= i < all.len() implies {
            let line = all[i];
            &&& line.number == number + i
            &&& line.raw_len > 0
            &&& line.bytes.len() <= line.raw_len
            &&& !line.bytes.contains(0x0Au8)
        } by {
            if i > 0 {
                assert(all[i] == rest[i - 1]);
            }
        }
    }
}

/// The lines of a file are numbered from one, account for every byte of it, take at least one
/// byte each, and hold no newline.
pub proof fn law_lines_account_for_every_byte(data: Seq<u8>)
    ensures
        raw_total(lines_of(data)) == data.len(),
        forall|i: int|
            #![trigger lines_of(data)[i]]
            0 <= i < lines_of(data).len() ==> {
                &&& lines_of(data)[i].number == i + 1
                &&& lines_of(data)[i].raw_len > 0
                &&& lines_of(data)[i].bytes.len() <= lines_of(data)[i].raw_len
                &&& !lines_of(data)[i].bytes.contains(0x0Au8)
            },
{
    lemma_lines_from(data, 0, 1);
}

/// A missing newline at the end of a file changes nothing but the length of the last line.
pub proof fn law_final_newline_is_optional(data: Seq<u8>, p: int, number: nat)
    requires
        0 <= p < data.len(),
        data.last() != 0x0A,
        data.last() != 0x0D,
    ensures
        lines_from(data.push(0x0A), p, number).len() == lines_from(data, p, number).len(),
        forall|i: int|
            0 <= i < lines_from(data, p, number).len() ==> (#[trigger] lines_from(
                data.push(0x0A),
                p,
                number,
            )[i]).bytes == lines_from(data, p, number)[i].bytes,
    decreases data.len() - p,
{
    let longer = data.push(0x0A);
    lemma_line_end(data, p);
    lemma_longer_line_end(data, p);
    let end = line_end(data, p);
    let here = lines_from(data, p, number);
    let there = lines_from(longer, p, number);
    if end == data.len() {
        assert(data[end - 1] != 0x0A);
        assert(line_end(longer, p) == end + 1);
        let raw = data.subrange(p, end);
        assert(longer.subrange(p, end + 1) =~= raw.push(0x0A));
        assert(raw.push(0x0A).drop_last() =~= raw);
        assert(raw.last() == data.last());
        assert(without_ending(raw.push(0x0A)) == without_ending(raw));
        assert(lines_from(data, end, number + 1) =~= Seq::<LineModel>::empty());
        assert(lines_from(longer, end + 1, number + 1) =~= Seq::<LineModel>::empty());
    } else {
        assert(longer.subrange(p, end) =~= data.subrange(p, end));
        law_final_newline_is_optional(data, end, number + 1);
        let rest = lines_from(data, end, number + 1);
        let other = lines_from(longer, end, number + 1);
        assert forall|i: int| 0 <= i < here.len() implies (#[trigger] there[i]).bytes
            == here[i].bytes by {
            if i > 0 {
                assert(here[i] == rest[i - 1]);
                assert(there[i] == other[i - 1]);
            }
        }
    }
}

proof fn lemma_longer_line_end(data: Seq<u8>, p: int)
    requires
        0 <= p < data.len(),
        data.last() != 0x0A,
    ensures
        line_end(data, p) < data.len() ==> line_end(data.push(0x0A), p) == line_end(data, p),
        line_end(data, p) == data.len() ==> line_end(data.push(0x0A), p) == data.len() + 1,
    decreases data.len() - p,
{
    reveal_with_fuel(line_end, 2);
    assert(data.push(0x0A)[p] == data[p]);
    if data[p] != 0x0A {
        if p + 1 < data.len() {
            lemma_longer_line_end(data, p + 1);
        } else {
            assert(data.push(0x0A)[p + 1] == 0x0A);
            assert(line_end(data.push(0x0A), p + 1) == p + 2);
        }
    }
}

/// `lines` with numbers that are higher by `n`.
pub open spec fn renumbered(lines: Seq<LineModel>, n: nat) -> Seq<LineModel> {
    lines.map_values(|line: LineModel| LineModel { number: line.number + n, ..line })
}

/// Whether what follows `data` starts a line of its own.
pub open spec fn ends_a_line(data: Seq<u8>) -> bool {
    data.len() == 0 || data.last() == 0x0A
}

proof fn lemma_line_end_before(a: Seq<u8>, b: Seq<u8>, p: int)
    requires
        ends_a_line(a),
        0 <= p < a.len(),
    ensures
        line_end(a + b, p) == line_end(a, p),
    decreases a.len() - p,
{
    reveal_with_fuel(line_end, 2);
    assert((a + b)[p] == a[p]);
    if a[p] != 0x0A {
        lemma_line_end_before(a, b, p + 1);
    }
}

proof fn lemma_line_end_behind(a: Seq<u8>, b: Seq<u8>, p: int)
    requires
        0 <= p <= b.len(),
    ensures
        line_end(a + b, a.len() + p) == a.len() + line_end(b, p),
    decreases b.len() - p,
{
    reveal_with_fuel(line_end, 2);
    if p < b.len() {
        assert((a + b)[a.len() + p] == b[p]);
        if b[p] != 0x0A {
            lemma_line_end_behind(a, b, p + 1);
        }
    }
}

proof fn lemma_lines_before(a: Seq<u8>, b: Seq<u8>, p: int, number: nat)
    requires
        ends_a_line(a),
        0 <= p <= a.len(),
    ensures
        lines_from(a + b, p, number) == lines_from(a, p, number) + lines_from(
            a + b,
            a.len() as int,
            number + lines_from(a, p, number).len(),
        ),
    decreases a.len() - p,
{
    let whole = a + b;
    if p == a.len() {
        assert(lines_from(a, p, number) =~= Seq::empty());
        assert(lines_from(whole, p, number) =~= lines_from(a, p, number) + lines_from(
            whole,
            p,
            number,
        ));
    } else {
        let end = line_end(a, p);
        lemma_line_end(a, p);
        lemma_line_end_before(a, b, p);
        lemma_lines_before(a, b, end, number + 1);
        assert(whole.subrange(p, end) =~= a.subrange(p, end));
        let rest = lines_from(a, end, number + 1);
        assert(lines_from(a, p, number).len() == rest.len() + 1);
        assert(lines_from(whole, p, number) =~= lines_from(a, p, number) + lines_from(
            whole,
            a.len() as int,
            number + 1 + rest.len(),
        ));
    }
}

proof fn lemma_lines_behind(a: Seq<u8>, b: Seq<u8>, p: int, number: nat)
    requires
        0 <= p <= b.len(),
    ensures
        lines_from(a + b, a.len() + p, number) == lines_from(b, p, number),
    decreases b.len() - p,
{
    if p < b.len() {
        let end = line_end(b, p);
        lemma_line_end(b, p);
        lemma_line_end_behind(a, b, p);
        lemma_lines_behind(a, b, end, number + 1);
        assert((a + b).subrange(a.len() + p, a.len() + end) =~= b.subrange(p, end));
    }
}

proof fn lemma_renumbered(data: Seq<u8>, p: int, number: nat, n: nat)
    requires
        0 <= p <= data.len(),
        number > 1 || (number == 1 && p == 0 && !has_mark(data)),
    ensures
        lines_from(data, p, number + n) == renumbered(lines_from(data, p, number), n),
    decreases data.len() - p,
{
    let here = lines_from(data, p, number);
    let there = lines_from(data, p, number + n);
    if p < data.len() {
        let end = line_end(data, p);
        let raw = data.subrange(p, end);
        lemma_line_end(data, p);
        lemma_renumbered(data, end, number + 1, n);
        let rest = lines_from(data, end, number + 1);
        if number == 1 {
            let body = without_ending(raw);
            assert(!has_mark(body)) by {
                if has_mark(body) {
                    assert(body[0] == data[0] && body[1] == data[1] && body[2] == data[2]);
                }
            }
        }
        assert(number + n + 1 == number + 1 + n);
        assert(there =~= seq![line_of(raw, number + n)] + renumbered(rest, n));
        assert(renumbered(here, n) =~= seq![line_of(raw, number + n)] + renumbered(rest, n));
    } else {
        assert(there =~= renumbered(here, n));
    }
}

/// Two files put together have the lines of the first and then those of the second, which are
/// counted on. The first has to end a line, and the second must not start with a byte order
/// mark, which is one only at the start of a file.
pub proof fn law_lines_of_joined_files(a: Seq<u8>, b: Seq<u8>)
    requires
        ends_a_line(a),
        !has_mark(b),
    ensures
        lines_of(a + b) == lines_of(a) + renumbered(lines_of(b), lines_of(a).len()),
{
    let n = lines_of(a).len();
    lemma_lines_before(a, b, 0, 1);
    lemma_lines_behind(a, b, 0, 1 + n);
    lemma_renumbered(b, 0, 1, n);
}

/// Turns raw lines into [`Line`]s and numbers them.
#[derive(Debug, Clone, Copy)]
pub struct LineReader {
    lines: u64,
}

impl View for LineReader {
    type V = nat;

    /// The number of lines taken so far.
    closed spec fn view(&self) -> nat {
        self.lines as nat
    }
}

impl LineReader {
    /// A reader at the start of a file.
    pub fn new() -> (reader: LineReader)
        ensures
            reader@ == 0,
    {
        LineReader { lines: 0 }
    }

    /// The line that the next raw bytes of the file are: those up to and with the next newline,
    /// or all that are left.
    pub fn next_line<'a>(&mut self, raw: &'a [u8]) -> (line: Line<'a>)
        requires
            old(self)@ < u64::MAX,
        ensures
            final(self)@ == old(self)@ + 1,
            line@ == line_of(raw@, old(self)@ + 1),
            line.wf(),
    {
        self.lines = self.lines + 1;
        let raw_len: usize = raw.len();
        let mut end: usize = raw_len;
        if end > 0 && raw[end - 1] == 0x0A {
            end = end - 1;
            if end > 0 && raw[end - 1] == 0x0D {
                end = end - 1;
            }
        }
        let mut start: usize = 0;
        if self.lines == 1 && end >= 3 && raw[0] == 0xEF && raw[1] == 0xBB && raw[2] == 0xBF {
            start = 3;
        }
        let bytes: &'a [u8] = slice_subrange(raw, start, end);
        proof {
            let body = without_ending(raw@);
            assert(body =~= raw@.subrange(0, end as int));
            assert(bytes@ =~= line_of(raw@, self.lines as nat).bytes);
        }
        Line { number: self.lines, bytes, raw_len }
    }
}

/// Computes [`line_end`].
pub fn find_line_end(data: &[u8], p: usize) -> (end: usize)
    requires
        p < data@.len(),
    ensures
        end == line_end(data@, p as int),
        p < end <= data@.len(),
{
    let mut i: usize = p;
    while i < data.len()
        invariant
            p <= i <= data@.len(),
            line_end(data@, p as int) == line_end(data@, i as int),
            p < data@.len(),
        decreases data@.len() - i,
    {
        if data[i] == 0x0A {
            return i + 1;
        }
        i = i + 1;
    }
    i
}

// ---------------------------------------------------------------------------------------------
// What a line holds
// ---------------------------------------------------------------------------------------------

/// A line holds its bytes without the line ending, which is a newline, or a carriage return and a
/// newline, or nothing at the end of a file; and the first line without a byte order mark. The
/// mark stays on any other line.
pub proof fn law_line_is_without_its_ending(body: Seq<u8>, number: nat)
    ensures
        ({
            let mark = seq![239u8, 187u8, 191u8];
            let marked = body.len() >= 3 && body.take(3) == mark;
            let open = body.len() == 0 || body.last() != 10u8;
            let bare = body.len() == 0 || body.last() != 13u8;
            &&& number != 1 || !marked ==> {
                &&& open ==> line_of(body, number).bytes == body
                &&& bare ==> line_of(body + seq![10u8], number).bytes == body
                &&& line_of(body + seq![13u8, 10u8], number).bytes == body
            }
            &&& open ==> line_of(mark + body, 1).bytes == body
            &&& bare ==> line_of(mark + body + seq![10u8], 1).bytes == body
            &&& line_of(mark + body + seq![13u8, 10u8], 1).bytes == body
            &&& line_of(body, number).raw_len == body.len()
            &&& line_of(body, number).number == number
        }),
{
    let mark = seq![239u8, 187u8, 191u8];
    lemma_endings(body);
    lemma_endings(mark + body);
    assert((mark + body).skip(3) =~= body);
    if body.len() > 0 {
        assert((mark + body).last() == body.last());
    } else {
        assert((mark + body).last() == 191u8);
    }
    assert((mark + body)[0] == 239u8 && (mark + body)[1] == 187u8 && (mark + body)[2] == 191u8);
    if has_mark(body) {
        assert(body.take(3) =~= mark);
    }
    if body.len() >= 3 && body.take(3) == mark {
        assert(body.take(3)[0] == body[0]);
    }
}

proof fn lemma_endings(body: Seq<u8>)
    ensures
        body.len() == 0 || body.last() != 10u8 ==> without_ending(body) == body,
        body.len() == 0 || body.last() != 13u8 ==> without_ending(body + seq![10u8]) == body,
        without_ending(body + seq![13u8, 10u8]) == body,
{
    let a = body + seq![10u8];
    assert(a.drop_last() =~= body);
    assert(a.last() == 10u8);
    let b = body + seq![13u8, 10u8];
    assert(b.last() == 10u8);
    assert(b.drop_last() =~= body + seq![13u8]);
    assert(b.drop_last().last() == 13u8);
    assert(b.drop_last().drop_last() =~= body);
}

/// The pieces one behind the other.
pub open spec fn joined(pieces: Seq<Seq<u8>>) -> Seq<u8>
    decreases pieces.len(),
{
    if pieces.len() == 0 {
        Seq::empty()
    } else {
        pieces[0] + joined(pieces.drop_first())
    }
}

/// Whether a piece is a raw line: it is not empty, and only its last byte can be a newline.
pub open spec fn is_raw_line(piece: Seq<u8>) -> bool {
    piece.len() > 0 && forall|i: int| 0 <= i < piece.len() - 1 ==> #[trigger] piece[i] != 10u8
}

proof fn lemma_pieces(data: Seq<u8>, p: int, number: nat) -> (pieces: Seq<Seq<u8>>)
    requires
        0 <= p <= data.len(),
    ensures
        joined(pieces) == data.skip(p),
        pieces.len() == lines_from(data, p, number).len(),
        forall|i: int|
            0 <= i < pieces.len() ==> is_raw_line(#[trigger] pieces[i]) && lines_from(
                data,
                p,
                number,
            )[i] == line_of(pieces[i], number + i as nat),
        forall|i: int| 0 <= i < pieces.len() - 1 ==> (#[trigger] pieces[i]).last() == 10u8,
    decreases data.len() - p,
{
    if p == data.len() {
        assert(data.skip(p) =~= Seq::<u8>::empty());
        Seq::empty()
    } else {
        lemma_line_end(data, p);
        let end = line_end(data, p);
        let piece = data.subrange(p, end);
        let rest = lemma_pieces(data, end, number + 1);
        let pieces = seq![piece] + rest;
        assert(pieces.drop_first() =~= rest);
        assert(data.skip(p) =~= piece + data.skip(end));
        let list = lines_from(data, p, number);
        let more = lines_from(data, end, number + 1);
        assert(list == seq![line_of(piece, number)] + more);
        assert forall|i: int| 0 <= i < pieces.len() implies is_raw_line(#[trigger] pieces[i])
            && list[i] == line_of(pieces[i], number + i as nat) by {
            if i > 0 {
                assert(is_raw_line(rest[i - 1]));
                assert(more[i - 1] == line_of(rest[i - 1], (number + 1) + (i - 1) as nat));
            } else {
                assert forall|k: int| 0 <= k < piece.len() - 1 implies #[trigger] piece[k]
                    != 10u8 by {
                    assert(piece[k] == data[p + k]);
                }
            }
        }
        assert forall|i: int| 0 <= i < pieces.len() - 1 implies (#[trigger] pieces[i]).last()
            == 10u8 by {
            if i > 0 {
                assert(rest[i - 1].last() == 10u8);
            } else {
                if end == data.len() {
                    assert(more.len() == 0);
                }
                assert(piece.last() == data[end - 1]);
            }
        }
        pieces
    }
}

/// The lines of a file are its bytes, cut behind every newline: the pieces put together are the
/// file, each but the last ends with its only newline, and the line with the number `i + 1` is
/// what the piece `i` holds.
pub proof fn law_lines_are_cut_behind_newlines(data: Seq<u8>) -> (pieces: Seq<Seq<u8>>)
    ensures
        joined(pieces) == data,
        pieces.len() == lines_of(data).len(),
        forall|i: int|
            0 <= i < pieces.len() ==> is_raw_line(#[trigger] pieces[i]) && lines_of(data)[i]
                == line_of(pieces[i], (i + 1) as nat),
        forall|i: int| 0 <= i < pieces.len() - 1 ==> (#[trigger] pieces[i]).last() == 10u8,
{
    let pieces = lemma_pieces(data, 0, 1);
    assert(data.skip(0) =~= data);
    assert forall|i: int| 0 <= i < pieces.len() implies is_raw_line(#[trigger] pieces[i])
        && lines_of(data)[i] == line_of(pieces[i], (i + 1) as nat) by {
        assert(1 + i as nat == (i + 1) as nat);
    }
    pieces
}

/// A line is blank where it is empty or holds nothing but spaces, tabs, form feeds, carriage
/// returns and newlines.
pub proof fn law_blank_lines_hold_blanks(a: Seq<u8>, b: u8, c: Seq<u8>)
    ensures
        is_blank(Seq::empty()),
        b == 32u8 || b == 9u8 || b == 12u8 || b == 13u8 || b == 10u8 ==> is_blank(a + seq![b] + c)
            == (is_blank(a) && is_blank(c)),
        b != 32u8 && b != 9u8 && b != 12u8 && b != 13u8 && b != 10u8 ==> !is_blank(
            a + seq![b] + c,
        ),
{
    let s = a + seq![b] + c;
    let n = a.len() as int;
    assert(s[n] == b);
    if is_blank(s) {
        assert forall|i: int| 0 <= i < a.len() implies is_blank_byte(#[trigger] a[i]) by {
            assert(s[i] == a[i]);
        }
        assert forall|i: int| 0 <= i < c.len() implies is_blank_byte(#[trigger] c[i]) by {
            assert(s[n + 1 + i] == c[i]);
        }
    }
    if is_blank(a) && is_blank(c) && is_blank_byte(b) {
        assert forall|i: int| 0 <= i < s.len() implies is_blank_byte(#[trigger] s[i]) by {
            if i < n {
                assert(s[i] == a[i]);
            } else if i > n {
                assert(s[i] == c[i - n - 1]);
            }
        }
    }
}

} // verus!
