//! Fixed-width text files: one record on each line, its kind in the first
//! columns, its fields at fixed byte offsets.
//!
//! A file is held whole. Everything here is stated over the bytes of its
//! text. A line ends at a line feed or at the end of the text; a carriage
//! return just before the line feed is not part of the line.

use crate::text::{str_eq, trim, trimmed};
use vstd::prelude::*;
use vstd::string::StringSliceAdditionalSpecFns;
use vstd::utf8::{decode_utf8, encode_utf8, is_char_boundary, valid_utf8};

verus! {

/// A byte span of a line: where it starts in the line, and its length.
pub type Column = (usize, usize);

/// The text that `bytes` stand for, each part that is not UTF-8 replaced by
/// the replacement character.
pub uninterp spec fn lossy_text(bytes: Seq<u8>) -> Seq<char>;

/// `String::from_utf8_lossy`, the result copied into a `String`.
///
/// The contract names the result and claims of it what the documentation
/// says: bytes that are UTF-8 give the text they encode.
#[verifier::external_body]
fn from_utf8_lossy(bytes: &[u8]) -> (text: String)
    ensures
        text@ == lossy_text(bytes@),
        valid_utf8(bytes@) ==> text@ == decode_utf8(bytes@),
{
    String::from_utf8_lossy(bytes).into_owned()
}

/// The position of the first line feed of `b` at or behind `from`, or the
/// length of `b`.
pub open spec fn line_feed(b: Seq<u8>, from: int) -> int
    decreases b.len() - from,
{
    if from < 0 || from >= b.len() {
        b.len() as int
    } else if b[from] == 0x0Au8 {
        from
    } else {
        line_feed(b, from + 1)
    }
}

/// The end of the line of `b` that starts at `start`: its line feed, or the
/// carriage return before that.
pub open spec fn line_end(b: Seq<u8>, start: int) -> int {
    let feed = line_feed(b, start);
    if start < feed < b.len() && b[feed - 1] == 0x0Du8 {
        feed - 1
    } else {
        feed
    }
}

/// The start of the line behind the one that starts at `start`.
pub open spec fn next_line(b: Seq<u8>, start: int) -> int {
    let feed = line_feed(b, start);
    if feed < b.len() {
        feed + 1
    } else {
        feed
    }
}

/// The bytes of `column` on the line of `b` that starts at `start`.
pub open spec fn column_bytes(b: Seq<u8>, start: int, column: Column) -> Seq<u8> {
    b.subrange(start + column.0, start + column.0 + column.1)
}

/// `column` lies on the line of `b` that starts at `start`, and cuts no
/// character in two.
pub open spec fn column_fits(b: Seq<u8>, start: int, column: Column) -> bool {
    &&& start + column.0 + column.1 <= line_end(b, start)
    &&& is_char_boundary(b, start + column.0)
    &&& is_char_boundary(b, start + column.0 + column.1)
}

/// The line of `b` that starts at `start` is of the kind `ty`: it holds
/// `ty` in the first of `columns`.
pub open spec fn line_matches(b: Seq<u8>, start: int, ty: Seq<u8>, columns: Seq<Column>) -> bool {
    column_bytes(b, start, columns[0]) == ty
}

/// The record of the line of `b` that starts at `start`: the text of each
/// of `columns`, trimmed.
pub open spec fn record_at(b: Seq<u8>, start: int, columns: Seq<Column>) -> Seq<Seq<char>> {
    Seq::new(columns.len(), |i: int| trimmed(decode_utf8(column_bytes(b, start, columns[i]))))
}

/// The records of the kind `ty` on the lines of `b` from `start` on, in
/// the order of the lines.
pub open spec fn records_from(b: Seq<u8>, ty: Seq<u8>, columns: Seq<Column>, start: int) -> Seq<
    Seq<Seq<char>>,
>
    decreases b.len() - start,
{
    if start < 0 || start >= b.len() {
        Seq::empty()
    } else {
        proof {
            lemma_line_feed_bounds(b, start);
        }
        let rest = records_from(b, ty, columns, next_line(b, start));
        if line_matches(b, start, ty, columns) {
            seq![record_at(b, start, columns)] + rest
        } else {
            rest
        }
    }
}

/// `columns` suit the lines of `b` from `start` on: there is a first column,
/// it fits on every line, and on a line of the kind `ty` every column fits.
pub open spec fn columns_fit(b: Seq<u8>, ty: Seq<u8>, columns: Seq<Column>, start: int) -> bool
    decreases b.len() - start,
{
    if start < 0 || start >= b.len() {
        true
    } else {
        proof {
            lemma_line_feed_bounds(b, start);
        }
        &&& columns.len() > 0
        &&& column_fits(b, start, columns[0])
        &&& line_matches(b, start, ty, columns) ==> forall|i: int|
            0 <= i < columns.len() ==> column_fits(b, start, #[trigger] columns[i])
        &&& columns_fit(b, ty, columns, next_line(b, start))
    }
}

/// `ty` stands in `b` at the position `at`.
pub open spec fn stands_at(b: Seq<u8>, ty: Seq<u8>, at: int) -> bool {
    0 <= at && at + ty.len() <= b.len() && b.subrange(at, at + ty.len()) == ty
}

/// A line ends within the text, at a line feed or at the end, and the next
/// line starts behind it.
pub proof fn lemma_line_feed_bounds(b: Seq<u8>, from: int)
    requires
        0 <= from <= b.len(),
    ensures
        from <= line_feed(b, from) <= b.len(),
        line_feed(b, from) < b.len() ==> b[line_feed(b, from)] == 0x0Au8,
        forall|k: int| from <= k < line_feed(b, from) ==> b[k] != 0x0Au8,
        from <= line_end(b, from) <= line_feed(b, from),
        from < b.len() ==> from < next_line(b, from) <= b.len(),
    decreases b.len() - from,
{
    if from < b.len() && b[from] != 0x0Au8 {
        lemma_line_feed_bounds(b, from + 1);
    }
}

/// Where `ty` stands nowhere in the text, no line is of that kind.
pub proof fn lemma_unknown_kind_gives_nothing(
    b: Seq<u8>,
    ty: Seq<u8>,
    columns: Seq<Column>,
    start: int,
)
    requires
        columns.len() > 0,
        columns_fit(b, ty, columns, start),
        forall|at: int| !stands_at(b, ty, at),
    ensures
        records_from(b, ty, columns, start).len() == 0,
    decreases b.len() - start,
{
    if 0 <= start < b.len() {
        lemma_line_feed_bounds(b, start);
        lemma_unknown_kind_gives_nothing(b, ty, columns, next_line(b, start));
        if line_matches(b, start, ty, columns) {
            let at = start + columns[0].0;
            assert(column_bytes(b, start, columns[0]).len() == columns[0].1);
            assert(stands_at(b, ty, at));
        }
    }
}

/// A text cut at a character boundary: the boundaries of the front part are
/// those of the whole.
proof fn lemma_boundary_in_front(b: Seq<u8>, at: int, end: int)
    requires
        valid_utf8(b),
        0 <= at <= end <= b.len(),
        is_char_boundary(b, at),
        is_char_boundary(b, end),
    ensures
        valid_utf8(b.subrange(0, end)),
        is_char_boundary(b.subrange(0, end), at),
{
    vstd::utf8::valid_utf8_split(b, end);
    let front = b.subrange(0, end);
    if at == end {
        vstd::utf8::is_char_boundary_start_end_of_seq(front);
    } else {
        vstd::utf8::is_char_boundary_iff_not_is_continuation_byte(b, at);
        vstd::utf8::is_char_boundary_iff_not_is_continuation_byte(front, at);
    }
}

/// The part of `text` from byte `from` up to byte `to`.
fn slice<'a>(text: &'a str, from: usize, to: usize) -> (part: &'a str)
    requires
        from <= to <= text.spec_bytes().len(),
        is_char_boundary(text.spec_bytes(), from as int),
        is_char_boundary(text.spec_bytes(), to as int),
    ensures
        part.spec_bytes() == text.spec_bytes().subrange(from as int, to as int),
        part@ == decode_utf8(text.spec_bytes().subrange(from as int, to as int)),
{
    proof {
        vstd::utf8::encode_utf8_valid_utf8(text@);
        lemma_boundary_in_front(text.spec_bytes(), from as int, to as int);
    }
    let (front, _) = text.split_at(to);
    let (_, part) = front.split_at(from);
    proof {
        assert(part.spec_bytes() =~= text.spec_bytes().subrange(from as int, to as int));
        vstd::utf8::encode_utf8_decode_utf8(part@);
    }
    part
}

/// Does `column` fit on the line of `text` from byte `start` up to byte `end`?
fn column_ok(text: &str, start: usize, end: usize, column: Column) -> (r: bool)
    requires
        start <= end <= text.spec_bytes().len(),
        end == line_end(text.spec_bytes(), start as int),
        column.0 + column.1 <= usize::MAX,
    ensures
        r == column_fits(text.spec_bytes(), start as int, column),
{
    column.0 <= end - start && column.1 <= end - start - column.0 && text.is_char_boundary(
        start + column.0,
    ) && text.is_char_boundary(start + column.0 + column.1)
}

/// A fixed-width text file, held whole.
#[derive(Debug)]
pub struct DataFile {
    buf: String,
}

/// A column as the reader keeps it: where it starts and where it ends.
struct Span(usize, usize);

/// The records of one kind in a file, handed out one by one.
pub struct RecordIter<'a, 'b> {
    buf: &'a str,
    pos: usize,
    ty: &'b str,
    delimiters: Vec<Span>,
}

/// One record: the trimmed text of each column, in the order of the columns.
#[derive(Debug)]
pub struct Record<'a> {
    fields: Vec<&'a str>,
}

impl DataFile {
    /// The text of the file.
    pub closed spec fn text(&self) -> Seq<char> {
        self.buf@
    }

    /// The bytes of the text of the file.
    pub open spec fn bytes(&self) -> Seq<u8> {
        encode_utf8(self.text())
    }

    /// The records of the kind `ty` in the file, in the order of its lines.
    pub open spec fn records_of(&self, ty: Seq<char>, columns: Seq<Column>) -> Seq<Seq<Seq<char>>> {
        records_from(self.bytes(), encode_utf8(ty), columns, 0)
    }

    /// `columns` suit the file, read for the kind `ty`: no column ends
    /// beyond the largest offset, and on the lines of the file the columns
    /// fit.
    pub open spec fn accepts(&self, ty: Seq<char>, columns: Seq<Column>) -> bool {
        &&& forall|i: int|
            0 <= i < columns.len() ==> (#[trigger] columns[i]).0 + columns[i].1 <= usize::MAX
        &&& columns_fit(self.bytes(), encode_utf8(ty), columns, 0)
    }

    /// A kind that stands nowhere in the file has no records.
    pub proof fn lemma_unknown_kind_has_no_records(&self, ty: Seq<char>, columns: Seq<Column>)
        requires
            self.accepts(ty, columns),
            columns.len() > 0,
            forall|at: int| !stands_at(self.bytes(), encode_utf8(ty), at),
        ensures
            self.records_of(ty, columns).len() == 0,
    {
        lemma_unknown_kind_gives_nothing(self.bytes(), encode_utf8(ty), columns, 0);
    }

    /// Two readers of the same kind and columns have the same records to
    /// come, whatever was read from any other before.
    pub proof fn lemma_records_start_anew(
        &self,
        ty: Seq<char>,
        columns: Seq<Column>,
        first: RecordIter,
        second: RecordIter,
    )
        requires
            first.remaining() == self.records_of(ty, columns),
            second.remaining() == self.records_of(ty, columns),
        ensures
            first.remaining() == second.remaining(),
    {
    }

    /// The text of the file.
    pub fn as_str(&self) -> (text: &str)
        ensures
            text@ == self.text(),
    {
        self.buf.as_str()
    }

    /// The file with the content `bytes`, read leniently: what is not UTF-8
    /// is replaced, never refused.
    pub fn from_reader(bytes: &[u8]) -> (file: DataFile)
        ensures
            file.text() == lossy_text(bytes@),
            valid_utf8(bytes@) ==> file.text() == decode_utf8(bytes@),
    {
        DataFile { buf: from_utf8_lossy(bytes) }
    }

    /// Do `delimiters` suit the file, read for the kind `ty`?
    pub fn fits(&self, ty: &str, delimiters: &[Column]) -> (r: bool)
        ensures
            r == self.accepts(ty@, delimiters@),
    {
        let mut i: usize = 0;
        while i < delimiters.len()
            invariant
                i <= delimiters.len(),
                forall|k: int|
                    0 <= k < i ==> (#[trigger] delimiters[k]).0 + delimiters[k].1 <= usize::MAX,
            decreases delimiters.len() - i,
        {
            if delimiters[i].1 > usize::MAX - delimiters[i].0 {
                return false;
            }
            i += 1;
        }
        let buf = self.buf.as_str();
        let bytes = buf.as_bytes();
        let n = bytes.len();
        let ghost b = self.bytes();
        let ghost kind = encode_utf8(ty@);
        let mut pos: usize = 0;
        while pos < n
            invariant
                pos <= n == bytes.len(),
                bytes@ == b,
                buf.spec_bytes() == b,
                b == self.bytes(),
                kind == encode_utf8(ty@),
                forall|k: int|
                    0 <= k < delimiters.len() ==> (#[trigger] delimiters[k]).0 + delimiters[k].1
                        <= usize::MAX,
                columns_fit(b, kind, delimiters@, 0) == columns_fit(b, kind, delimiters@, pos as int),
            decreases n - pos,
        {
            if delimiters.len() == 0 {
                return false;
            }
            let mut feed: usize = pos;
            while feed < n && bytes[feed] != 0x0A
                invariant
                    pos <= feed <= n == bytes.len(),
                    line_feed(bytes@, pos as int) == line_feed(bytes@, feed as int),
                decreases n - feed,
            {
                feed += 1;
            }
            proof {
                lemma_line_feed_bounds(b, pos as int);
            }
            let end = if pos < feed && feed < n && bytes[feed - 1] == 0x0D {
                feed - 1
            } else {
                feed
            };
            if !column_ok(buf, pos, end, delimiters[0]) {
                return false;
            }
            let first = slice(buf, pos + delimiters[0].0, pos + delimiters[0].0 + delimiters[0].1);
            proof {
                vstd::utf8::encode_utf8_decode_utf8(ty@);
                vstd::utf8::encode_utf8_decode_utf8(first@);
            }
            if str_eq(first, ty) {
                let mut j: usize = 0;
                while j < delimiters.len()
                    invariant
                        j <= delimiters.len(),
                        pos <= end <= n,
                        pos < n,
                        end == line_end(b, pos as int),
                        kind == encode_utf8(ty@),
                        b == self.bytes(),
                        line_matches(b, pos as int, kind, delimiters@),
                        columns_fit(b, kind, delimiters@, 0) == columns_fit(
                            b,
                            kind,
                            delimiters@,
                            pos as int,
                        ),
                        buf.spec_bytes() == b,
                        n == b.len(),
                        forall|k: int|
                            0 <= k < delimiters.len() ==> (#[trigger] delimiters[k]).0
                                + delimiters[k].1 <= usize::MAX,
                        forall|k: int|
                            0 <= k < j ==> column_fits(b, pos as int, #[trigger] delimiters@[k]),
                    decreases delimiters.len() - j,
                {
                    if !column_ok(buf, pos, end, delimiters[j]) {
                        assert(!column_fits(b, pos as int, delimiters@[j as int]));
                        return false;
                    }
                    j += 1;
                }
            }
            pos = if feed < n {
                feed + 1
            } else {
                feed
            };
        }
        true
    }

    /// The records of the kind `ty`, from the first line on. Each call
    /// starts anew and hands out the same records.
    pub fn records<'a, 'b>(&'a self, ty: &'b str, delimiters: &'b [Column]) -> (iter: RecordIter<
        'a,
        'b,
    >)
        requires
            self.accepts(ty@, delimiters@),
        ensures
            iter.wf(),
            iter.columns() == delimiters@,
            iter.remaining() == self.records_of(ty@, delimiters@),
    {
        let mut spans: Vec<Span> = Vec::new();
        let mut i: usize = 0;
        while i < delimiters.len()
            invariant
                i <= delimiters.len(),
                spans.len() == i,
                forall|k: int|
                    0 <= k < delimiters.len() ==> (#[trigger] delimiters[k]).0 + delimiters[k].1
                        <= usize::MAX,
                forall|k: int|
                    0 <= k < i ==> (#[trigger] spans[k]).0 == delimiters[k].0 && spans[k].1
                        == delimiters[k].0 + delimiters[k].1,
            decreases delimiters.len() - i,
        {
            let (p, l) = delimiters[i];
            spans.push(Span(p, p + l));
            i += 1;
        }
        let iter = RecordIter { buf: self.buf.as_str(), pos: 0, ty, delimiters: spans };
        assert(iter.columns() =~= delimiters@);
        iter
    }
}

impl<'a, 'b> RecordIter<'a, 'b> {
    /// The columns that the records are cut at.
    pub closed spec fn columns(&self) -> Seq<Column> {
        Seq::new(
            self.delimiters.len() as nat,
            |i: int| (self.delimiters[i].0, (self.delimiters[i].1 - self.delimiters[i].0) as usize),
        )
    }

    /// The reader stands at the start of a line, and the columns suit the
    /// lines that are left.
    pub closed spec fn wf(&self) -> bool {
        &&& self.pos <= self.buf.spec_bytes().len()
        &&& forall|i: int|
            0 <= i < self.delimiters.len() ==> (#[trigger] self.delimiters[i]).0
                <= self.delimiters[i].1
        &&& columns_fit(self.buf.spec_bytes(), self.ty.spec_bytes(), self.columns(), self.pos as int)
    }

    /// The records that are still to come.
    pub closed spec fn remaining(&self) -> Seq<Seq<Seq<char>>> {
        records_from(self.buf.spec_bytes(), self.ty.spec_bytes(), self.columns(), self.pos as int)
    }

    /// The record of the line that starts at `start`.
    fn record(&self, start: usize) -> (rec: Record<'a>)
        requires
            self.wf(),
            start < self.buf.spec_bytes().len(),
            forall|i: int|
                0 <= i < self.columns().len() ==> column_fits(
                    self.buf.spec_bytes(),
                    start as int,
                    #[trigger] self.columns()[i],
                ),
        ensures
            rec@ == record_at(self.buf.spec_bytes(), start as int, self.columns()),
    {
        let n = self.buf.as_bytes().len();
        let mut fields: Vec<&'a str> = Vec::new();
        let mut i: usize = 0;
        while i < self.delimiters.len()
            invariant
                self.wf(),
                start < self.buf.spec_bytes().len() == n,
                forall|k: int|
                    0 <= k < self.columns().len() ==> column_fits(
                        self.buf.spec_bytes(),
                        start as int,
                        #[trigger] self.columns()[k],
                    ),
                i <= self.delimiters.len(),
                fields.len() == i,
                forall|k: int|
                    0 <= k < i ==> (#[trigger] fields[k])@ == record_at(
                        self.buf.spec_bytes(),
                        start as int,
                        self.columns(),
                    )[k],
            decreases self.delimiters.len() - i,
        {
            let l = self.delimiters[i].0;
            let r = self.delimiters[i].1;
            proof {
                lemma_line_feed_bounds(self.buf.spec_bytes(), start as int);
                assert(self.delimiters[i as int].0 <= self.delimiters[i as int].1);
                assert(self.columns()[i as int] == (l, (r - l) as usize));
                assert(column_fits(self.buf.spec_bytes(), start as int, self.columns()[i as int]));
            }
            let field = trim(slice(self.buf, start + l, start + r));
            fields.push(field);
            i += 1;
        }
        let rec = Record { fields };
        assert(rec@ =~= record_at(self.buf.spec_bytes(), start as int, self.columns()));
        rec
    }

    /// The next record of the kind, or `None` when the lines are used up.
    /// Lines of another kind are passed over.
    pub fn next(&mut self) -> (r: Option<Record<'a>>)
        requires
            old(self).wf(),
        ensures
            final(self).wf(),
            final(self).columns() == old(self).columns(),
            match r {
                Some(rec) => {
                    &&& old(self).remaining().len() > 0
                    &&& rec@ == old(self).remaining()[0]
                    &&& rec@.len() == old(self).columns().len()
                    &&& final(self).remaining() == old(self).remaining().drop_first()
                },
                None => old(self).remaining().len() == 0 && final(self).remaining().len() == 0,
            },
    {
        let bytes = self.buf.as_bytes();
        let n = bytes.len();
        loop
            invariant
                self.wf(),
                bytes@ == self.buf.spec_bytes(),
                n == bytes.len(),
                self.buf == old(self).buf,
                self.ty == old(self).ty,
                self.delimiters == old(self).delimiters,
                self.remaining() == old(self).remaining(),
            decreases n - self.pos,
        {
            let start = self.pos;
            if start >= n {
                return None;
            }
            let mut feed: usize = start;
            while feed < n && bytes[feed] != 0x0A
                invariant
                    start <= feed <= n,
                    n == bytes.len(),
                    line_feed(bytes@, start as int) == line_feed(bytes@, feed as int),
                decreases n - feed,
            {
                feed += 1;
            }
            proof {
                lemma_line_feed_bounds(bytes@, start as int);
            }
            self.pos = if feed < n {
                feed + 1
            } else {
                feed
            };
            let l = self.delimiters[0].0;
            let r = self.delimiters[0].1;
            let kind = slice(self.buf, start + l, start + r);
            proof {
                vstd::utf8::encode_utf8_decode_utf8(self.ty@);
                vstd::utf8::encode_utf8_decode_utf8(kind@);
            }
            if str_eq(kind, self.ty) {
                let rec = self.record(start);
                proof {
                    assert(old(self).remaining() =~= seq![rec@] + self.remaining());
                    assert((seq![rec@] + self.remaining()).drop_first() =~= self.remaining());
                }
                return Some(rec);
            }
        }
    }
}

impl<'a> View for Record<'a> {
    type V = Seq<Seq<char>>;

    closed spec fn view(&self) -> Seq<Seq<char>> {
        Seq::new(self.fields.len() as nat, |i: int| self.fields[i]@)
    }
}

impl<'a> Record<'a> {
    /// The number of fields.
    pub fn len(&self) -> (n: usize)
        ensures
            n == self@.len(),
    {
        self.fields.len()
    }
}

impl<'a> std::ops::Index<usize> for Record<'a> {
    type Output = &'a str;

    /// The field at the position `i`.
    fn index(&self, i: usize) -> (field: &&'a str)
        ensures
            (*field)@ == self@[i as int],
    {
        &self.fields[i]
    }
}

impl<'a> vstd::std_specs::core::IndexSpecImpl<usize> for Record<'a> {
    open spec fn index_req(&self, index: &usize) -> bool {
        *index < self@.len()
    }
}

} // verus!
