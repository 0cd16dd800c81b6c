//! Reading named sequences in the FASTA format: lines beginning with `>`
//! introduce a named record, and the following non-`>` lines are
//! concatenated as its raw bytes, whitespace trimmed at line boundaries.
//! The reader parses text its caller has already read in; the caller owns
//! the file handling.

use vstd::prelude::*;
use vstd::string::StrSliceExecFns;
use vstd::utf8::encode_utf8;

use crate::model::Sequence;

verus! {

/// Whitespace as trimmed at line boundaries.
pub open spec fn is_ws(c: char) -> bool {
    c == ' ' || c == '\t' || c == '\r' || c == '\n' || c == '\u{b}' || c == '\u{c}'
}

/// The lines of `s` with `cur` as the partial line carried in: `\n` ends a
/// line, and a final line without `\n` still counts.
pub open spec fn line_split_acc(s: Seq<char>, cur: Seq<char>) -> Seq<Seq<char>>
    decreases s.len(),
{
    if s.len() == 0 {
        if cur.len() == 0 {
            Seq::empty()
        } else {
            seq![cur]
        }
    } else if s[0] == '\n' {
        seq![cur] + line_split_acc(s.drop_first(), Seq::empty())
    } else {
        line_split_acc(s.drop_first(), cur.push(s[0]))
    }
}

/// The lines of `s`.
pub open spec fn line_split(s: Seq<char>) -> Seq<Seq<char>> {
    line_split_acc(s, Seq::empty())
}

/// `s` without leading whitespace.
pub open spec fn trim_front(s: Seq<char>) -> Seq<char>
    decreases s.len(),
{
    if s.len() > 0 && is_ws(s[0]) {
        trim_front(s.drop_first())
    } else {
        s
    }
}

/// `s` without trailing whitespace.
pub open spec fn trim_back(s: Seq<char>) -> Seq<char>
    decreases s.len(),
{
    if s.len() > 0 && is_ws(s.last()) {
        trim_back(s.drop_last())
    } else {
        s
    }
}

/// `s` without leading and trailing whitespace.
pub open spec fn trim_spec(s: Seq<char>) -> Seq<char> {
    trim_back(trim_front(s))
}

/// A line that introduces a named record.
pub open spec fn is_header(l: Seq<char>) -> bool {
    l.len() > 0 && l[0] == '>'
}

/// The first non-blank line at or after `i`.
pub open spec fn skip_blank(ls: Seq<Seq<char>>, i: int) -> int
    decreases ls.len() - i,
{
    if 0 <= i < ls.len() && ls[i].len() == 0 {
        skip_blank(ls, i + 1)
    } else {
        i
    }
}

/// The first header line at or after `i` (or the end).
pub open spec fn next_header(ls: Seq<Seq<char>>, i: int) -> int
    decreases ls.len() - i,
{
    if 0 <= i < ls.len() && !is_header(ls[i]) {
        next_header(ls, i + 1)
    } else {
        i
    }
}

/// The UTF-8 bytes of lines `i` up to `end`, concatenated.
pub open spec fn concat_bytes(ls: Seq<Seq<char>>, i: int, end: int) -> Seq<u8>
    decreases end - i,
{
    if i >= end {
        Seq::empty()
    } else {
        encode_utf8(ls[i]) + concat_bytes(ls, i + 1, end)
    }
}

proof fn lemma_concat_bytes_snoc(ls: Seq<Seq<char>>, i: int, end: int)
    requires
        i <= end,
    ensures
        concat_bytes(ls, i, end + 1) == concat_bytes(ls, i, end) + encode_utf8(ls[end]),
    decreases end - i,
{
    if i == end {
        assert(concat_bytes(ls, i, end + 1) =~= Seq::empty() + encode_utf8(ls[end])
            + concat_bytes(ls, end + 1, end + 1));
        assert(concat_bytes(ls, i, end + 1) =~= concat_bytes(ls, i, end) + encode_utf8(ls[end]));
    } else {
        lemma_concat_bytes_snoc(ls, i + 1, end);
        assert(concat_bytes(ls, i, end + 1)
            =~= concat_bytes(ls, i, end) + encode_utf8(ls[end]));
    }
}

/// An abstraction for reading named sequences in the FASTA format from
/// text.  It holds the text's lines, already trimmed, and a cursor.
pub struct FastaReader {
    pub lines: Vec<String>,
    pub line_index: usize,
}

impl FastaReader {
    /// The lines as character sequences.
    pub open spec fn lines_model(&self) -> Seq<Seq<char>> {
        self.lines@.map_values(|l: String| l@)
    }

    pub open spec fn wf(&self) -> bool {
        self.line_index <= self.lines@.len()
    }

    /// Splits `input` into lines and trims each.
    pub fn new(input: &str) -> (r: Self)
        ensures
            r.lines_model() == line_split(input@).map_values(|l: Seq<char>| trim_spec(l)),
            r.line_index == 0,
            r.wf(),
    {
        let len = input.unicode_len();
        let mut lines: Vec<String> = Vec::new();
        let ghost mut raw_lines: Seq<Seq<char>> = Seq::empty();
        let mut start: usize = 0;
        let mut pos: usize = 0;
        proof {
            assert(input@.skip(0) =~= input@);
            assert(input@.subrange(0, 0) =~= Seq::<char>::empty());
        }
        while pos < len
            invariant
                len == input@.len(),
                0 <= start <= pos <= len,
                lines@.len() == raw_lines.len(),
                forall|t: int| 0 <= t < raw_lines.len()
                    ==> #[trigger] lines@[t]@ == trim_spec(raw_lines[t]),
                line_split(input@) == raw_lines + line_split_acc(
                    input@.skip(pos as int),
                    input@.subrange(start as int, pos as int),
                ),
            decreases len - pos,
        {
            let c = input.get_char(pos);
            if c == '\n' {
                let segment = trimmed_segment(input, start, pos);
                lines.push(segment);
                proof {
                    let rest = input@.skip(pos as int);
                    assert(rest[0] == '\n');
                    assert(rest.drop_first() =~= input@.skip(pos + 1));
                    assert(input@.subrange(pos + 1, pos + 1) =~= Seq::<char>::empty());
                    let cur = input@.subrange(start as int, pos as int);
                    assert(line_split_acc(rest, cur)
                        =~= seq![cur] + line_split_acc(input@.skip(pos + 1), Seq::empty()));
                    raw_lines = raw_lines.push(cur);
                    assert(line_split(input@) =~= raw_lines + line_split_acc(
                        input@.skip(pos + 1),
                        input@.subrange(pos + 1, pos + 1),
                    ));
                }
                start = pos + 1;
            } else {
                proof {
                    let rest = input@.skip(pos as int);
                    assert(rest[0] == c);
                    assert(rest.drop_first() =~= input@.skip(pos + 1));
                    let cur = input@.subrange(start as int, pos as int);
                    assert(cur.push(c) =~= input@.subrange(start as int, pos + 1));
                }
            }
            pos += 1;
        }
        proof {
            assert(input@.skip(len as int) =~= Seq::<char>::empty());
        }
        if start < len {
            let segment = trimmed_segment(input, start, len);
            lines.push(segment);
            proof {
                let cur = input@.subrange(start as int, len as int);
                assert(cur.len() > 0);
                assert(line_split_acc(Seq::empty(), cur) =~= seq![cur]);
                raw_lines = raw_lines.push(cur);
                assert(line_split(input@) =~= raw_lines);
            }
        } else {
            proof {
                let cur = input@.subrange(start as int, len as int);
                assert(cur.len() == 0);
                assert(line_split_acc(Seq::<char>::empty(), cur) =~= Seq::<Seq<char>>::empty());
                assert(line_split(input@) =~= raw_lines);
            }
        }
        proof {
            assert(lines@.map_values(|l: String| l@)
                =~= line_split(input@).map_values(|l: Seq<char>| trim_spec(l)));
        }
        FastaReader { lines, line_index: 0 }
    }

    /// The line under the cursor, if any.
    pub fn current_line(&self) -> (r: Option<&str>)
        requires
            self.wf(),
        ensures
            match r {
                Some(l) => self.line_index < self.lines@.len()
                    && l@ == self.lines_model()[self.line_index as int],
                None => self.line_index == self.lines@.len(),
            },
    {
        if self.line_index < self.lines.len() {
            Some(self.lines[self.line_index].as_str())
        } else {
            None
        }
    }

    /// Advances the cursor one line and returns the line it lands on.
    pub fn next_line(&mut self) -> (r: Option<&str>)
        requires
            old(self).wf(),
        ensures
            final(self).wf(),
            final(self).lines == old(self).lines,
            final(self).line_index == if old(self).line_index < old(self).lines@.len() {
                old(self).line_index + 1
            } else {
                old(self).line_index as int
            },
            match r {
                Some(l) => final(self).line_index < final(self).lines@.len()
                    && l@ == final(self).lines_model()[final(self).line_index as int],
                None => final(self).line_index == final(self).lines@.len(),
            },
    {
        if self.line_index < self.lines.len() {
            self.line_index += 1;
        }
        if self.line_index < self.lines.len() {
            Some(self.lines[self.line_index].as_str())
        } else {
            None
        }
    }

    /// The next record: skips blank lines, demands a `>` header, and
    /// gathers the data lines up to the next header or the end.  A
    /// non-header, non-blank line where a record should start is a parse
    /// error carrying that line's index.
    pub fn next(&mut self) -> (r: Result<Option<Sequence>, usize>)
        requires
            old(self).wf(),
        ensures
            final(self).wf(),
            final(self).lines == old(self).lines,
            ({
                let ls = old(self).lines_model();
                let s = skip_blank(ls, old(self).line_index as int);
                match r {
                    Ok(None) => s == ls.len() && final(self).line_index == s,
                    Ok(Some(sq)) => {
                        &&& s < ls.len()
                        &&& is_header(ls[s])
                        &&& sq.name@ == ls[s].subrange(1, ls[s].len() as int)
                        &&& sq.raw@ == concat_bytes(ls, s + 1, next_header(ls, s + 1))
                        &&& final(self).line_index == next_header(ls, s + 1)
                    },
                    Err(bad) => {
                        &&& s < ls.len()
                        &&& !is_header(ls[s])
                        &&& bad == s
                        &&& final(self).line_index == s
                    },
                }
            }),
    {
        let ghost ls = self.lines_model();
        let ghost idx0 = self.line_index as int;
        // Skip blank lines before the record header.
        while self.line_index < self.lines.len()
            && self.lines[self.line_index].as_str().unicode_len() == 0
            invariant
                self.wf(),
                self.lines == old(self).lines,
                ls == self.lines_model(),
                idx0 <= self.line_index as int,
                skip_blank(ls, idx0) == skip_blank(ls, self.line_index as int),
            decreases self.lines@.len() - self.line_index,
        {
            self.line_index += 1;
        }
        proof {
            assert(skip_blank(ls, idx0) == self.line_index as int);
        }
        if self.line_index == self.lines.len() {
            return Ok(None);
        }
        let header = &self.lines[self.line_index];
        let header_len = header.as_str().unicode_len();
        if header.as_str().get_char(0) != '>' {
            return Err(self.line_index);
        }
        let name = header.as_str().substring_char(1, header_len);
        let ghost s = self.line_index as int;
        self.line_index += 1;
        let mut raw: Vec<u8> = Vec::new();
        proof {
            assert(concat_bytes(ls, s + 1, s + 1) =~= Seq::<u8>::empty());
        }
        while self.line_index < self.lines.len()
            && !(self.lines[self.line_index].as_str().unicode_len() > 0
                && self.lines[self.line_index].as_str().get_char(0) == '>')
            invariant
                self.wf(),
                self.lines == old(self).lines,
                ls == self.lines_model(),
                s + 1 <= self.line_index as int,
                next_header(ls, s + 1) == next_header(ls, self.line_index as int),
                raw@ == concat_bytes(ls, s + 1, self.line_index as int),
            decreases self.lines@.len() - self.line_index,
        {
            let mut chunk = self.lines[self.line_index].as_str().as_bytes_vec();
            proof {
                lemma_concat_bytes_snoc(ls, s + 1, self.line_index as int);
            }
            raw.append(&mut chunk);
            self.line_index += 1;
        }
        proof {
            assert(next_header(ls, s + 1) == self.line_index as int);
        }
        Ok(Some(Sequence::new(name, raw)))
    }
}

/// The characters of `input` between `start` and `end`, without leading
/// and trailing whitespace.
fn trimmed_segment(input: &str, start: usize, end: usize) -> (r: String)
    requires
        start <= end <= input@.len(),
    ensures
        r@ == trim_spec(input@.subrange(start as int, end as int)),
{
    let mut a = start;
    while a < end && is_ws_exec(input.get_char(a))
        invariant
            start <= a <= end <= input@.len(),
            trim_front(input@.subrange(start as int, end as int))
                == trim_front(input@.subrange(a as int, end as int)),
        decreases end - a,
    {
        proof {
            let seg = input@.subrange(a as int, end as int);
            assert(seg[0] == input@[a as int]);
            assert(seg.drop_first() =~= input@.subrange(a + 1, end as int));
        }
        a += 1;
    }
    proof {
        let seg = input@.subrange(a as int, end as int);
        assert(trim_front(seg) == seg);
    }
    let mut b = end;
    while b > a && is_ws_exec(input.get_char(b - 1))
        invariant
            a <= b <= end <= input@.len(),
            trim_front(input@.subrange(start as int, end as int))
                == input@.subrange(a as int, end as int),
            trim_back(input@.subrange(a as int, end as int))
                == trim_back(input@.subrange(a as int, b as int)),
        decreases b,
    {
        proof {
            let seg = input@.subrange(a as int, b as int);
            assert(seg.last() == input@[b - 1]);
            assert(seg.drop_last() =~= input@.subrange(a as int, b - 1));
        }
        b -= 1;
    }
    proof {
        let seg = input@.subrange(a as int, b as int);
        assert(trim_back(seg) == seg);
    }
    input.substring_char(a, b).to_owned()
}

/// Whether the character counts as line-boundary whitespace.
fn is_ws_exec(c: char) -> (r: bool)
    ensures
        r == is_ws(c),
{
    c == ' ' || c == '\t' || c == '\r' || c == '\n' || c == '\u{b}' || c == '\u{c}'
}

} // verus!
