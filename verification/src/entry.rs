use vstd::prelude::*;

use crate::text::{
    blank_sep, char_rows, chars_of, decimal, extend_chars, is_digit, lemma_decimal,
    lemma_digits_no_newline, lemma_parse_decimal, lemma_split_incl_concat,
    lemma_split_incl_no_newline, lines, lines_of, parse_usize, parse_usize_chars, pieces,
    push_decimal, split_incl, string_from_chars, strip_line,
};

verus! {

/// A to-do item: a place in a source file, with an optional comment.
#[derive(Debug, Clone, PartialEq, Eq)]
pub struct Entry {
    pub path: String,
    pub line: usize,
    pub comment: Option<String>,
}

/// The mathematical value of an [`Entry`].
pub struct SpecEntry {
    pub path: Seq<char>,
    pub line: usize,
    pub comment: Option<Seq<char>>,
}

/// The characters of an optional string.
pub open spec fn opt_view(o: Option<String>) -> Option<Seq<char>> {
    match o {
        Some(s) => Some(s@),
        None => None,
    }
}

impl View for Entry {
    type V = SpecEntry;

    open spec fn view(&self) -> SpecEntry {
        SpecEntry { path: self.path@, line: self.line, comment: opt_view(self.comment) }
    }
}

/// Why a stored entry could not be read back.
#[derive(Debug, Clone, Copy, PartialEq, Eq)]
pub enum SerializeError {
    NoPath,
    NoLine,
    InvalidLine,
}

/// The text of an entry: its path, its line number and, if there is one, its
/// comment, each on a line of its own, followed by a blank line.
pub open spec fn format_entry(e: SpecEntry) -> Seq<char> {
    e.path + seq!['\n'] + decimal(e.line as nat) + match e.comment {
        Some(c) => seq!['\n'] + c,
        None => Seq::<char>::empty(),
    } + blank_sep()
}

/// Reading an entry from text: the first line is the path, the second the line
/// number, the third, if present, the comment.
pub open spec fn parse_entry(s: Seq<char>) -> Result<SpecEntry, SerializeError> {
    let ls = lines(s);
    if ls.len() < 1 {
        Err(SerializeError::NoPath)
    } else if ls.len() < 2 {
        Err(SerializeError::NoLine)
    } else {
        match parse_usize(ls[1]) {
            None => Err(SerializeError::InvalidLine),
            Some(n) => Ok(
                SpecEntry {
                    path: ls[0],
                    line: n,
                    comment: if ls.len() >= 3 {
                        Some(ls[2])
                    } else {
                        None
                    },
                },
            ),
        }
    }
}

/// The message shown for each error.
pub open spec fn error_message(e: SerializeError) -> Seq<char> {
    match e {
        SerializeError::NoPath => "No path found in file"@,
        SerializeError::NoLine => "No line number found in file"@,
        SerializeError::InvalidLine => "Found non-integer line"@,
    }
}

impl SerializeError {
    /// The message that describes this error.
    pub fn message(&self) -> (m: String)
        ensures
            m@ == error_message(*self),
    {
        match self {
            SerializeError::NoPath => String::from_str("No path found in file"),
            SerializeError::NoLine => String::from_str("No line number found in file"),
            SerializeError::InvalidLine => String::from_str("Found non-integer line"),
        }
    }
}

impl Entry {
    /// The text that stores this entry.
    pub fn serialize(&self) -> (s: String)
        ensures
            s@ == format_entry(self@),
    {
        let mut v = chars_of(self.path.as_str());
        v.push('\n');
        push_decimal(&mut v, self.line);
        match &self.comment {
            Some(c) => {
                v.push('\n');
                let cs = chars_of(c.as_str());
                extend_chars(&mut v, &cs);
            },
            None => {},
        }
        v.push('\n');
        v.push('\n');
        assert(v@ =~= format_entry(self@));
        string_from_chars(&v)
    }

    /// Reads an entry back from its text.
    pub fn deserialize(input: &str) -> (r: Result<Entry, SerializeError>)
        ensures
            match r {
                Ok(e) => parse_entry(input@) == Ok::<SpecEntry, SerializeError>(e@),
                Err(x) => parse_entry(input@) == Err::<SpecEntry, SerializeError>(x),
            },
    {
        let cs = chars_of(input);
        let ls = lines_of(&cs);
        let ghost rows = char_rows(ls@);
        if ls.len() < 1 {
            return Err(SerializeError::NoPath);
        }
        if ls.len() < 2 {
            return Err(SerializeError::NoLine);
        }
        assert(rows[1] == ls@[1]@);
        assert(rows[0] == ls@[0]@);
        let line_number = match parse_usize_chars(&ls[1]) {
            Some(n) => n,
            None => {
                return Err(SerializeError::InvalidLine);
            },
        };
        let path = string_from_chars(&ls[0]);
        let comment = if ls.len() >= 3 {
            assert(rows[2] == ls@[2]@);
            Some(string_from_chars(&ls[2]))
        } else {
            None
        };
        let e = Entry { line: line_number, path, comment };
        assert(parse_entry(input@) == Ok::<SpecEntry, SerializeError>(e@));
        Ok(e)
    }
}

/// Text that stays a single line when stored: it holds no line feed and does not
/// end with a carriage return.
pub open spec fn one_line(s: Seq<char>) -> bool {
    !s.contains('\n') && (s.len() == 0 || s.last() != '\r')
}

/// What reading back a stored entry yields: an entry stored without a comment
/// comes back with an empty one.
pub open spec fn normalized(e: SpecEntry) -> SpecEntry {
    SpecEntry {
        path: e.path,
        line: e.line,
        comment: Some(
            match e.comment {
                Some(c) => c,
                None => Seq::<char>::empty(),
            },
        ),
    }
}

/// The pieces of the stored text of `e`, as `read_line` returns them.
pub open spec fn entry_pieces(e: SpecEntry) -> Seq<Seq<char>> {
    match e.comment {
        Some(c) => seq![
            e.path.push('\n'),
            decimal(e.line as nat).push('\n'),
            c.push('\n'),
            seq!['\n'],
        ],
        None => seq![e.path.push('\n'), decimal(e.line as nat).push('\n'), seq!['\n']],
    }
}

proof fn lemma_newline_piece(x: Seq<char>)
    requires
        !x.contains('\n'),
    ensures
        split_incl(x.push('\n')) == (seq![x.push('\n')], Seq::<char>::empty()),
{
    lemma_split_incl_no_newline(x);
    assert(x.push('\n').drop_last() =~= x);
    assert(x.push('\n').last() == '\n');
    assert(Seq::<Seq<char>>::empty().push(x.push('\n')) =~= seq![x.push('\n')]);
}

/// The stored text of an entry whose parts are single lines falls into one
/// piece per part, then a blank line.
pub proof fn lemma_format_pieces(e: SpecEntry)
    requires
        one_line(e.path),
        e.comment matches Some(c) ==> one_line(c),
    ensures
        split_incl(format_entry(e)) == (entry_pieces(e), Seq::<char>::empty()),
        pieces(format_entry(e)) == entry_pieces(e),
{
    let dec = decimal(e.line as nat);
    lemma_decimal(e.line as nat);
    lemma_digits_no_newline(dec);
    let a = e.path.push('\n');
    let b = dec.push('\n');
    let d = seq!['\n'];
    lemma_newline_piece(e.path);
    lemma_newline_piece(dec);
    lemma_newline_piece(Seq::<char>::empty());
    assert(Seq::<char>::empty().push('\n') =~= d);
    lemma_split_incl_concat(a, b);
    match e.comment {
        Some(c) => {
            let cc = c.push('\n');
            lemma_newline_piece(c);
            lemma_split_incl_concat(a + b, cc);
            lemma_split_incl_concat(a + b + cc, d);
            assert(format_entry(e) =~= a + b + cc + d);
            assert(seq![a] + seq![b] + seq![cc] + seq![d] =~= entry_pieces(e));
        },
        None => {
            lemma_split_incl_concat(a + b, d);
            assert(format_entry(e) =~= a + b + d);
            assert(seq![a] + seq![b] + seq![d] =~= entry_pieces(e));
        },
    }
}

/// Reading back the stored text of an entry whose parts are single lines gives
/// the entry, with a missing comment read as an empty one.
pub proof fn deserialize_reads_serialized(e: SpecEntry)
    requires
        one_line(e.path),
        e.comment matches Some(c) ==> one_line(c),
    ensures
        parse_entry(format_entry(e)) == Ok::<SpecEntry, SerializeError>(normalized(e)),
{
    lemma_format_pieces(e);
    let dec = decimal(e.line as nat);
    lemma_decimal(e.line as nat);
    lemma_parse_decimal(e.line);
    let ls = lines(format_entry(e));
    assert(e.path.push('\n').drop_last() =~= e.path);
    assert(dec.push('\n').drop_last() =~= dec);
    assert(is_digit(dec[dec.len() - 1]));
    assert(ls[0] == strip_line(e.path.push('\n')));
    assert(ls[0] == e.path);
    assert(ls[1] == dec);
    assert(seq!['\n'].drop_last() =~= Seq::<char>::empty());
    match e.comment {
        Some(c) => {
            assert(c.push('\n').drop_last() =~= c);
            assert(ls[2] == c);
        },
        None => {
            assert(ls[2] == Seq::<char>::empty());
        },
    }
}

} // verus!
