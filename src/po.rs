//! Reading gettext PO files into a table of translations.

use vstd::prelude::*;
use vstd::utf8::{valid_utf8, decode_utf8};
use vstd::slice::slice_subrange;
use vstd::string::StrSliceExecFns;

verus! {

/// Why a C-style string literal could not be read.
#[derive(Clone, Copy, Debug, PartialEq, Eq, Structural)]
pub enum LiteralError {
    /// There was nothing where the literal should be.
    Empty,
    /// The literal starts with this character instead of a double quote.
    NoOpeningQuote(char),
    /// The opening quote is all there is.
    NoClosingQuote,
    /// The literal ends with this character instead of a double quote.
    BadClosingQuote(char),
    /// A backslash escapes this character, which is not supported.
    UnsupportedEscape(char),
    /// A double quote appears inside the literal without a backslash.
    UnescapedQuote,
    /// The literal's content ends with a lone backslash.
    UnterminatedEscape,
}

/// The character a supported escape `\c` stands for.
pub open spec fn escaped(c: char) -> Option<char> {
    if c == 'a' {
        Some('\u{7}')
    } else if c == 'b' {
        Some('\u{8}')
    } else if c == 'f' {
        Some('\u{c}')
    } else if c == 'n' {
        Some('\n')
    } else if c == 't' {
        Some('\t')
    } else if c == 'v' {
        Some('\u{b}')
    } else if c == '"' {
        Some('"')
    } else if c == '\\' {
        Some('\\')
    } else {
        None
    }
}

/// The content between the quotes of a literal, with its escapes resolved.
pub open spec fn unescape(b: Seq<char>) -> Result<Seq<char>, LiteralError>
    decreases b.len(),
{
    if b.len() == 0 {
        Ok(Seq::empty())
    } else if b[0] == '\\' {
        if b.len() == 1 {
            Err(LiteralError::UnterminatedEscape)
        } else {
            match escaped(b[1]) {
                Some(c) => match unescape(b.skip(2)) {
                    Ok(r) => Ok(seq![c] + r),
                    Err(e) => Err(e),
                },
                None => Err(LiteralError::UnsupportedEscape(b[1])),
            }
        }
    } else if b[0] == '"' {
        Err(LiteralError::UnescapedQuote)
    } else {
        match unescape(b.skip(1)) {
            Ok(r) => Ok(seq![b[0]] + r),
            Err(e) => Err(e),
        }
    }
}

/// The string a double-quoted C-style literal denotes.
pub open spec fn literal_spec(s: Seq<char>) -> Result<Seq<char>, LiteralError> {
    if s.len() == 0 {
        Err(LiteralError::Empty)
    } else if s[0] != '"' {
        Err(LiteralError::NoOpeningQuote(s[0]))
    } else if s.len() == 1 {
        Err(LiteralError::NoClosingQuote)
    } else if s.last() != '"' {
        Err(LiteralError::BadClosingQuote(s.last()))
    } else {
        unescape(s.subrange(1, s.len() - 1))
    }
}

fn escaped_char(c: char) -> (r: Option<char>)
    ensures
        r == escaped(c),
{
    match c {
        'a' => Some('\u{7}'),
        'b' => Some('\u{8}'),
        'f' => Some('\u{c}'),
        'n' => Some('\n'),
        't' => Some('\t'),
        'v' => Some('\u{b}'),
        '"' => Some('"'),
        '\\' => Some('\\'),
        _ => None,
    }
}

/// Reads the C-style string literal `s[from..]`.
pub fn parse_c_string_literal(s: &Vec<char>, from: usize) -> (r: Result<Vec<char>, LiteralError>)
    requires
        from <= s@.len(),
    ensures
        match (r, literal_spec(s@.skip(from as int))) {
            (Ok(v), Ok(w)) => v@ == w,
            (Err(e), Err(f)) => e == f,
            _ => false,
        },
{
    let ghost lit = s@.skip(from as int);
    let n = s.len();
    if from == n {
        return Err(LiteralError::Empty);
    }
    if s[from] != '"' {
        return Err(LiteralError::NoOpeningQuote(s[from]));
    }
    if from + 1 == n {
        return Err(LiteralError::NoClosingQuote);
    }
    if s[n - 1] != '"' {
        return Err(LiteralError::BadClosingQuote(s[n - 1]));
    }
    let ghost body = lit.subrange(1, lit.len() - 1);
    let end = n - 1;
    assert(body =~= s@.subrange(from + 1, end as int));
    assert(lit[0] == s@[from as int] && lit.last() == s@[end as int]);
    assert(literal_spec(lit) == unescape(body));
    let mut out: Vec<char> = Vec::new();
    proof {
        match unescape(body) {
            Ok(r) => {
                assert(out@ + r =~= r);
            },
            Err(_) => {},
        }
    }
    let mut i: usize = from + 1;
    while i < end
        invariant
            from + 1 <= i <= end,
            end == n - 1,
            n == s@.len(),
            lit == s@.skip(from as int),
            literal_spec(lit) == unescape(body),
            body == s@.subrange(from + 1, end as int),
            unescape(body) == match unescape(s@.subrange(i as int, end as int)) {
                Ok(r) => Ok(out@ + r),
                Err(e) => Err(e),
            },
        decreases end - i,
    {
        let ghost rest = s@.subrange(i as int, end as int);
        let c = s[i];
        assert(rest[0] == c);
        assert(i + 1 < end ==> rest[1] == s@[i + 1]);
        if c == '\\' {
            if i + 1 == end {
                assert(unescape(rest) == Err::<Seq<char>, LiteralError>(LiteralError::UnterminatedEscape));
                return Err(LiteralError::UnterminatedEscape);
            }
            match escaped_char(s[i + 1]) {
                Some(e) => {
                    assert(rest.skip(2) =~= s@.subrange(i + 2, end as int));
                    let ghost before = out@;
                    out.push(e);
                    proof {
                        match unescape(rest.skip(2)) {
                            Ok(r) => {
                                assert(before + (seq![e] + r) =~= out@ + r);
                            },
                            Err(_) => {},
                        }
                    }
                    i = i + 2;
                },
                None => {
                    assert(unescape(rest) == Err::<Seq<char>, LiteralError>(LiteralError::UnsupportedEscape(s@[i + 1])));
                    return Err(LiteralError::UnsupportedEscape(s[i + 1]));
                },
            }
        } else if c == '"' {
            return Err(LiteralError::UnescapedQuote);
        } else {
            assert(rest.skip(1) =~= s@.subrange(i + 1, end as int));
            let ghost before = out@;
            out.push(c);
            proof {
                match unescape(rest.skip(1)) {
                    Ok(r) => {
                        assert(before + (seq![c] + r) =~= out@ + r);
                    },
                    Err(_) => {},
                }
            }
            i = i + 1;
        }
    }
    assert(out@ + Seq::<char>::empty() =~= out@);
    Ok(out)
}


/// A line kind that is recognised but not supported.
#[derive(Clone, Copy, Debug, PartialEq, Eq, Structural)]
pub enum Unsupported {
    Msgctxt,
    MsgidPlural,
    IndexedMsgstr,
}

/// Why a line is not valid PO syntax.
#[derive(Clone, Copy, Debug, PartialEq, Eq, Structural)]
pub enum InvalidLine {
    /// `msgid ` is not followed by a valid literal.
    Msgid(LiteralError),
    /// `msgstr ` is not followed by a valid literal.
    Msgstr(LiteralError),
    /// A line that starts with a quote is not a valid literal.
    Quoted(LiteralError),
    /// The line has no recognised form.
    Unrecognized,
}

/// What a line of a PO file holds.
pub enum LineKind {
    Ignored,
    MsgidStart(Seq<char>),
    MsgstrStart(Seq<char>),
    QuotedString(Seq<char>),
    Unsupported(Unsupported),
    Invalid(InvalidLine),
}

/// `p` is a prefix of `line`.
pub open spec fn starts_with(line: Seq<char>, p: Seq<char>) -> bool {
    p.len() <= line.len() && line.take(p.len() as int) == p
}

pub open spec fn msgctxt_prefix() -> Seq<char> {
    seq!['m', 's', 'g', 'c', 't', 'x', 't', ' ']
}

pub open spec fn msgid_plural_prefix() -> Seq<char> {
    seq!['m', 's', 'g', 'i', 'd', '_', 'p', 'l', 'u', 'r', 'a', 'l', ' ']
}

pub open spec fn indexed_msgstr_prefix() -> Seq<char> {
    seq!['m', 's', 'g', 's', 't', 'r', '[']
}

pub open spec fn msgid_prefix() -> Seq<char> {
    seq!['m', 's', 'g', 'i', 'd', ' ']
}

pub open spec fn msgstr_prefix() -> Seq<char> {
    seq!['m', 's', 'g', 's', 't', 'r', ' ']
}

/// Classifies one line of a PO file.
pub open spec fn line_kind(line: Seq<char>) -> LineKind {
    if line.len() == 0 || line[0] == '#' {
        LineKind::Ignored
    } else if starts_with(line, msgctxt_prefix()) {
        LineKind::Unsupported(Unsupported::Msgctxt)
    } else if starts_with(line, msgid_plural_prefix()) {
        LineKind::Unsupported(Unsupported::MsgidPlural)
    } else if starts_with(line, indexed_msgstr_prefix()) {
        LineKind::Unsupported(Unsupported::IndexedMsgstr)
    } else if starts_with(line, msgid_prefix()) {
        match literal_spec(line.skip(msgid_prefix().len() as int)) {
            Ok(s) => LineKind::MsgidStart(s),
            Err(e) => LineKind::Invalid(InvalidLine::Msgid(e)),
        }
    } else if starts_with(line, msgstr_prefix()) {
        match literal_spec(line.skip(msgstr_prefix().len() as int)) {
            Ok(s) => LineKind::MsgstrStart(s),
            Err(e) => LineKind::Invalid(InvalidLine::Msgstr(e)),
        }
    } else if line[0] == '"' {
        match literal_spec(line) {
            Ok(s) => LineKind::QuotedString(s),
            Err(e) => LineKind::Invalid(InvalidLine::Quoted(e)),
        }
    } else {
        LineKind::Invalid(InvalidLine::Unrecognized)
    }
}

/// The executable form of [`LineKind`].
pub enum LineType {
    Ignored,
    MsgidStart(Vec<char>),
    MsgstrStart(Vec<char>),
    QuotedString(Vec<char>),
    Unsupported(Unsupported),
    Invalid(InvalidLine),
}

impl View for LineType {
    type V = LineKind;

    open spec fn view(&self) -> LineKind {
        match self {
            LineType::Ignored => LineKind::Ignored,
            LineType::MsgidStart(s) => LineKind::MsgidStart(s@),
            LineType::MsgstrStart(s) => LineKind::MsgstrStart(s@),
            LineType::QuotedString(s) => LineKind::QuotedString(s@),
            LineType::Unsupported(u) => LineKind::Unsupported(*u),
            LineType::Invalid(i) => LineKind::Invalid(*i),
        }
    }
}

fn has_prefix(line: &Vec<char>, p: &Vec<char>) -> (r: bool)
    ensures
        r == starts_with(line@, p@),
{
    if p.len() > line.len() {
        return false;
    }
    let mut i: usize = 0;
    while i < p.len()
        invariant
            p@.len() <= line@.len(),
            i <= p@.len(),
            line@.take(i as int) == p@.take(i as int),
        decreases p@.len() - i,
    {
        if line[i] != p[i] {
            assert(line@.take(p@.len() as int)[i as int] == line@[i as int]);
            return false;
        }
        assert(line@.take(i as int + 1) =~= line@.take(i as int).push(line@[i as int]));
        assert(p@.take(i as int + 1) =~= p@.take(i as int).push(p@[i as int]));
        i = i + 1;
    }
    assert(p@.take(i as int) =~= p@);
    true
}

/// Classifies one line of a PO file.
pub fn determine_line_type(line: &Vec<char>) -> (r: LineType)
    ensures
        r@ == line_kind(line@),
{
    if line.len() == 0 || line[0] == '#' {
        return LineType::Ignored;
    }
    let msgctxt = vec!['m', 's', 'g', 'c', 't', 'x', 't', ' '];
    assert(msgctxt@ == msgctxt_prefix());
    if has_prefix(line, &msgctxt) {
        return LineType::Unsupported(Unsupported::Msgctxt);
    }
    let plural = vec!['m', 's', 'g', 'i', 'd', '_', 'p', 'l', 'u', 'r', 'a', 'l', ' '];
    assert(plural@ == msgid_plural_prefix());
    if has_prefix(line, &plural) {
        return LineType::Unsupported(Unsupported::MsgidPlural);
    }
    let indexed = vec!['m', 's', 'g', 's', 't', 'r', '['];
    assert(indexed@ == indexed_msgstr_prefix());
    if has_prefix(line, &indexed) {
        return LineType::Unsupported(Unsupported::IndexedMsgstr);
    }
    let msgid = vec!['m', 's', 'g', 'i', 'd', ' '];
    assert(msgid@ == msgid_prefix());
    if has_prefix(line, &msgid) {
        return match parse_c_string_literal(line, msgid.len()) {
            Ok(s) => LineType::MsgidStart(s),
            Err(e) => LineType::Invalid(InvalidLine::Msgid(e)),
        };
    }
    let msgstr = vec!['m', 's', 'g', 's', 't', 'r', ' '];
    assert(msgstr@ == msgstr_prefix());
    if has_prefix(line, &msgstr) {
        return match parse_c_string_literal(line, msgstr.len()) {
            Ok(s) => LineType::MsgstrStart(s),
            Err(e) => LineType::Invalid(InvalidLine::Msgstr(e)),
        };
    }
    if line[0] == '"' {
        assert(line@.skip(0) =~= line@);
        return match parse_c_string_literal(line, 0) {
            Ok(s) => LineType::QuotedString(s),
            Err(e) => LineType::Invalid(InvalidLine::Quoted(e)),
        };
    }
    LineType::Invalid(InvalidLine::Unrecognized)
}

/// Why a PO file could not be read.
#[derive(Clone, Copy, Debug, PartialEq, Eq, Structural)]
pub enum PoError {
    /// The line is not valid UTF-8.
    InvalidUtf8 { line: usize },
    /// A line that is neither a string nor a msgstr follows a msgid.
    MsgidWithoutMsgstr { line: usize },
    /// A msgid follows a msgid.
    ConsecutiveMsgids { line: usize },
    /// A msgstr without a msgid before it.
    MsgstrWithoutMsgid { line: usize },
    /// A msgstr follows a msgstr.
    ConsecutiveMsgstrs { line: usize },
    /// A string that continues neither a msgid nor a msgstr.
    StrayString { line: usize },
    /// The entry completed at this line repeats an earlier msgid.
    DuplicateMsgid { line: usize },
    /// The line has a form that is not supported.
    Unsupported { line: usize, kind: Unsupported },
    /// The line is not valid syntax.
    Invalid { line: usize, reason: InvalidLine },
    /// The file ends after a msgid without its msgstr.
    TrailingMsgid,
    /// The last entry of the file repeats an earlier msgid.
    TrailingDuplicateMsgid,
}

/// Where the parser stands between lines.
pub enum EntryStage {
    WaitingForEntry,
    StartedMsgid(Seq<char>),
    StartedMsgstr(Seq<char>, Seq<char>),
}

/// The entries read so far, msgid and msgstr, in the order they completed.
pub type Entries = Seq<(Seq<char>, Seq<char>)>;

/// Some entry of `es` has this msgid.
pub open spec fn has_msgid(es: Entries, id: Seq<char>) -> bool {
    exists|k: int| 0 <= k < es.len() && (#[trigger] es[k]).0 == id
}

/// The entries with a non-empty msgstr, in order.
pub open spec fn translated(es: Entries) -> Entries
    decreases es.len(),
{
    if es.len() == 0 {
        es
    } else {
        let sub = translated(es.drop_last());
        if es.last().1.len() > 0 {
            sub.push(es.last())
        } else {
            sub
        }
    }
}

/// `es` with the entry `(id, s)` added; an error when `id` is already there.
pub open spec fn add_entry_spec(es: Entries, id: Seq<char>, s: Seq<char>, err: PoError) -> Result<Entries, PoError> {
    if has_msgid(es, id) {
        Err(err)
    } else {
        Ok(es.push((id, s)))
    }
}

/// One step of the parser: the line numbered `line`, of kind `lk`, read in
/// state `st` with entries `es`.
pub open spec fn add_line_spec(st: EntryStage, es: Entries, line: usize, lk: LineKind) -> Result<
    (EntryStage, Entries),
    PoError,
> {
    match lk {
        LineKind::Ignored => match st {
            EntryStage::WaitingForEntry => Ok((EntryStage::WaitingForEntry, es)),
            EntryStage::StartedMsgid(_) => Err(PoError::MsgidWithoutMsgstr { line }),
            EntryStage::StartedMsgstr(id, s) => match add_entry_spec(es, id, s, PoError::DuplicateMsgid { line }) {
                Ok(es2) => Ok((EntryStage::WaitingForEntry, es2)),
                Err(e) => Err(e),
            },
        },
        LineKind::MsgidStart(m) => match st {
            EntryStage::WaitingForEntry => Ok((EntryStage::StartedMsgid(m), es)),
            EntryStage::StartedMsgid(_) => Err(PoError::ConsecutiveMsgids { line }),
            EntryStage::StartedMsgstr(id, s) => match add_entry_spec(es, id, s, PoError::DuplicateMsgid { line }) {
                Ok(es2) => Ok((EntryStage::StartedMsgid(m), es2)),
                Err(e) => Err(e),
            },
        },
        LineKind::MsgstrStart(m) => match st {
            EntryStage::WaitingForEntry => Err(PoError::MsgstrWithoutMsgid { line }),
            EntryStage::StartedMsgid(id) => Ok((EntryStage::StartedMsgstr(id, m), es)),
            EntryStage::StartedMsgstr(_, _) => Err(PoError::ConsecutiveMsgstrs { line }),
        },
        LineKind::QuotedString(q) => match st {
            EntryStage::WaitingForEntry => Err(PoError::StrayString { line }),
            EntryStage::StartedMsgid(id) => Ok((EntryStage::StartedMsgid(id + q), es)),
            EntryStage::StartedMsgstr(id, s) => Ok((EntryStage::StartedMsgstr(id, s + q), es)),
        },
        LineKind::Unsupported(kind) => Err(PoError::Unsupported { line, kind }),
        LineKind::Invalid(reason) => Err(PoError::Invalid { line, reason }),
    }
}

/// The table at the end of the file: the last entry completed, then the
/// entries with an empty msgstr left out.
pub open spec fn finish_spec(st: EntryStage, es: Entries) -> Result<Entries, PoError> {
    match st {
        EntryStage::WaitingForEntry => Ok(translated(es)),
        EntryStage::StartedMsgid(_) => Err(PoError::TrailingMsgid),
        EntryStage::StartedMsgstr(id, s) => match add_entry_spec(es, id, s, PoError::TrailingDuplicateMsgid) {
            Ok(es2) => Ok(translated(es2)),
            Err(e) => Err(e),
        },
    }
}

/// The text of the line `b[start..end]`; a line that ended in a newline
/// loses a carriage return before it.
pub open spec fn line_bytes(b: Seq<u8>, start: int, end: int, had_newline: bool) -> Seq<u8> {
    if had_newline && end > start && b[end - 1] == 13 {
        b.subrange(start, end - 1)
    } else {
        b.subrange(start, end)
    }
}

/// Reads the line `b[start..end]` as the line numbered `n + 1`.
pub open spec fn process_line(
    b: Seq<u8>,
    start: int,
    end: int,
    had_newline: bool,
    st: EntryStage,
    es: Entries,
    n: nat,
) -> Result<(EntryStage, Entries), PoError> {
    let raw = line_bytes(b, start, end, had_newline);
    if !valid_utf8(raw) {
        Err(PoError::InvalidUtf8 { line: (n + 1) as usize })
    } else {
        add_line_spec(st, es, (n + 1) as usize, line_kind(decode_utf8(raw)))
    }
}

/// The rest of the parse from byte `i`, the current line having started at
/// `start`, after `n` complete lines.
pub open spec fn run_bytes(b: Seq<u8>, i: int, start: int, st: EntryStage, es: Entries, n: nat) -> Result<
    Entries,
    PoError,
>
    decreases b.len() - i,
{
    if i < 0 || i >= b.len() {
        if 0 <= start < b.len() {
            match process_line(b, start, b.len() as int, false, st, es, n) {
                Ok((st2, es2)) => finish_spec(st2, es2),
                Err(e) => Err(e),
            }
        } else {
            finish_spec(st, es)
        }
    } else if b[i] == 10 {
        match process_line(b, start, i, true, st, es, n) {
            Ok((st2, es2)) => run_bytes(b, i + 1, i + 1, st2, es2, n + 1),
            Err(e) => Err(e),
        }
    } else {
        run_bytes(b, i + 1, start, st, es, n)
    }
}

/// What a PO file reads as: its translated entries in order, or the first
/// error.
pub open spec fn po_spec(b: Seq<u8>) -> Result<Entries, PoError> {
    run_bytes(b, 0, 0, EntryStage::WaitingForEntry, Seq::empty(), 0)
}

/// Relies on `std::str::from_utf8`, which accepts exactly the valid UTF-8
/// byte sequences and views them as the characters they encode.
#[verifier::external_body]
fn utf8_str(b: &[u8]) -> (r: Option<&str>)
    ensures
        r is Some <==> valid_utf8(b@),
        r matches Some(s) ==> s@ == decode_utf8(b@),
{
    std::str::from_utf8(b).ok()
}

/// The characters of a line, or `None` when it is not valid UTF-8.
fn decode_line(b: &[u8]) -> (r: Option<Vec<char>>)
    ensures
        r is Some <==> valid_utf8(b@),
        r matches Some(v) ==> v@ == decode_utf8(b@),
{
    match utf8_str(b) {
        None => None,
        Some(s) => {
            let n = s.unicode_len();
            let mut v: Vec<char> = Vec::new();
            let mut i: usize = 0;
            while i < n
                invariant
                    n == s@.len(),
                    i <= n,
                    v@ == s@.take(i as int),
                decreases n - i,
            {
                v.push(s.get_char(i));
                assert(v@ =~= s@.take(i as int + 1));
                i = i + 1;
            }
            assert(v@ =~= s@);
            Some(v)
        },
    }
}

/// Relies on `String: FromIterator<&char>`, which builds the string of the
/// characters in order.
#[verifier::external_body]
fn string_from_chars(v: &Vec<char>) -> (r: String)
    ensures
        r@ == v@,
{
    String::from_iter(v)
}

/// The parser's state between lines, as held in memory.
pub enum EntryState {
    /// Between entries.
    WaitingForEntry,
    /// A msgid was read, possibly over several lines.
    StartedMsgid(Vec<char>),
    /// A msgid and a msgstr were read.
    StartedMsgstr(Vec<char>, Vec<char>),
}

impl View for EntryState {
    type V = EntryStage;

    open spec fn view(&self) -> EntryStage {
        match self {
            EntryState::WaitingForEntry => EntryStage::WaitingForEntry,
            EntryState::StartedMsgid(id) => EntryStage::StartedMsgid(id@),
            EntryState::StartedMsgstr(id, s) => EntryStage::StartedMsgstr(id@, s@),
        }
    }
}

pub open spec fn entries_view(v: Seq<(Vec<char>, Vec<char>)>) -> Entries {
    v.map_values(|e: (Vec<char>, Vec<char>)| (e.0@, e.1@))
}

pub open spec fn table_view(v: Seq<(String, String)>) -> Entries {
    v.map_values(|e: (String, String)| (e.0@, e.1@))
}

fn chars_equal(a: &Vec<char>, b: &Vec<char>) -> (r: bool)
    ensures
        r == (a@ == b@),
{
    if a.len() != b.len() {
        return false;
    }
    let mut i: usize = 0;
    while i < a.len()
        invariant
            a@.len() == b@.len(),
            i <= a@.len(),
            a@.take(i as int) == b@.take(i as int),
        decreases a@.len() - i,
    {
        if a[i] != b[i] {
            assert(a@.take(i as int + 1)[i as int] != b@.take(i as int + 1)[i as int]);
            return false;
        }
        assert(a@.take(i as int + 1) =~= a@.take(i as int).push(a@[i as int]));
        assert(b@.take(i as int + 1) =~= b@.take(i as int).push(b@[i as int]));
        i = i + 1;
    }
    assert(a@ =~= a@.take(i as int));
    assert(b@ =~= b@.take(i as int));
    true
}

/// A PO file being read line by line.
pub struct ParsingState {
    pub entry_state: EntryState,
    pub entries: Vec<(Vec<char>, Vec<char>)>,
    pub line_number: usize,
}

impl ParsingState {
    /// The state before the first line.
    pub fn new() -> (r: ParsingState)
        ensures
            r.entry_state@ == EntryStage::WaitingForEntry,
            entries_view(r.entries@) == Seq::<(Seq<char>, Seq<char>)>::empty(),
            r.line_number == 0,
    {
        let r = ParsingState { entry_state: EntryState::WaitingForEntry, entries: Vec::new(), line_number: 0 };
        assert(entries_view(r.entries@) =~= Seq::<(Seq<char>, Seq<char>)>::empty());
        r
    }

    /// Adds the entry `(msgid, msgstr)`; `err` when its msgid is already
    /// there. Entries with an empty msgstr are kept too, so that a repeated
    /// msgid is noticed whatever its translation.
    pub fn add_entry(&mut self, msgid: Vec<char>, msgstr: Vec<char>, err: PoError) -> (r: Result<(), PoError>)
        ensures
            final(self).entry_state == old(self).entry_state,
            final(self).line_number == old(self).line_number,
            match add_entry_spec(entries_view(old(self).entries@), msgid@, msgstr@, err) {
                Ok(es) => r is Ok && entries_view(final(self).entries@) == es,
                Err(e) => r == Err::<(), PoError>(e),
            },
    {
        let ghost es = entries_view(self.entries@);
        let mut i: usize = 0;
        while i < self.entries.len()
            invariant
                i <= self.entries@.len(),
                es == entries_view(self.entries@),
                forall|k: int| 0 <= k < i ==> (#[trigger] es[k]).0 != msgid@,
            decreases self.entries@.len() - i,
        {
            if chars_equal(&self.entries[i].0, &msgid) {
                assert(es[i as int].0 == msgid@);
                return Err(err);
            }
            i = i + 1;
        }
        let ghost pair = (msgid@, msgstr@);
        self.entries.push((msgid, msgstr));
        assert(entries_view(self.entries@) =~= es.push(pair));
        Ok(())
    }

    /// Reads the next line of the file.
    pub fn add_line(self, line: &Vec<char>) -> (r: Result<ParsingState, PoError>)
        requires
            self.line_number < usize::MAX,
        ensures
            match add_line_spec(
                self.entry_state@,
                entries_view(self.entries@),
                (self.line_number + 1) as usize,
                line_kind(line@),
            ) {
                Ok((st, es)) => r matches Ok(p) && p.entry_state@ == st && entries_view(p.entries@) == es
                    && p.line_number == self.line_number + 1,
                Err(e) => r == Err::<ParsingState, PoError>(e),
            },
    {
        let mut this = self;
        this.line_number = this.line_number + 1;
        let line_no = this.line_number;
        let state = this.entry_state;
        this.entry_state = EntryState::WaitingForEntry;
        match determine_line_type(line) {
            LineType::Ignored => match state {
                EntryState::WaitingForEntry => {},
                EntryState::StartedMsgid(_) => {
                    return Err(PoError::MsgidWithoutMsgstr { line: line_no });
                },
                EntryState::StartedMsgstr(msgid, msgstr) => {
                    if let Err(e) = this.add_entry(msgid, msgstr, PoError::DuplicateMsgid { line: line_no }) {
                        return Err(e);
                    }
                },
            },
            LineType::MsgidStart(msgid) => match state {
                EntryState::WaitingForEntry => {
                    this.entry_state = EntryState::StartedMsgid(msgid);
                },
                EntryState::StartedMsgid(_) => {
                    return Err(PoError::ConsecutiveMsgids { line: line_no });
                },
                EntryState::StartedMsgstr(old_msgid, old_msgstr) => {
                    if let Err(e) = this.add_entry(old_msgid, old_msgstr, PoError::DuplicateMsgid { line: line_no }) {
                        return Err(e);
                    }
                    this.entry_state = EntryState::StartedMsgid(msgid);
                },
            },
            LineType::MsgstrStart(msgstr) => match state {
                EntryState::WaitingForEntry => {
                    return Err(PoError::MsgstrWithoutMsgid { line: line_no });
                },
                EntryState::StartedMsgid(msgid) => {
                    this.entry_state = EntryState::StartedMsgstr(msgid, msgstr);
                },
                EntryState::StartedMsgstr(_, _) => {
                    return Err(PoError::ConsecutiveMsgstrs { line: line_no });
                },
            },
            LineType::QuotedString(string) => match state {
                EntryState::WaitingForEntry => {
                    return Err(PoError::StrayString { line: line_no });
                },
                EntryState::StartedMsgid(msgid) => {
                    let mut msgid = msgid;
                    let mut string = string;
                    msgid.append(&mut string);
                    this.entry_state = EntryState::StartedMsgid(msgid);
                },
                EntryState::StartedMsgstr(msgid, msgstr) => {
                    let mut msgstr = msgstr;
                    let mut string = string;
                    msgstr.append(&mut string);
                    this.entry_state = EntryState::StartedMsgstr(msgid, msgstr);
                },
            },
            LineType::Unsupported(kind) => {
                return Err(PoError::Unsupported { line: line_no, kind });
            },
            LineType::Invalid(reason) => {
                return Err(PoError::Invalid { line: line_no, reason });
            },
        }
        Ok(this)
    }

    /// Ends the file: completes the last entry and gives the entries that
    /// have a translation, in order.
    pub fn finish(self) -> (r: Result<Vec<(String, String)>, PoError>)
        ensures
            match finish_spec(self.entry_state@, entries_view(self.entries@)) {
                Ok(es) => r matches Ok(v) && table_view(v@) == es,
                Err(e) => r == Err::<Vec<(String, String)>, PoError>(e),
            },
    {
        let mut this = self;
        let state = this.entry_state;
        this.entry_state = EntryState::WaitingForEntry;
        match state {
            EntryState::WaitingForEntry => {},
            EntryState::StartedMsgid(_) => {
                return Err(PoError::TrailingMsgid);
            },
            EntryState::StartedMsgstr(msgid, msgstr) => {
                if let Err(e) = this.add_entry(msgid, msgstr, PoError::TrailingDuplicateMsgid) {
                    return Err(e);
                }
            },
        }
        let ghost es = entries_view(this.entries@);
        let mut out: Vec<(String, String)> = Vec::new();
        let mut i: usize = 0;
        while i < this.entries.len()
            invariant
                i <= this.entries@.len(),
                es == entries_view(this.entries@),
                table_view(out@) == translated(es.take(i as int)),
            decreases this.entries@.len() - i,
        {
            let ghost before = out@;
            assert(es.take(i as int + 1).drop_last() =~= es.take(i as int));
            if this.entries[i].1.len() > 0 {
                let k = string_from_chars(&this.entries[i].0);
                let v = string_from_chars(&this.entries[i].1);
                out.push((k, v));
                assert(table_view(out@) =~= table_view(before).push((k@, v@)));
            }
            i = i + 1;
        }
        assert(es.take(i as int) =~= es);
        Ok(out)
    }
}

/// Reads a PO file: the msgid and msgstr of each entry that has a
/// translation, in the order the entries appear, or the first error met.
/// Lines end at a newline, which drops a carriage return just before it.
pub fn parse_po_file(content: &[u8]) -> (r: Result<Vec<(String, String)>, PoError>)
    ensures
        match po_spec(content@) {
            Ok(es) => r matches Ok(v) && table_view(v@) == es,
            Err(e) => r == Err::<Vec<(String, String)>, PoError>(e),
        },
{
    let mut state = ParsingState::new();
    let n = content.len();
    let mut start: usize = 0;
    let mut i: usize = 0;
    while i < n
        invariant
            n == content@.len(),
            start <= i <= n,
            state.line_number <= start,
            po_spec(content@) == run_bytes(
                content@,
                i as int,
                start as int,
                state.entry_state@,
                entries_view(state.entries@),
                state.line_number as nat,
            ),
        decreases n - i,
    {
        if content[i] == 10 {
            let end = if i > start && content[i - 1] == 13 {
                i - 1
            } else {
                i
            };
            let raw = slice_subrange(content, start, end);
            assert(raw@ == line_bytes(content@, start as int, i as int, true));
            match decode_line(raw) {
                None => {
                    return Err(PoError::InvalidUtf8 { line: state.line_number + 1 });
                },
                Some(line) => match state.add_line(&line) {
                    Ok(next) => {
                        state = next;
                    },
                    Err(e) => {
                        return Err(e);
                    },
                },
            }
            start = i + 1;
        }
        i = i + 1;
    }
    if start < n {
        let raw = slice_subrange(content, start, n);
        assert(raw@ == line_bytes(content@, start as int, n as int, false));
        match decode_line(raw) {
            None => {
                return Err(PoError::InvalidUtf8 { line: state.line_number + 1 });
            },
            Some(line) => match state.add_line(&line) {
                Ok(next) => {
                    state = next;
                },
                Err(e) => {
                    return Err(e);
                },
            },
        }
    }
    state.finish()
}

} // verus!
