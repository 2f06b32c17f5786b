//! How the results of a run are laid out as text.

use vstd::prelude::*;
use vstd::string::StringExecFns;

use crate::dialect::{str_trim, trimmed};
use crate::errors::SQLBaseError;
use crate::string_helpers::{find_all, occurrences};
use crate::text::{
    byte_len, byte_slice, bytes_of, copy_str, lemma_bytes_of_concat, slice_text, valid_byte_range,
};
use vstd::utf8::{encode_scalar, is_scalar};

verus! {

/// Whether the character is white space: one of those that Unicode lists
/// as such.
pub open spec fn is_space(c: char) -> bool {
    let u: u32 = c as u32;
    (0x09 <= u <= 0x0D) || u == 0x20 || u == 0x85 || u == 0xA0 || u == 0x1680 || (0x2000 <= u
        <= 0x200A) || u == 0x2028 || u == 0x2029 || u == 0x202F || u == 0x205F || u == 0x3000
}

/// The number of bytes that the character is stored as.
pub open spec fn char_width(c: char) -> int {
    let u: u32 = c as u32;
    if u < 0x80 {
        1
    } else if u < 0x800 {
        2
    } else if u < 0x10000 {
        3
    } else {
        4
    }
}

/// The byte at which the character `k` of `s` starts.
pub open spec fn byte_offset(s: Seq<char>, k: int) -> int {
    bytes_of(s.subrange(0, k)).len() as int
}

/// Where the cutting of a text into lines has got to: the lines so far, as
/// ranges of the bytes of the text, the byte at which the line being read
/// starts, and the byte of the last white space of it, if it is not at its
/// start.
pub struct SplitState {
    pub lines: Seq<(int, int)>,
    pub line_start: int,
    pub last_space: int,
}

/// The cutting of the first `n` characters of `s` into lines of
/// `line_length` bytes.
///
/// When a line has reached its length, it is cut at its last white space,
/// or, if it has none, where it stands. The next line starts one byte
/// after the cut.
pub open spec fn split_walk(s: Seq<char>, line_length: int, n: int) -> SplitState
    decreases n,
{
    if n <= 0 || n > s.len() {
        SplitState { lines: Seq::empty(), line_start: 0, last_space: 0 }
    } else {
        let prev = split_walk(s, line_length, n - 1);
        let idx = byte_offset(s, n - 1);
        let last_space = if is_space(s[n - 1]) {
            idx
        } else {
            prev.last_space
        };
        if idx - prev.line_start >= line_length {
            if last_space == prev.line_start {
                SplitState {
                    lines: prev.lines.push((prev.line_start, idx)),
                    line_start: idx + 1,
                    last_space: idx + 1,
                }
            } else {
                SplitState {
                    lines: prev.lines.push((prev.line_start, last_space)),
                    line_start: last_space + 1,
                    last_space: last_space + 1,
                }
            }
        } else {
            SplitState { lines: prev.lines, line_start: prev.line_start, last_space }
        }
    }
}

/// The lines into which `s` is cut, as ranges of its bytes: those of the
/// walk, and what is left after the last cut.
pub open spec fn split_ranges(s: Seq<char>, line_length: int) -> Seq<(int, int)> {
    let w = split_walk(s, line_length, s.len() as int);
    if w.line_start < bytes_of(s).len() {
        w.lines.push((w.line_start, bytes_of(s).len() as int))
    } else {
        w.lines
    }
}

/// Whether no line into which `s` is cut starts inside a character.
pub open spec fn splits_cleanly(s: Seq<char>, line_length: int) -> bool {
    forall|i: int|
        0 <= i < split_ranges(s, line_length).len() ==> valid_byte_range(
            s,
            (#[trigger] split_ranges(s, line_length)[i]).0,
            split_ranges(s, line_length)[i].1,
        )
}

/// The lines into which `s` is cut, as texts.
pub open spec fn split_lines(s: Seq<char>, line_length: int) -> Seq<Seq<char>> {
    Seq::new(
        split_ranges(s, line_length).len(),
        |i: int| slice_text(s, split_ranges(s, line_length)[i].0, split_ranges(s, line_length)[i].1),
    )
}

/// A character starts as many bytes after the one before it as that one
/// is stored as, and none starts after the end of the text.
pub proof fn lemma_offset_step(s: Seq<char>, k: int)
    requires
        0 <= k < s.len(),
    ensures
        byte_offset(s, k + 1) == byte_offset(s, k) + char_width(s[k]),
        byte_offset(s, k + 1) <= bytes_of(s).len(),
        byte_offset(s, 0) == 0,
        byte_offset(s, s.len() as int) == bytes_of(s).len(),
{
    let head = s.subrange(0, k);
    let c: char = s[k];
    let one = seq![c];
    assert(s.subrange(0, k + 1) =~= head + one);
    lemma_bytes_of_concat(head, one);
    assert(one.drop_first() =~= Seq::<char>::empty());
    assert(one[0] == c);
    assert(bytes_of(one) == encode_scalar(one[0] as u32) + bytes_of(one.drop_first()));
    assert(bytes_of(one) =~= encode_scalar(c as u32));
    vstd::utf8::char_is_scalar(c);
    assert(is_scalar(c as u32));
    assert(encode_scalar(c as u32).len() == char_width(c));
    let rest = s.subrange(k + 1, s.len() as int);
    assert(s =~= s.subrange(0, k + 1) + rest);
    lemma_bytes_of_concat(s.subrange(0, k + 1), rest);
    assert(s.subrange(0, 0) =~= Seq::<char>::empty());
    assert(s.subrange(0, s.len() as int) =~= s);
}

/// The walk never leaves the text behind: a line starts at or before the
/// character that is read next, and so does its last white space.
pub proof fn lemma_split_walk_bounds(s: Seq<char>, line_length: int, n: int)
    requires
        0 <= n <= s.len(),
    ensures
        0 <= split_walk(s, line_length, n).line_start <= byte_offset(s, n),
        split_walk(s, line_length, n).line_start <= split_walk(s, line_length, n).last_space
            <= byte_offset(s, n),
        byte_offset(s, n) <= bytes_of(s).len(),
    decreases n,
{
    if n > 0 {
        lemma_split_walk_bounds(s, line_length, n - 1);
        lemma_offset_step(s, n - 1);
    } else {
        assert(s.subrange(0, 0) =~= Seq::<char>::empty());
    }
}

/// Each line that the walk has cut ends where it starts or after it, and
/// before the character that is read next.
pub proof fn lemma_split_lines_bounds(s: Seq<char>, line_length: int, n: int)
    requires
        0 <= n <= s.len(),
    ensures
        forall|i: int|
            0 <= i < split_walk(s, line_length, n).lines.len() ==> 0 <= (#[trigger] split_walk(
                s,
                line_length,
                n,
            ).lines[i]).0 <= split_walk(s, line_length, n).lines[i].1 <= bytes_of(s).len(),
    decreases n,
{
    if n > 0 {
        lemma_split_lines_bounds(s, line_length, n - 1);
        lemma_split_walk_bounds(s, line_length, n - 1);
        lemma_split_walk_bounds(s, line_length, n);
        lemma_offset_step(s, n - 1);
    }
}

/// A text of ASCII can always be cut into lines: each of its bytes is a
/// character.
pub proof fn lemma_ascii_splits_cleanly(s: Seq<char>, line_length: int)
    requires
        vstd::utf8::is_ascii_chars(s),
    ensures
        splits_cleanly(s, line_length),
{
    let b = bytes_of(s);
    vstd::utf8::is_ascii_chars_encode_utf8(s);
    vstd::utf8::encode_utf8_valid_utf8(s);
    vstd::utf8::is_char_boundary_start_end_of_seq(b);
    assert forall|i: int| 0 <= i <= b.len() implies vstd::utf8::is_char_boundary(b, i) by {
        if i < b.len() {
            vstd::utf8::is_char_boundary_iff_not_is_continuation_byte(b, i);
            let byte: u8 = b[i];
            assert(byte == s[i] as u8);
            assert(byte < 128);
            assert(!vstd::utf8::is_continuation_byte(byte)) by (bit_vector)
                requires
                    byte < 128,
            ;
        }
    }
    lemma_split_lines_bounds(s, line_length, s.len() as int);
    lemma_split_walk_bounds(s, line_length, s.len() as int);
    let all = split_ranges(s, line_length);
    let w = split_walk(s, line_length, s.len() as int);
    assert forall|i: int| 0 <= i < all.len() implies valid_byte_range(
        s,
        (#[trigger] all[i]).0,
        all[i].1,
    ) by {
        if i < w.lines.len() {
            assert(all[i] == w.lines[i]);
        }
    }
}

/// The lines that the walk has cut stay as they are when it goes on.
pub proof fn lemma_split_walk_grows(s: Seq<char>, line_length: int, a: int, b: int)
    requires
        0 <= a <= b <= s.len(),
    ensures
        split_walk(s, line_length, a).lines.len() <= split_walk(s, line_length, b).lines.len(),
        forall|i: int|
            0 <= i < split_walk(s, line_length, a).lines.len() ==> split_walk(
                s,
                line_length,
                b,
            ).lines[i] == #[trigger] split_walk(s, line_length, a).lines[i],
    decreases b - a,
{
    if a < b {
        lemma_split_walk_grows(s, line_length, a, b - 1);
    }
}

/// Whether the character is white space.
fn is_space_char(c: char) -> (r: bool)
    ensures
        r == is_space(c),
{
    let u: u32 = c as u32;
    (0x09 <= u && u <= 0x0D) || u == 0x20 || u == 0x85 || u == 0xA0 || u == 0x1680 || (0x2000
        <= u && u <= 0x200A) || u == 0x2028 || u == 0x2029 || u == 0x202F || u == 0x205F || u
        == 0x3000
}

/// The number of bytes that the character is stored as.
fn char_len(c: char) -> (n: usize)
    ensures
        n == char_width(c),
{
    let u: u32 = c as u32;
    if u < 0x80 {
        1
    } else if u < 0x800 {
        2
    } else if u < 0x10000 {
        3
    } else {
        4
    }
}

/// Cuts a text into lines of `line_length` bytes, at white space where it
/// can; `None` where a line would start inside a character.
pub fn checked_split_on_spaces<'a>(s: &'a str, line_length: usize) -> (r: Option<Vec<&'a str>>)
    ensures
        r is Some <==> splits_cleanly(s@, line_length as int),
        r matches Some(lines) ==> lines@.len() == split_lines(s@, line_length as int).len(),
        r matches Some(lines) ==> forall|i: int|
            0 <= i < lines@.len() ==> (#[trigger] lines@[i])@ == split_lines(
                s@,
                line_length as int,
            )[i],
{
    let n = s.unicode_len();
    let total = byte_len(s);
    let mut lines: Vec<&'a str> = Vec::new();
    let mut line_start: usize = 0;
    let mut last_space: usize = 0;
    let mut k: usize = 0;
    let mut idx: usize = 0;
    let ghost ll = line_length as int;
    proof {
        assert(s@.subrange(0, 0) =~= Seq::<char>::empty());
    }
    while k < n
        invariant
            k <= n,
            n == s@.len(),
            total == bytes_of(s@).len(),
            ll == line_length as int,
            idx == byte_offset(s@, k as int),
            idx <= total,
            line_start == split_walk(s@, ll, k as int).line_start,
            last_space == split_walk(s@, ll, k as int).last_space,
            line_start <= last_space <= idx,
            lines@.len() == split_walk(s@, ll, k as int).lines.len(),
            forall|i: int|
                0 <= i < lines@.len() ==> valid_byte_range(
                    s@,
                    (#[trigger] split_walk(s@, ll, k as int).lines[i]).0,
                    split_walk(s@, ll, k as int).lines[i].1,
                ),
            forall|i: int|
                0 <= i < lines@.len() ==> (#[trigger] lines@[i])@ == slice_text(
                    s@,
                    split_walk(s@, ll, k as int).lines[i].0,
                    split_walk(s@, ll, k as int).lines[i].1,
                ),
        decreases n - k,
    {
        let c = s.get_char(k);
        proof {
            lemma_split_walk_bounds(s@, ll, k as int);
            lemma_split_walk_bounds(s@, ll, k + 1);
            lemma_offset_step(s@, k as int);
        }
        if is_space_char(c) {
            last_space = idx;
        }
        if idx - line_start >= line_length {
            let end = if last_space == line_start {
                idx
            } else {
                last_space
            };
            match byte_slice(s, line_start, end) {
                Some(line) => {
                    lines.push(line);
                },
                None => {
                    proof {
                        let cut = split_walk(s@, ll, k + 1).lines;
                        assert(cut.last() == (line_start as int, end as int));
                        lemma_split_walk_grows(s@, ll, k + 1, n as int);
                        let all = split_ranges(s@, ll);
                        assert(all[cut.len() - 1] == cut[cut.len() - 1]);
                    }
                    return None;
                },
            }
            line_start = end + 1;
            last_space = line_start;
        }
        idx += char_len(c);
        k += 1;
    }
    proof {
        assert(s@.subrange(0, s@.len() as int) =~= s@);
    }
    if line_start < total {
        match byte_slice(s, line_start, total) {
            Some(line) => {
                lines.push(line);
            },
            None => {
                proof {
                    let all = split_ranges(s@, ll);
                    assert(all.last() == (line_start as int, total as int));
                    assert(all[all.len() - 1] == all.last());
                }
                return None;
            },
        }
    }
    Some(lines)
}

/// Cuts a text into lines of `line_length` bytes, at white space where it
/// can. The white space at which a line is cut is left out; a line that
/// has none is cut where it stands, and the next one starts a byte later.
pub fn split_string_on_spaces(s: &str, line_length: usize) -> (r: Vec<&str>)
    requires
        splits_cleanly(s@, line_length as int),
    ensures
        r@.len() == split_lines(s@, line_length as int).len(),
        forall|i: int|
            0 <= i < r@.len() ==> (#[trigger] r@[i])@ == split_lines(s@, line_length as int)[i],
{
    match checked_split_on_spaces(s, line_length) {
        Some(lines) => lines,
        None => Vec::new(),
    }
}

/// How a file came out.
#[derive(Clone, Copy, Debug, PartialEq, Eq, Structural)]
pub enum Status {
    Pass,
    Fixed,
    Fail,
    Error,
}

impl Status {
    pub fn as_str(self) -> (r: &'static str)
        ensures
            r@ == (match self {
                Status::Pass => "PASS"@,
                Status::Fixed => "FIXED"@,
                Status::Fail => "FAIL"@,
                Status::Error => "ERROR"@,
            }),
    {
        match self {
            Status::Pass => "PASS",
            Status::Fixed => "FIXED",
            Status::Fail => "FAIL",
            Status::Error => "ERROR",
        }
    }
}

/// What can be read as the status of a file.
pub trait IntoStatus {
    spec fn spec_into_status(self) -> Status;

    fn into_status(self) -> (r: Status)
        ensures
            r == self.spec_into_status(),
    ;
}

impl IntoStatus for bool {
    /// Success is a pass, anything else a failure.
    open spec fn spec_into_status(self) -> Status {
        if self {
            Status::Pass
        } else {
            Status::Fail
        }
    }

    fn into_status(self) -> (r: Status) {
        if self {
            Status::Pass
        } else {
            Status::Fail
        }
    }
}

impl IntoStatus for (Status, bool) {
    /// The status given if all is well, else a failure.
    open spec fn spec_into_status(self) -> Status {
        if self.1 {
            self.0
        } else {
            Status::Fail
        }
    }

    fn into_status(self) -> (r: Status) {
        let (if_ok, is_ok) = self;
        if is_ok {
            if_ok
        } else {
            Status::Fail
        }
    }
}


/// The colours that the output is painted in.
#[derive(Clone, Copy, Debug, PartialEq, Eq, Structural)]
pub enum Paint {
    /// Bold black, which shows as a light grey.
    LightGrey,
    Green,
    Red,
    Blue,
}

/// The colours of the terminal that the output uses.
#[derive(Clone, Copy, Debug, PartialEq, Eq, Structural)]
pub enum Ink {
    Black,
    Red,
    Green,
    Blue,
}

/// The colour of the terminal that a colour of the output is painted in.
pub open spec fn ink_of(color: Paint) -> Ink {
    match color {
        Paint::LightGrey => Ink::Black,
        Paint::Green => Ink::Green,
        Paint::Red => Ink::Red,
        Paint::Blue => Ink::Blue,
    }
}

/// Whether a colour of the output is painted in bold: the light grey is,
/// which is a bold black.
pub open spec fn is_bold(color: Paint) -> bool {
    color == Paint::LightGrey
}

/// The code that switches a colour of the terminal on.
pub open spec fn ink_code(ink: Ink) -> Seq<char> {
    match ink {
        Ink::Black => "\u{1b}[30m"@,
        Ink::Red => "\u{1b}[31m"@,
        Ink::Green => "\u{1b}[32m"@,
        Ink::Blue => "\u{1b}[34m"@,
    }
}

/// The text in a colour of the terminal: the code for bold, where bold is
/// asked for, the code of the colour, the text, and the code that resets
/// both.
pub open spec fn rendered(bold: bool, ink: Ink, s: Seq<char>) -> Seq<char> {
    (if bold {
        "\u{1b}[1m"@
    } else {
        Seq::<char>::empty()
    }) + ink_code(ink) + s + "\u{1b}[0m"@
}

/// The text between the codes that switch the colour on and off again.
pub open spec fn painted(color: Paint, s: Seq<char>) -> Seq<char> {
    rendered(is_bold(color), ink_of(color), s)
}

/// The `Display` of `anstyle::Style`: the text after the codes that the
/// style renders to and before the code that resets it. The style is
/// `AnsiColor::on_default` of the colour, with the effect `BOLD` set as
/// asked. The effects are rendered first, as `ESC [ 1 m` for bold, then the
/// colour as `ESC [ 3 n m`; the reset is `ESC [ 0 m`.
#[verifier::external_body]
pub(crate) fn render(bold: bool, ink: Ink, s: &str) -> (r: String)
    ensures
        r@ == rendered(bold, ink, s@),
{
    let color = match ink {
        Ink::Black => anstyle::AnsiColor::Black,
        Ink::Red => anstyle::AnsiColor::Red,
        Ink::Green => anstyle::AnsiColor::Green,
        Ink::Blue => anstyle::AnsiColor::Blue,
    };
    let effects = anstyle::Effects::new().set(anstyle::Effects::BOLD, bold);
    let style = color.on_default().effects(effects);
    format!("{style}{s}{style:#}")
}

/// The text in the colour.
pub fn paint(color: Paint, s: &str) -> (r: String)
    ensures
        r@ == painted(color, s@),
{
    match color {
        Paint::LightGrey => render(true, Ink::Black, s),
        Paint::Green => render(false, Ink::Green, s),
        Paint::Red => render(false, Ink::Red, s),
        Paint::Blue => render(false, Ink::Blue, s),
    }
}

/// What lays out the results of a run for a stream. It writes nothing
/// itself: it says what is to be written.
#[derive(Debug)]
pub struct OutputStreamFormatter {
    pub plain_output: bool,
    pub filter_empty: bool,
    pub verbosity: i32,
    pub output_line_length: usize,
    pub has_fail: bool,
}

/// What every formatter is told of.
pub trait Formatter {
    fn dispatch_template_header(&self, f_name: String);

    fn dispatch_parse_header(&self, f_name: String);
}

impl Formatter for OutputStreamFormatter {
    fn dispatch_template_header(&self, f_name: String) {
    }

    fn dispatch_parse_header(&self, f_name: String) {
    }
}

impl OutputStreamFormatter {
    /// A formatter for a stream: without colours if none are wanted, or if
    /// the stream is no terminal.
    pub fn new(nocolor: bool, is_terminal: bool) -> (r: OutputStreamFormatter)
        ensures
            r.plain_output == (nocolor || !is_terminal),
            r.filter_empty,
            r.verbosity == 0,
            r.output_line_length == 80,
            !r.has_fail,
    {
        OutputStreamFormatter {
            plain_output: OutputStreamFormatter::should_produce_plain_output(nocolor, is_terminal),
            filter_empty: true,
            verbosity: 0,
            output_line_length: 80,
            has_fail: false,
        }
    }

    pub fn should_produce_plain_output(nocolor: bool, is_terminal: bool) -> (r: bool)
        ensures
            r == (nocolor || !is_terminal),
    {
        nocolor || !is_terminal
    }

    /// Whether the text goes to the stream: a text of nothing but white
    /// space is kept back, unless such texts are let through.
    pub open spec fn lets_through(&self, s: Seq<char>) -> bool {
        !self.filter_empty || trimmed(s).len() > 0
    }

    /// What of the text goes to the stream: all of it, or nothing. A text
    /// that holds a character printed in ink always goes.
    pub fn dispatch(&self, s: &str) -> (r: Option<String>)
        ensures
            r is Some <==> self.lets_through(s@),
            r matches Some(t) ==> t@ == s@,
            crate::dialect::has_ink(s@) ==> r is Some,
    {
        if !self.filter_empty || str_trim(s).as_str().unicode_len() > 0 {
            Some(copy_str(s))
        } else {
            None
        }
    }

    pub fn dispatch_persist_filename(&self) {
    }

    pub fn format_path(&self) {
    }

    pub fn dispatch_path(&self) {
    }

    pub fn dispatch_template_header(&self) {
    }

    pub fn dispatch_parse_header(&self) {
    }

    pub fn dispatch_lint_header(&self) {
    }

    pub fn dispatch_compilation_header(&self) {
    }

    pub fn dispatch_processing_header(&self) {
    }

    pub fn dispatch_dialect_warning(&self) {
    }

    pub fn cli_table_row(&self) {
    }

    pub fn cli_table(&self) {
    }

    /// The text in the colour, or as it is where no colours are used.
    pub open spec fn spec_colorize(&self, s: Seq<char>, color: Paint) -> Seq<char> {
        if self.plain_output {
            s
        } else {
            painted(color, s)
        }
    }

    pub fn colorize(&self, s: &str, color: Paint) -> (r: String)
        ensures
            r@ == self.spec_colorize(s@, color),
    {
        if self.plain_output {
            copy_str(s)
        } else {
            paint(color, s)
        }
    }

    /// The line that says how a file came out: the name of the file in
    /// light grey and the outcome in green or, for a failure, in red. A
    /// failure is remembered.
    pub fn format_filename<S: IntoStatus>(&mut self, filename: &str, success: S) -> (r: String)
        ensures
            r@ == "== ["@ + old(self).spec_colorize(filename@, Paint::LightGrey) + "] "@
                + old(self).spec_colorize(
                match success.spec_into_status() {
                    Status::Pass => "PASS"@,
                    Status::Fixed => "FIXED"@,
                    Status::Fail => "FAIL"@,
                    Status::Error => "ERROR"@,
                },
                match success.spec_into_status() {
                    Status::Pass | Status::Fixed => Paint::Green,
                    Status::Fail | Status::Error => Paint::Red,
                },
            ),
            final(self).has_fail == (old(self).has_fail || success.spec_into_status()
                == Status::Fail || success.spec_into_status() == Status::Error),
            final(self).plain_output == old(self).plain_output,
            final(self).filter_empty == old(self).filter_empty,
            final(self).verbosity == old(self).verbosity,
            final(self).output_line_length == old(self).output_line_length,
    {
        let status = success.into_status();
        let color = match status {
            Status::Pass | Status::Fixed => Paint::Green,
            Status::Fail | Status::Error => {
                self.has_fail = true;
                Paint::Red
            },
        };
        let filename = self.colorize(filename, Paint::LightGrey);
        let status = self.colorize(status.as_str(), color);
        let mut out = copy_str("== [");
        out.append(filename.as_str());
        out.append("] ");
        out.append(status.as_str());
        out
    }

    /// What is said when all is done. It always goes to the stream: it holds
    /// characters printed in ink.
    pub fn completion_message(&mut self) -> (r: Option<String>)
        ensures
            *final(self) == *old(self),
            r is Some,
            r is Some <==> old(self).lets_through(
                if old(self).plain_output {
                    "All Finished"@
                } else {
                    "All Finished \u{1F4DC} \u{1F389}"@
                },
            ),
            r matches Some(t) ==> t@ == (if old(self).plain_output {
                "All Finished"@
            } else {
                "All Finished \u{1F4DC} \u{1F389}"@
            }),
    {
        let message = if self.plain_output {
            "All Finished"
        } else {
            "All Finished \u{1F4DC} \u{1F389}"
        };
        proof {
            reveal_strlit("All Finished");
            reveal_strlit("All Finished \u{1F4DC} \u{1F389}");
            assert(crate::dialect::is_inked(message@[0]));
            assert(crate::dialect::has_ink(message@));
        }
        self.dispatch(message)
    }
}


/// The digit for a number below ten.
pub open spec fn digit(d: nat) -> char {
    if d == 0 {
        '0'
    } else if d == 1 {
        '1'
    } else if d == 2 {
        '2'
    } else if d == 3 {
        '3'
    } else if d == 4 {
        '4'
    } else if d == 5 {
        '5'
    } else if d == 6 {
        '6'
    } else if d == 7 {
        '7'
    } else if d == 8 {
        '8'
    } else {
        '9'
    }
}

/// The number in decimal digits.
pub open spec fn decimal_of(n: nat) -> Seq<char>
    decreases n,
{
    if n < 10 {
        seq![digit(n)]
    } else {
        decimal_of(n / 10).push(digit(n % 10))
    }
}

/// The text with blanks before it, so that it has `width` characters at
/// least.
pub open spec fn padded(s: Seq<char>, width: int) -> Seq<char> {
    if s.len() >= width {
        s
    } else {
        Seq::new((width - s.len()) as nat, |i: int| ' ') + s
    }
}

/// The number in decimal digits.
pub fn decimal(n: usize) -> (r: String)
    ensures
        r@ == decimal_of(n as nat),
    decreases n,
{
    let d = if n < 10 {
        n
    } else {
        n % 10
    };
    let one = if d == 0 {
        "0"
    } else if d == 1 {
        "1"
    } else if d == 2 {
        "2"
    } else if d == 3 {
        "3"
    } else if d == 4 {
        "4"
    } else if d == 5 {
        "5"
    } else if d == 6 {
        "6"
    } else if d == 7 {
        "7"
    } else if d == 8 {
        "8"
    } else {
        "9"
    };
    proof {
        reveal_strlit("0");
        reveal_strlit("1");
        reveal_strlit("2");
        reveal_strlit("3");
        reveal_strlit("4");
        reveal_strlit("5");
        reveal_strlit("6");
        reveal_strlit("7");
        reveal_strlit("8");
        reveal_strlit("9");
        assert(one@ =~= seq![digit(d as nat)]);
    }
    if n < 10 {
        copy_str(one)
    } else {
        let mut s = decimal(n / 10);
        s.append(one);
        assert(s@ =~= decimal_of((n / 10) as nat).push(digit((n % 10) as nat)));
        s
    }
}

/// The text with blanks before it, so that it has `width` characters at
/// least.
pub fn pad_left(s: &str, width: usize) -> (r: String)
    ensures
        r@ == padded(s@, width as int),
{
    let n = s.unicode_len();
    let mut out = String::new();
    if n < width {
        let mut i: usize = 0;
        assert(out@ =~= Seq::new(0nat, |k: int| ' '));
        while i < width - n
            invariant
                n < width,
                i <= width - n,
                out@ == Seq::new(i as nat, |k: int| ' '),
            decreases width - n - i,
        {
            out.append(" ");
            i += 1;
            proof {
                reveal_strlit(" ");
                assert(" "@ =~= seq![' ']);
                assert(out@ =~= Seq::new(i as nat, |k: int| ' '));
            }
        }
        assert(out@ =~= Seq::new((width - n) as nat, |i: int| ' '));
    }
    out.append(s);
    proof {
        if n >= width {
            assert(out@ =~= s@);
        }
    }
    out
}

/// The lines into which the description of a violation is cut: those of
/// `split_string_on_spaces`.
pub open spec fn desc_lines(desc: Seq<char>, width: int) -> Seq<Seq<char>> {
    split_lines(desc, width)
}

/// What is said of how grave a violation is.
pub open spec fn severity_of(v: SQLBaseError) -> Seq<char> {
    if v.ignore {
        "IGNORE: "@
    } else if v.warning {
        "WARNING: "@
    } else {
        ""@
    }
}

/// The code of the rule of a violation, in four characters at least.
pub open spec fn code_of(v: SQLBaseError) -> Seq<char> {
    padded(
        match v.rule {
            Some(rule) => rule.code@,
            None => "????"@,
        },
        4,
    )
}

/// The colour of the margin of a violation: red for one of the parser,
/// light grey for one that is ignored or a warning, blue for any other.
pub open spec fn margin_paint(v: SQLBaseError) -> Paint {
    if occurrences(bytes_of("PRS"@), bytes_of(code_of(v)), 0).len() > 0 {
        Paint::Red
    } else if v.ignore || v.warning {
        Paint::LightGrey
    } else {
        Paint::Blue
    }
}

impl OutputStreamFormatter {
    /// The description of a violation, with how grave it is before it and
    /// the name of the rule after it.
    pub open spec fn spec_description(&self, v: SQLBaseError) -> Seq<char> {
        severity_of(v) + v.description@ + (match v.rule {
            Some(rule) => " ["@ + self.spec_colorize(rule.name@, Paint::LightGrey) + "]"@,
            None => Seq::<char>::empty(),
        })
    }

    /// Whether the description of the violation can be cut into lines for
    /// a layout of `max_line_length`: no line starts inside a character.
    pub open spec fn spec_can_format(&self, v: SQLBaseError, max_line_length: int) -> bool {
        splits_cleanly(self.spec_description(v), max_line_length - 25)
    }

    /// Whether that holds of each of the violations, for the line length
    /// of the formatter.
    pub open spec fn spec_can_format_all(&self, violations: Seq<SQLBaseError>) -> bool {
        forall|i: int|
            0 <= i < violations.len() ==> self.spec_can_format(
                #[trigger] violations[i],
                self.output_line_length as int,
            )
    }

    /// The first `n` lines of a violation, laid out: the first after a
    /// margin with the line, the column and the code of the rule, the others
    /// under it, after a margin of blanks.
    pub open spec fn spec_laid_out(&self, v: SQLBaseError, lines: Seq<Seq<char>>, n: int) -> Seq<
        char,
    >
        decreases n,
    {
        if n <= 0 || n > lines.len() {
            Seq::empty()
        } else if n == 1 {
            self.spec_colorize(
                "L:"@ + padded(decimal_of(v.line_no as nat), 4) + " | P:"@ + padded(
                    decimal_of(v.line_pos as nat),
                    4,
                ) + " | "@ + code_of(v) + " | "@,
                margin_paint(v),
            ) + lines[0]
        } else {
            self.spec_laid_out(v, lines, n - 1) + "\n"@ + Seq::new(23, |i: int| ' ')
                + self.spec_colorize("| "@, margin_paint(v)) + lines[n - 1]
        }
    }

    /// A violation, laid out in lines of `max_line_length` bytes.
    pub open spec fn spec_format_violation(&self, v: SQLBaseError, max_line_length: int) -> Seq<
        char,
    > {
        let lines = desc_lines(self.spec_description(v), max_line_length - 25);
        self.spec_laid_out(v, lines, lines.len() as int)
    }

    /// The description of a violation, with how grave it is before it and
    /// the name of the rule after it.
    pub fn description(&self, violation: &SQLBaseError) -> (r: String)
        ensures
            r@ == self.spec_description(*violation),
    {
        let severity = if violation.ignore {
            "IGNORE: "
        } else if violation.warning {
            "WARNING: "
        } else {
            ""
        };
        let mut desc = copy_str(severity);
        desc.append(violation.desc());
        match &violation.rule {
            Some(rule) => {
                let text = self.colorize(rule.name.as_str(), Paint::LightGrey);
                desc.append(" [");
                desc.append(text.as_str());
                desc.append("]");
            },
            None => {
                assert(desc@ + Seq::<char>::empty() =~= desc@);
            },
        }
        desc
    }

    /// Whether the violation can be laid out in lines of `max_line_length`
    /// bytes: whether no line of its description would start inside a
    /// character.
    pub fn can_format(&self, violation: &SQLBaseError, max_line_length: usize) -> (r: bool)
        requires
            max_line_length >= 25,
        ensures
            r == self.spec_can_format(*violation, max_line_length as int),
    {
        let desc = self.description(violation);
        checked_split_on_spaces(desc.as_str(), max_line_length - 25).is_some()
    }

    /// Whether each of the violations can be laid out in lines of the
    /// length of the formatter.
    pub fn can_format_all(&self, violations: &Vec<SQLBaseError>) -> (r: bool)
        requires
            self.output_line_length >= 25,
        ensures
            r == self.spec_can_format_all(violations@),
    {
        let mut i: usize = 0;
        while i < violations.len()
            invariant
                i <= violations@.len(),
                self.output_line_length >= 25,
                forall|j: int|
                    0 <= j < i ==> self.spec_can_format(
                        #[trigger] violations@[j],
                        self.output_line_length as int,
                    ),
            decreases violations.len() - i,
        {
            if !self.can_format(&violations[i], self.output_line_length) {
                return false;
            }
            i += 1;
        }
        true
    }

    /// The violation, laid out in lines of `max_line_length` bytes. It
    /// is asked that its description can be cut into such lines.
    pub fn format_violation(&self, violation: &SQLBaseError, max_line_length: usize) -> (r: String)
        requires
            max_line_length >= 25,
            self.spec_can_format(*violation, max_line_length as int),
        ensures
            r@ == self.spec_format_violation(*violation, max_line_length as int),
    {
        let line_elem = pad_left(decimal(violation.line_no).as_str(), 4);
        let pos_elem = pad_left(decimal(violation.line_pos).as_str(), 4);
        let desc = self.description(violation);
        let rule_code = pad_left(violation.rule_code().as_str(), 4);
        let prs = find_all("PRS", rule_code.as_str());
        let section_color = if prs.len() > 0 {
            Paint::Red
        } else if violation.ignore || violation.warning {
            Paint::LightGrey
        } else {
            Paint::Blue
        };
        proof {
            assert(prs@.map_values(|x: usize| x as int).len() == prs@.len());
        }
        let width = max_line_length - 25;
        let split_desc: Vec<&str> = split_string_on_spaces(desc.as_str(), width);
        let ghost lines = desc_lines(desc@, width as int);
        proof {
            assert(split_desc@.len() == lines.len());
            assert forall|i: int| 0 <= i < lines.len() implies (#[trigger] split_desc@[i])@
                == lines[i] by {}
        }
        let mut out_buff = String::new();
        let mut idx: usize = 0;
        while idx < split_desc.len()
            invariant
                idx <= split_desc@.len(),
                split_desc@.len() == lines.len(),
                forall|i: int| 0 <= i < lines.len() ==> (#[trigger] split_desc@[i])@ == lines[i],
                section_color == margin_paint(*violation),
                line_elem@ == padded(decimal_of(violation.line_no as nat), 4),
                pos_elem@ == padded(decimal_of(violation.line_pos as nat), 4),
                rule_code@ == code_of(*violation),
                out_buff@ == self.spec_laid_out(*violation, lines, idx as int),
            decreases split_desc.len() - idx,
        {
            if idx == 0 {
                let mut section = copy_str("L:");
                section.append(line_elem.as_str());
                section.append(" | P:");
                section.append(pos_elem.as_str());
                section.append(" | ");
                section.append(rule_code.as_str());
                section.append(" | ");
                let section = self.colorize(section.as_str(), section_color);
                out_buff.append(section.as_str());
                assert(out_buff@ =~= self.spec_colorize(
                    "L:"@ + padded(decimal_of(violation.line_no as nat), 4) + " | P:"@ + padded(
                        decimal_of(violation.line_pos as nat),
                        4,
                    ) + " | "@ + code_of(*violation) + " | "@,
                    margin_paint(*violation),
                ));
            } else {
                out_buff.append("\n");
                let blanks = pad_left("", 23);
                proof {
                    reveal_strlit("");
                    assert(blanks@ =~= Seq::new(23, |i: int| ' '));
                }
                out_buff.append(blanks.as_str());
                let bar = self.colorize("| ", section_color);
                out_buff.append(bar.as_str());
            }
            out_buff.append(split_desc[idx]);
            idx += 1;
        }
        out_buff
    }
}

/// Whether the one violation comes before the other in a file: on an
/// earlier line, or earlier on the same line.
pub open spec fn comes_before(a: SQLBaseError, b: SQLBaseError) -> bool {
    a.line_no < b.line_no || (a.line_no == b.line_no && a.line_pos < b.line_pos)
}

/// The first index from `from` on at which `s` holds a violation that `v`
/// comes before, or the length of `s`.
pub open spec fn later_violation(s: Seq<SQLBaseError>, v: SQLBaseError, from: int) -> int
    decreases s.len() - from,
{
    if from < 0 || from >= s.len() {
        s.len() as int
    } else if comes_before(v, s[from]) {
        from
    } else {
        later_violation(s, v, from + 1)
    }
}

/// The first `n` violations in the order of the file, those at the same
/// place in the order in which they stand.
pub open spec fn in_file_order(v: Seq<SQLBaseError>, n: int) -> Seq<SQLBaseError>
    decreases n,
{
    if n <= 0 || n > v.len() {
        Seq::empty()
    } else {
        let s = in_file_order(v, n - 1);
        s.insert(later_violation(s, v[n - 1], 0), v[n - 1])
    }
}

/// How many of the first `n` violations are failures (`warnings` false) or
/// warnings (`warnings` true).
pub open spec fn count_of(v: Seq<SQLBaseError>, warnings: bool, n: int) -> int
    decreases n,
{
    if n <= 0 || n > v.len() {
        0
    } else {
        count_of(v, warnings, n - 1) + if (warnings && v[n - 1].warning) || (!warnings
            && !v[n - 1].ignore && !v[n - 1].warning) {
            1int
        } else {
            0int
        }
    }
}

impl OutputStreamFormatter {
    /// The violations, each laid out on lines of its own.
    pub open spec fn spec_violations_text(&self, v: Seq<SQLBaseError>, n: int) -> Seq<char>
        decreases n,
    {
        if n <= 0 || n > v.len() {
            Seq::empty()
        } else {
            self.spec_violations_text(v, n - 1) + self.spec_format_violation(
                v[n - 1],
                self.output_line_length as int,
            ) + "\n"@
        }
    }

    /// The violations of a file in the order of the file.
    pub fn sort_violations(violations: Vec<SQLBaseError>) -> (r: Vec<SQLBaseError>)
        ensures
            r@ == in_file_order(violations@, violations@.len() as int),
    {
        let mut violations = violations;
        let ghost all = violations@;
        let total = violations.len();
        let mut sorted: Vec<SQLBaseError> = Vec::new();
        let mut taken: Vec<SQLBaseError> = Vec::new();
        // The violations are taken from the end; `taken` holds them in
        // reverse, so that they are put in from the first on.
        while violations.len() > 0
            invariant
                violations@.len() + taken@.len() == all.len(),
                violations@ == all.subrange(0, violations@.len() as int),
                forall|k: int| 0 <= k < taken@.len() ==> taken@[k] == all[all.len() - 1 - k],
            decreases violations.len(),
        {
            let ghost before = violations@;
            match violations.pop() {
                Some(v) => {
                    assert(violations@ =~= all.subrange(0, violations@.len() as int));
                    taken.push(v);
                },
                None => {},
            }
        }
        let mut n: usize = 0;
        while taken.len() > 0
            invariant
                n + taken@.len() == all.len(),
                all.len() == total,
                forall|k: int| 0 <= k < taken@.len() ==> taken@[k] == all[all.len() - 1 - k],
                sorted@ == in_file_order(all, n as int),
            decreases taken.len(),
        {
            match taken.pop() {
                Some(v) => {
                    assert(v == all[n as int]);
                    let mut k: usize = 0;
                    while k < sorted.len() && !(v.line_no < sorted[k].line_no || (v.line_no
                        == sorted[k].line_no && v.line_pos < sorted[k].line_pos))
                        invariant
                            k <= sorted@.len(),
                            later_violation(sorted@, v, 0) == later_violation(sorted@, v, k as int),
                        decreases sorted.len() - k,
                    {
                        k += 1;
                    }
                    sorted.insert(k, v);
                    n += 1;
                },
                None => {},
            }
        }
        sorted
    }

    /// The violations of a file, laid out: the line that says how the file
    /// came out, if the file has failures or warnings or the formatter is
    /// verbose, and then, if it has any, its violations in the order of the
    /// file.
    pub open spec fn spec_file_text(&self, fname: Seq<char>, violations: Seq<SQLBaseError>) -> Seq<
        char,
    > {
        let fails = count_of(violations, false, violations.len() as int);
        let warns = count_of(violations, true, violations.len() as int);
        let show = fails + warns > 0;
        let head = if self.verbosity > 0 || show {
            "== ["@ + self.spec_colorize(fname, Paint::LightGrey) + "] "@ + self.spec_colorize(
                if fails == 0 {
                    "PASS"@
                } else {
                    "FAIL"@
                },
                if fails == 0 {
                    Paint::Green
                } else {
                    Paint::Red
                },
            ) + "\n"@
        } else {
            Seq::<char>::empty()
        };
        let body = if show {
            self.spec_violations_text(
                in_file_order(violations, violations.len() as int),
                violations.len() as int,
            )
        } else {
            Seq::<char>::empty()
        };
        head + body
    }

    /// Whether a failure has been seen once the violations of a file are
    /// laid out: one had been seen before, or the file is shown and has one.
    pub open spec fn spec_fail_seen(&self, violations: Seq<SQLBaseError>) -> bool {
        let fails = count_of(violations, false, violations.len() as int);
        let warns = count_of(violations, true, violations.len() as int);
        self.has_fail || ((self.verbosity > 0 || fails + warns > 0) && fails > 0)
    }

    /// The violations of a file, laid out: the line that says how the file
    /// came out, if the file has failures or warnings or the formatter is
    /// verbose, and then, if it has any, its violations in the order of the
    /// file.
    pub fn format_file_violations(&mut self, fname: &str, violations: Vec<SQLBaseError>) -> (r:
        String)
        requires
            old(self).output_line_length >= 25,
            old(self).spec_can_format_all(violations@),
        ensures
            ({
                let fails = count_of(violations@, false, violations@.len() as int);
                let warns = count_of(violations@, true, violations@.len() as int);
                let show = fails + warns > 0;
                let head = if old(self).verbosity > 0 || show {
                    "== ["@ + old(self).spec_colorize(fname@, Paint::LightGrey) + "] "@
                        + old(self).spec_colorize(
                        if fails == 0 {
                            "PASS"@
                        } else {
                            "FAIL"@
                        },
                        if fails == 0 {
                            Paint::Green
                        } else {
                            Paint::Red
                        },
                    ) + "\n"@
                } else {
                    Seq::<char>::empty()
                };
                let body = if show {
                    old(self).spec_violations_text(
                        in_file_order(violations@, violations@.len() as int),
                        violations@.len() as int,
                    )
                } else {
                    Seq::<char>::empty()
                };
                &&& r@ == head + body
                &&& final(self).has_fail == (old(self).has_fail || ((old(self).verbosity > 0
                    || show) && fails > 0))
            }),
            r@ == old(self).spec_file_text(fname@, violations@),
            final(self).has_fail == old(self).spec_fail_seen(violations@),
            final(self).plain_output == old(self).plain_output,
            final(self).verbosity == old(self).verbosity,
            final(self).output_line_length == old(self).output_line_length,
            final(self).filter_empty == old(self).filter_empty,
    {
        let mut text_buffer = String::new();
        let mut fails: usize = 0;
        let mut warns: usize = 0;
        let mut i: usize = 0;
        while i < violations.len()
            invariant
                i <= violations@.len(),
                fails <= i,
                warns <= i,
                fails == count_of(violations@, false, i as int),
                warns == count_of(violations@, true, i as int),
            decreases violations.len() - i,
        {
            if !violations[i].ignore && !violations[i].warning {
                fails += 1;
            }
            if violations[i].warning {
                warns += 1;
            }
            i += 1;
        }
        let show = fails > 0 || warns > 0;
        let ghost start = *self;
        if self.verbosity > 0 || show {
            let text = self.format_filename(fname, fails == 0);
            text_buffer.append(text.as_str());
            text_buffer.append("\n");
        }
        let ghost head = text_buffer@;
        if show {
            let n = violations.len();
            let sorted = OutputStreamFormatter::sort_violations(violations);
            let ghost order = sorted@;
            proof {
                lemma_order_len(violations@, n as int);
                lemma_order_fits(start, violations@, n as int);
            }
            let mut k: usize = 0;
            assert(head + Seq::<char>::empty() =~= head);
            while k < sorted.len()
                invariant
                    k <= sorted@.len(),
                    self.output_line_length >= 25,
                    self.plain_output == start.plain_output,
                    self.output_line_length == start.output_line_length,
                    start.spec_can_format_all(sorted@),
                    text_buffer@ == head + start.spec_violations_text(sorted@, k as int),
                decreases sorted.len() - k,
            {
                proof {
                    assert(start.spec_can_format(
                        sorted@[k as int],
                        start.output_line_length as int,
                    ));
                    assert(self.spec_description(sorted@[k as int]) == start.spec_description(
                        sorted@[k as int],
                    ));
                }
                let text = self.format_violation(&sorted[k], self.output_line_length);
                proof {
                    lemma_same_layout(*self, start, sorted@[k as int]);
                }
                let ghost before = text_buffer@;
                text_buffer.append(text.as_str());
                text_buffer.append("\n");
                assert(text_buffer@ =~= head + start.spec_violations_text(sorted@, k + 1));
                k += 1;
            }
        } else {
            assert(head + Seq::<char>::empty() =~= head);
        }
        text_buffer
    }

    /// What is written of a linted file, if anything: its violations, laid
    /// out, unless the formatter is silent.
    pub fn dispatch_file_violations(
        &mut self,
        path: &str,
        violations: Vec<SQLBaseError>,
        only_fixable: bool,
        warn_unused_ignores: bool,
    ) -> (r: Option<String>)
        requires
            old(self).output_line_length >= 25,
            old(self).spec_can_format_all(violations@),
        ensures
            old(self).verbosity < 0 ==> r is None && *final(self) == *old(self),
            old(self).verbosity >= 0 ==> (r is Some <==> old(self).lets_through(
                old(self).spec_file_text(path@, violations@),
            )) && final(self).has_fail == old(self).spec_fail_seen(violations@),
            r matches Some(t) ==> t@ == old(self).spec_file_text(path@, violations@),
            final(self).plain_output == old(self).plain_output,
            final(self).verbosity == old(self).verbosity,
            final(self).output_line_length == old(self).output_line_length,
            final(self).filter_empty == old(self).filter_empty,
            r matches Some(t) ==> final(self).lets_through(t@),
    {
        if self.verbosity < 0 {
            return None;
        }
        let s = self.format_file_violations(path, violations);
        self.dispatch(s.as_str())
    }
}

/// Two formatters with the same settings lay a violation out alike.
pub proof fn lemma_same_layout(a: OutputStreamFormatter, b: OutputStreamFormatter, v: SQLBaseError)
    requires
        a.plain_output == b.plain_output,
        a.output_line_length == b.output_line_length,
    ensures
        a.spec_format_violation(v, a.output_line_length as int) == b.spec_format_violation(
            v,
            b.output_line_length as int,
        ),
{
    let lines = desc_lines(a.spec_description(v), a.output_line_length - 25);
    assert(a.spec_description(v) == b.spec_description(v));
    lemma_same_laid_out(a, b, v, lines, lines.len() as int);
}

pub proof fn lemma_same_laid_out(
    a: OutputStreamFormatter,
    b: OutputStreamFormatter,
    v: SQLBaseError,
    lines: Seq<Seq<char>>,
    n: int,
)
    requires
        a.plain_output == b.plain_output,
    ensures
        a.spec_laid_out(v, lines, n) == b.spec_laid_out(v, lines, n),
    decreases n,
{
    if n > 1 && n <= lines.len() {
        lemma_same_laid_out(a, b, v, lines, n - 1);
    }
}

/// Putting violations in order neither loses nor adds any.
/// Violations that can be laid out can still be laid out when they are
/// put in the order of the file.
pub proof fn lemma_order_fits(f: OutputStreamFormatter, v: Seq<SQLBaseError>, n: int)
    requires
        0 <= n <= v.len(),
        f.spec_can_format_all(v),
    ensures
        f.spec_can_format_all(in_file_order(v, n)),
    decreases n,
{
    if n > 0 {
        lemma_order_fits(f, v, n - 1);
        lemma_order_len(v, n - 1);
        let s = in_file_order(v, n - 1);
        lemma_later_bounds(s, v[n - 1], 0);
        let at = later_violation(s, v[n - 1], 0);
        let t = s.insert(at, v[n - 1]);
        assert forall|i: int| 0 <= i < t.len() implies f.spec_can_format(
            #[trigger] t[i],
            f.output_line_length as int,
        ) by {
            if i < at {
                assert(t[i] == s[i]);
            } else if i == at {
                assert(t[i] == v[n - 1]);
            } else {
                assert(t[i] == s[i - 1]);
            }
        }
    }
}

pub proof fn lemma_order_len(v: Seq<SQLBaseError>, n: int)
    requires
        0 <= n <= v.len(),
    ensures
        in_file_order(v, n).len() == n,
    decreases n,
{
    if n > 0 {
        lemma_order_len(v, n - 1);
        lemma_later_bounds(in_file_order(v, n - 1), v[n - 1], 0);
    }
}

pub proof fn lemma_later_bounds(s: Seq<SQLBaseError>, v: SQLBaseError, from: int)
    requires
        0 <= from <= s.len(),
    ensures
        from <= later_violation(s, v, from) <= s.len(),
    decreases s.len() - from,
{
    if from < s.len() && !comes_before(v, s[from]) {
        lemma_later_bounds(s, v, from + 1);
    }
}

} // verus!
