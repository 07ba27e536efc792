//! Greedy, column-limited soft line wrapping over an append-only buffer of
//! atomic segments.
use crate::text::{chars_of, push_char, push_repeated, repeated, texts};
use vstd::prelude::*;
use vstd::string::StrSliceExecFns;
use vstd::string::StringExecFns;

verus! {

/// A space ends the current segment and opens a wrap opportunity.
pub const WRAPPING_SPACE: char = ' ';

/// A newline flushes the current logical line.
pub const HARD_NEWLINE: char = '\n';

/// Stands for a space that never opens a wrap opportunity.
pub const NON_BREAKING_SPACE: char = '·';

/// The characters that `append` treats specially.
pub const SPECIAL_CHARACTERS: [char; 3] = [' ', '\n', '·'];

/// A misuse of a wrapper or of a writer that drives one. A fault is the
/// caller's error and ends the work on the output.
#[derive(Clone, Copy, Debug, PartialEq, Eq, Structural)]
pub enum LayoutFault {
    /// The indent level was lowered below zero.
    IndentUnderflow,
    /// Text was sent to a wrapper that is closed.
    AppendAfterClose,
    /// The indent level or the line count of a statement left the range
    /// of its counter.
    CounterOverflow,
}

/// The mathematical state of a line wrapper.
pub struct Layout {
    /// Everything written to the output so far.
    pub out: Seq<char>,
    /// The indent unit.
    pub indent: Seq<char>,
    /// The column after which a line is wrapped.
    pub column_limit: int,
    /// The pending segments of the current logical line.
    pub segments: Seq<Seq<char>>,
    /// Indent level of a continuation line; negative means none.
    pub indent_level: int,
    /// Text that follows the indentation of a continuation line.
    pub line_prefix: Seq<char>,
    /// Whether the wrapper was closed.
    pub closed: bool,
}

/// The indent level that `append` takes for an optional one: none is -1.
pub open spec fn level_or_none(indent_level: Option<i32>) -> int {
    match indent_level {
        Some(level) => level as int,
        None => -1,
    }
}

/// The line prefix that `append` takes for an optional one.
pub open spec fn prefix_or_empty(line_prefix: Option<String>) -> Seq<char> {
    match line_prefix {
        Some(prefix) => prefix@,
        None => Seq::empty(),
    }
}

/// A segment that must not open a wrapped line: a leading `+` or `-`
/// directly followed by a character other than a space.
pub open spec fn is_unsafe_line_start(s: Seq<char>) -> bool {
    s.len() >= 2 && (s[0] == '+' || s[0] == '-') && s[1] != ' '
}

/// `segs` with each unsafe line start glued to the segment before it by a
/// single space. The first segment is never glued.
pub open spec fn folded(segs: Seq<Seq<char>>) -> Seq<Seq<char>>
    decreases segs.len(),
{
    if segs.len() <= 1 {
        segs
    } else {
        let init = folded(segs.drop_last());
        if is_unsafe_line_start(segs.last()) {
            init.drop_last().push(init.last() + seq![' '] + segs.last())
        } else {
            init.push(segs.last())
        }
    }
}

/// The segments `segs[start..end)` joined by single spaces; the segment
/// at `start` alone when the range holds no more.
pub open spec fn joined(segs: Seq<Seq<char>>, start: int, end: int) -> Seq<char>
    decreases end - start,
{
    if end <= start + 1 {
        segs[start]
    } else {
        joined(segs, start, end - 1) + seq![' '] + segs[end - 1]
    }
}

impl Layout {
    /// At least one segment is pending at all times.
    pub open spec fn wf(self) -> bool {
        self.segments.len() >= 1
    }

    /// What separates a wrapped line from the line before it.
    pub open spec fn line_break(self) -> Seq<char> {
        seq!['\n'] + repeated(self.indent, self.indent_level) + self.line_prefix
    }

    /// Column count of a continuation line that holds only a segment of
    /// `len` characters.
    pub open spec fn restart_width(self, len: int) -> int {
        len + self.indent.len() * self.indent_level
    }

    /// The text of the run of segments `[start, end)`: the line break when
    /// the run is not the first of its line, then the segments.
    pub open spec fn run_text(self, start: int, end: int) -> Seq<char> {
        if start > 0 {
            self.line_break() + joined(self.segments, start, end)
        } else {
            joined(self.segments, start, end)
        }
    }

    /// The text for the segments from index `i` on, when the line so far
    /// is `width` columns wide: greedy, one segment at a time.
    pub open spec fn wrapped_from(self, i: int, width: int) -> Seq<char>
        decreases self.segments.len() - i,
    {
        if i < 0 || i >= self.segments.len() {
            Seq::empty()
        } else if width + 1 + self.segments[i].len() > self.column_limit {
            self.line_break() + self.segments[i] + self.wrapped_from(
                i + 1,
                self.restart_width(self.segments[i].len() as int),
            )
        } else {
            seq![' '] + self.segments[i] + self.wrapped_from(
                i + 1,
                width + 1 + self.segments[i].len(),
            )
        }
    }

    /// The pending segments laid out as one logical line.
    pub open spec fn wrapped(self) -> Seq<char> {
        self.segments[0] + self.wrapped_from(1, self.segments[0].len() as int)
    }

    /// The state with other pending segments.
    pub open spec fn with_segments(self, segments: Seq<Seq<char>>) -> Layout {
        Layout { segments, ..self }
    }

    /// The state with `text` written to the output.
    pub open spec fn written(self, text: Seq<char>) -> Layout {
        Layout { out: self.out + text, ..self }
    }

    /// The state after the pending line was folded, laid out and written.
    pub open spec fn flushed(self) -> Layout {
        Layout {
            out: self.out + self.with_segments(folded(self.segments)).wrapped(),
            segments: seq![Seq::empty()],
            ..self
        }
    }

    /// The state after a hard newline.
    pub open spec fn after_new_line(self) -> Layout {
        Layout { out: self.flushed().out.push('\n'), indent_level: -1, ..self.flushed() }
    }

    /// The state after the last pending segment grew by `text`.
    pub open spec fn extended(self, text: Seq<char>) -> Layout {
        self.with_segments(self.segments.drop_last().push(self.segments.last() + text))
    }

    /// The state after one character of input.
    pub open spec fn after_char(self, c: char, indent_level: int, line_prefix: Seq<char>) -> Layout {
        if c == ' ' {
            Layout {
                segments: self.segments.push(Seq::empty()),
                indent_level,
                line_prefix,
                ..self
            }
        } else if c == '\n' {
            self.after_new_line()
        } else if c == '·' {
            self.extended(seq![' '])
        } else {
            self.extended(seq![c])
        }
    }

    /// The state after the characters of `input`, one after the other.
    pub open spec fn after_append(
        self,
        input: Seq<char>,
        indent_level: int,
        line_prefix: Seq<char>,
    ) -> Layout
        decreases input.len(),
    {
        if input.len() == 0 {
            self
        } else {
            self.after_append(input.drop_last(), indent_level, line_prefix).after_char(
                input.last(),
                indent_level,
                line_prefix,
            )
        }
    }

    /// The state after the final flush.
    pub open spec fn after_close(self) -> Layout {
        Layout { closed: true, ..self.flushed() }
    }
}

/// Appended text leaves the wrapper's indent unit, column limit and closed
/// flag as they are.
pub proof fn lemma_append_keeps_setup(
    l: Layout,
    input: Seq<char>,
    indent_level: int,
    line_prefix: Seq<char>,
)
    ensures
        l.after_append(input, indent_level, line_prefix).closed == l.closed,
        l.after_append(input, indent_level, line_prefix).indent == l.indent,
        l.after_append(input, indent_level, line_prefix).column_limit == l.column_limit,
    decreases input.len(),
{
    if input.len() > 0 {
        lemma_append_keeps_setup(l, input.drop_last(), indent_level, line_prefix);
    }
}

/// A flush, a newline and the close each leave exactly one pending
/// segment, which is empty.
pub proof fn law_flush_leaves_one_empty_segment(l: Layout)
    ensures
        l.flushed().segments == seq![Seq::<char>::empty()],
        l.after_new_line().segments == seq![Seq::<char>::empty()],
        l.after_close().segments == seq![Seq::<char>::empty()],
        l.flushed().wf() && l.after_new_line().wf() && l.after_close().wf(),
        l.after_close().closed,
{
}

/// Text that is appended to an open wrapper leaves it open, with a
/// segment pending.
pub proof fn lemma_append_keeps_open(
    l: Layout,
    input: Seq<char>,
    indent_level: int,
    line_prefix: Seq<char>,
)
    requires
        l.wf(),
        !l.closed,
    ensures
        l.after_append(input, indent_level, line_prefix).wf(),
        !l.after_append(input, indent_level, line_prefix).closed,
        l.after_append(input, indent_level, line_prefix).indent == l.indent,
        l.after_append(input, indent_level, line_prefix).column_limit == l.column_limit,
    decreases input.len(),
{
    if input.len() > 0 {
        lemma_append_keeps_open(l, input.drop_last(), indent_level, line_prefix);
    }
}

impl Layout {
    /// The state with `prefix` before everything written so far.
    pub open spec fn behind(self, prefix: Seq<char>) -> Layout {
        Layout { out: prefix + self.out, ..self }
    }
}

/// How the pending segments are laid out does not depend on what was
/// written before.
pub proof fn lemma_wrapped_ignores_output(l: Layout, prefix: Seq<char>, i: int, width: int)
    ensures
        l.behind(prefix).wrapped_from(i, width) == l.wrapped_from(i, width),
    decreases l.segments.len() - i,
{
    if 0 <= i < l.segments.len() {
        lemma_wrapped_ignores_output(
            l,
            prefix,
            i + 1,
            l.restart_width(l.segments[i].len() as int),
        );
        lemma_wrapped_ignores_output(l, prefix, i + 1, width + 1 + l.segments[i].len());
    }
}

/// A flush writes the same text whatever was written before.
pub proof fn lemma_flush_ignores_output(l: Layout, prefix: Seq<char>)
    ensures
        l.behind(prefix).flushed() == l.flushed().behind(prefix),
        l.behind(prefix).after_new_line() == l.after_new_line().behind(prefix),
        l.behind(prefix).after_close() == l.after_close().behind(prefix),
{
    let f = l.with_segments(folded(l.segments));
    lemma_wrapped_ignores_output(f, prefix, 1, f.segments[0].len() as int);
    assert(l.behind(prefix).with_segments(folded(l.segments)) == f.behind(prefix));
    assert(l.behind(prefix).flushed().out =~= l.flushed().behind(prefix).out);
    assert(l.behind(prefix).after_new_line().out =~= l.after_new_line().behind(prefix).out);
}

/// Appended text changes the wrapper in the same way whatever was written
/// before.
pub proof fn lemma_append_ignores_output(
    l: Layout,
    prefix: Seq<char>,
    input: Seq<char>,
    indent_level: int,
    line_prefix: Seq<char>,
)
    ensures
        l.behind(prefix).after_append(input, indent_level, line_prefix) == l.after_append(
            input,
            indent_level,
            line_prefix,
        ).behind(prefix),
    decreases input.len(),
{
    if input.len() > 0 {
        lemma_append_ignores_output(l, prefix, input.drop_last(), indent_level, line_prefix);
        let before = l.after_append(input.drop_last(), indent_level, line_prefix);
        lemma_flush_ignores_output(before, prefix);
    }
}

/// Soft line wrapping on a string sink. Text is appended in pieces; spaces
/// in it are the places where a line may be broken.
#[derive(Debug)]
pub struct LineWrapper<'a> {
    /// The sink that finished lines are written to.
    pub out: &'a mut String,
    /// The indent unit.
    pub indent: String,
    /// The column after which a line is wrapped.
    pub column_limit: i32,
    /// The pending segments of the current logical line; never empty.
    pub segments: Vec<String>,
    /// Indent level of a continuation line; -1 means none.
    pub indent_level: i32,
    /// Text that follows the indentation of a continuation line.
    pub line_prefix: String,
    /// Whether the wrapper was closed.
    pub closed: bool,
}

impl<'a> View for LineWrapper<'a> {
    type V = Layout;

    open spec fn view(&self) -> Layout {
        Layout {
            out: self.out@,
            indent: self.indent@,
            column_limit: self.column_limit as int,
            segments: texts(self.segments@),
            indent_level: self.indent_level as int,
            line_prefix: self.line_prefix@,
            closed: self.closed,
        }
    }
}

impl<'a> LineWrapper<'a> {
    /// A wrapper that writes behind what `out` already holds.
    pub fn new(out: &'a mut String, indent: String, column_limit: i32) -> (r: Self)
        ensures
            r@ == (Layout {
                out: old(out)@,
                indent: indent@,
                column_limit: column_limit as int,
                segments: seq![Seq::empty()],
                indent_level: -1,
                line_prefix: Seq::empty(),
                closed: false,
            }),
            *final(out) == *final(r.out),
    {
        let mut segments: Vec<String> = Vec::new();
        segments.push(String::new());
        let r = LineWrapper {
            out,
            indent,
            column_limit,
            segments,
            indent_level: -1,
            line_prefix: String::new(),
            closed: false,
        };
        assert(r@.segments =~= seq![Seq::empty()]);
        r
    }

    /// Whether anything is waiting to be written.
    pub fn has_pending_segments(&self) -> (r: bool)
        ensures
            r == (self@.segments.len() != 1 || self@.segments[0].len() != 0),
    {
        self.segments.len() != 1 || self.segments[0].as_str().unicode_len() != 0
    }

    /// Whether the wrapper still takes text: the fault of an append where
    /// it is closed.
    pub fn check_closed(&self) -> (r: Result<(), LayoutFault>)
        ensures
            r == if self@.closed {
                Err::<(), LayoutFault>(LayoutFault::AppendAfterClose)
            } else {
                Ok::<(), LayoutFault>(())
            },
    {
        if self.closed {
            Err(LayoutFault::AppendAfterClose)
        } else {
            Ok(())
        }
    }

    /// Scans `input`: a space closes the current segment and records
    /// `indent_level` and `line_prefix` for a wrap at that place, a newline
    /// flushes the line, the non-breaking marker becomes a space inside the
    /// segment, and every other character joins the current segment.
    /// A missing level counts as none, a missing prefix as empty.
    pub fn append(&mut self, input: String, indent_level: Option<i32>, line_prefix: Option<String>)
        requires
            old(self)@.wf(),
            !old(self)@.closed,
        ensures
            final(self)@ == old(self)@.after_append(
                input@,
                level_or_none(indent_level),
                prefix_or_empty(line_prefix),
            ),
            final(self)@.wf(),
            !final(self)@.closed,
            *final(final(self).out) == *final(old(self).out),
    {
        let level: i32 = match indent_level {
            Some(level) => level,
            None => -1,
        };
        let prefix: String = match line_prefix {
            Some(prefix) => prefix,
            None => String::new(),
        };
        let chars: Vec<char> = chars_of(input.as_str());
        let mut pos: usize = 0;
        while pos < chars.len()
            invariant
                pos <= chars.len(),
                chars@ == input@,
                self@.wf(),
                !self@.closed,
                self@ == old(self)@.after_append(chars@.take(pos as int), level as int, prefix@),
                *final(self.out) == *final(old(self).out),
            decreases chars.len() - pos,
        {
            let c = chars[pos];
            proof {
                assert(chars@.take(pos + 1).drop_last() =~= chars@.take(pos as int));
                assert(chars@.take(pos + 1).last() == c);
            }
            let ghost before = self@;
            if c == WRAPPING_SPACE {
                self.indent_level = level;
                self.line_prefix = prefix.clone();
                self.segments.push(String::new());
                assert(self@.segments =~= before.segments.push(Seq::empty()));
            } else if c == HARD_NEWLINE {
                self.new_line();
            } else if c == NON_BREAKING_SPACE {
                self.extend_last(' ');
            } else {
                self.extend_last(c);
            }
            assert(self@ == before.after_char(c, level as int, prefix@));
            pos = pos + 1;
        }
        assert(chars@.take(pos as int) =~= input@);
    }

    /// Adds one character to the last pending segment.
    fn extend_last(&mut self, c: char)
        requires
            old(self)@.wf(),
        ensures
            final(self)@ == old(self)@.extended(seq![c]),
            *final(final(self).out) == *final(old(self).out),
    {
        let k = self.segments.len() - 1;
        let ghost prior = self.segments@;
        push_char(&mut self.segments[k], c);
        assert(self.segments@.len() == prior.len());
        assert(self.segments@[k as int]@ =~= prior[k as int]@ + seq![c]);
        assert(forall|j: int| 0 <= j < k ==> self.segments@[j] == prior[j]);
        assert(self@.segments =~= old(self)@.extended(seq![c]).segments);
    }

    /// Adds `text` to the last pending segment as it is: no character of it
    /// opens a wrap opportunity or ends the line.
    pub fn append_non_wrapping(&mut self, text: String)
        requires
            old(self)@.wf(),
            !old(self)@.closed,
        ensures
            final(self)@ == old(self)@.extended(text@),
            *final(final(self).out) == *final(old(self).out),
    {
        let k = self.segments.len() - 1;
        let ghost prior = self.segments@;
        self.segments[k].append(text.as_str());
        assert(self.segments@.len() == prior.len());
        assert(forall|j: int| 0 <= j < k ==> self.segments@[j] == prior[j]);
        assert(self@.segments =~= old(self)@.extended(text@).segments);
    }

    /// Writes the run of segments `[start_index, end_index)`, after a line
    /// break when the run does not open the logical line.
    pub fn emit_segment_range(&mut self, start_index: i32, end_index: i32)
        requires
            0 <= start_index < old(self)@.segments.len(),
            end_index <= old(self)@.segments.len(),
        ensures
            final(self)@ == old(self)@.written(
                old(self)@.run_text(start_index as int, end_index as int),
            ),
            *final(final(self).out) == *final(old(self).out),
    {
        let start: usize = start_index as usize;
        let end: usize = if end_index > start_index {
            end_index as usize
        } else {
            start
        };
        self.emit_run(start, end);
    }

    /// `emit_segment_range` on indices of any size.
    fn emit_run(&mut self, start: usize, end: usize)
        requires
            start < old(self)@.segments.len(),
            end <= old(self)@.segments.len(),
        ensures
            final(self)@ == old(self)@.written(old(self)@.run_text(start as int, end as int)),
            *final(final(self).out) == *final(old(self).out),
    {
        proof {
            reveal_strlit("\n");
        }
        let n = self.segments.len();
        assert(start < n);
        if start > 0 {
            self.out.append("\n");
            push_repeated(self.out, self.indent.as_str(), self.indent_level);
            self.out.append(self.line_prefix.as_str());
            assert(self.out@ =~= old(self).out@ + old(self)@.line_break());
        }
        let ghost base = self.out@;
        self.out.append(self.segments[start].as_str());
        let mut i: usize = start + 1;
        while i < end
            invariant
                start < i,
                i <= end || i == start + 1,
                end <= self.segments.len(),
                self.out@ == base + joined(self@.segments, start as int, i as int),
                self.segments == old(self).segments,
                self.indent == old(self).indent,
                self.column_limit == old(self).column_limit,
                self.indent_level == old(self).indent_level,
                self.line_prefix == old(self).line_prefix,
                self.closed == old(self).closed,
                *final(self.out) == *final(old(self).out),
            decreases end - i,
        {
            proof {
                reveal_strlit(" ");
            }
            self.out.append(" ");
            self.out.append(self.segments[i].as_str());
            assert(self@.segments[i as int] == self.segments@[i as int]@);
            i = i + 1;
            assert(self.out@ =~= base + joined(self@.segments, start as int, i as int));
        }
        assert(joined(self@.segments, start as int, i as int) == joined(
            self@.segments,
            start as int,
            end as int,
        ));
        assert(self.out@ =~= old(self).out@ + old(self)@.run_text(start as int, end as int));
    }

    /// Glues every unsafe line start to the segment before it.
    fn fold_unsafe_breaks(&mut self)
        requires
            old(self)@.wf(),
        ensures
            final(self)@ == old(self)@.with_segments(folded(old(self)@.segments)),
            final(self)@.wf(),
            *final(final(self).out) == *final(old(self).out),
    {
        let n = self.segments.len();
        let mut kept: Vec<String> = Vec::new();
        kept.push(self.segments[0].clone());
        let ghost segs = self@.segments;
        assert(texts(kept@) =~= folded(segs.take(1))) by {
            assert(segs.take(1).len() == 1);
            assert(segs.take(1)[0] == kept@[0]@);
        }
        let mut i: usize = 1;
        while i < n
            invariant
                1 <= i <= n,
                n == self.segments.len(),
                segs == texts(self.segments@),
                kept.len() >= 1,
                texts(kept@) == folded(segs.take(i as int)),
            decreases n - i,
        {
            proof {
                reveal_strlit(" ");
                assert(segs.take(i + 1).drop_last() =~= segs.take(i as int));
                assert(segs.take(i + 1).last() == self.segments@[i as int]@);
            }
            let ghost before = texts(kept@);
            if starts_unsafe_line(self.segments[i].as_str()) {
                let k = kept.len() - 1;
                let ghost prior = kept@;
                kept[k].append(" ");
                kept[k].append(self.segments[i].as_str());
                assert(kept@.len() == prior.len());
                assert(kept@[k as int]@ == prior[k as int]@ + seq![' '] + self.segments@[i as int]@);
                assert(forall|j: int| 0 <= j < k ==> kept@[j] == prior[j]);
                assert(texts(kept@) =~= before.drop_last().push(
                    before.last() + seq![' '] + self.segments@[i as int]@,
                ));
            } else {
                kept.push(self.segments[i].clone());
                assert(texts(kept@) =~= before.push(self.segments@[i as int]@));
            }
            i = i + 1;
        }
        assert(segs.take(n as int) =~= segs);
        self.segments = kept;
    }

    /// Folds, lays out and writes the pending line, then starts an empty
    /// one.
    fn emit_current_line(&mut self)
        requires
            old(self)@.wf(),
        ensures
            final(self)@ == old(self)@.flushed(),
            *final(final(self).out) == *final(old(self).out),
    {
        self.fold_unsafe_breaks();
        let ghost l = self@;
        let n = self.segments.len();
        let unit: i128 = self.indent.as_str().unicode_len() as i128;
        let level: i128 = self.indent_level as i128;
        assert(-0x1_0000_0000_0000_0000_0000_0000 <= unit * level
            <= 0x1_0000_0000_0000_0000_0000_0000) by (nonlinear_arith)
            requires
                0 <= unit <= 0xffff_ffff_ffff_ffff,
                -0x8000_0000 <= level <= 0x7fff_ffff,
        ;
        let restart: i128 = unit * level;
        let limit: i128 = self.column_limit as i128;
        let mut start: usize = 0;
        let mut width: i128 = self.segments[0].as_str().unicode_len() as i128;
        let mut i: usize = 1;
        assert(l.run_text(0, 1) + l.wrapped_from(1, width as int) =~= l.wrapped());
        while i < n
            invariant
                start < i <= n,
                n == self.segments.len(),
                l.segments.len() == n,
                self@ == l.written(self.out@.skip(l.out.len() as int)),
                l.out.len() <= self.out@.len(),
                l.out == self.out@.take(l.out.len() as int),
                self.out@ + l.run_text(start as int, i as int) + l.wrapped_from(
                    i as int,
                    width as int,
                ) == l.out + l.wrapped(),
                restart == l.indent.len() * l.indent_level,
                limit == l.column_limit,
                -0x2_0000_0000_0000_0000_0000_0000 <= width
                    <= 0x2_0000_0000_0000_0000_0000_0000,
                -0x1_0000_0000_0000_0000_0000_0000 <= restart
                    <= 0x1_0000_0000_0000_0000_0000_0000,
                *final(self.out) == *final(old(self).out),
            decreases n - i,
        {
            let len: i128 = self.segments[i].as_str().unicode_len() as i128;
            assert(len == l.segments[i as int].len());
            let ghost before = self.out@;
            let wider: i128 = width + 1 + len;
            if wider > limit {
                self.emit_run(start, i);
                assert(self.out@ + l.run_text(i as int, i + 1) + l.wrapped_from(
                    i + 1,
                    (len + restart) as int,
                ) =~= before + l.run_text(start as int, i as int) + l.wrapped_from(
                    i as int,
                    width as int,
                ));
                assert(self.out@.skip(l.out.len() as int) =~= before.skip(l.out.len() as int)
                    + l.run_text(start as int, i as int));
                assert(l.out =~= self.out@.take(l.out.len() as int));
                assert(self@.out =~= l.written(self.out@.skip(l.out.len() as int)).out);
                start = i;
                width = len + restart;
            } else {
                assert(self.out@ + l.run_text(start as int, i + 1) + l.wrapped_from(
                    i + 1,
                    wider as int,
                ) =~= before + l.run_text(start as int, i as int) + l.wrapped_from(
                    i as int,
                    width as int,
                ));
                width = wider;
            }
            i = i + 1;
        }
        let ghost before = self.out@;
        self.emit_run(start, n);
        assert(self.out@ =~= l.out + l.wrapped()) by {
            assert(l.wrapped_from(n as int, width as int) =~= Seq::empty());
            assert(self.out@ == before + l.run_text(start as int, n as int));
        }
        self.segments.clear();
        self.segments.push(String::new());
        assert(self@.segments =~= seq![Seq::empty()]);
    }

    /// Ends the logical line: flushes it and writes a newline.
    pub fn new_line(&mut self)
        requires
            old(self)@.wf(),
            !old(self)@.closed,
        ensures
            final(self)@ == old(self)@.after_new_line(),
            *final(final(self).out) == *final(old(self).out),
    {
        proof {
            reveal_strlit("\n");
        }
        self.emit_current_line();
        self.out.append("\n");
        self.indent_level = -1;
        assert(self@.out =~= old(self)@.after_new_line().out);
    }

    /// Flushes what is pending and closes the wrapper.
    pub fn close(&mut self)
        requires
            old(self)@.wf(),
        ensures
            final(self)@ == old(self)@.after_close(),
            *final(final(self).out) == *final(old(self).out),
    {
        self.emit_current_line();
        self.closed = true;
    }
}

/// Whether `segment` must not open a wrapped line.
pub fn starts_unsafe_line(segment: &str) -> (r: bool)
    ensures
        r == is_unsafe_line_start(segment@),
{
    if segment.unicode_len() < 2 {
        return false;
    }
    let first = segment.get_char(0);
    let second = segment.get_char(1);
    (first == '+' || first == '-') && second != ' '
}

/// The first `k` of `segs` in order, each whole, with `seps[j]` between
/// `segs[j]` and `segs[j + 1]`.
pub open spec fn woven(segs: Seq<Seq<char>>, seps: Seq<Seq<char>>, k: int) -> Seq<char>
    decreases k,
{
    if k <= 0 {
        Seq::empty()
    } else if k == 1 {
        segs[0]
    } else {
        woven(segs, seps, k - 1) + seps[k - 2] + segs[k - 1]
    }
}

/// Whether `seps` are separators that show the pending line of `l` laid
/// out with every segment whole: what a flush writes is the segments in
/// order with one separator between neighbours, each separator is a single
/// space or the line break, and the one before an unsafe line start is a
/// space.
pub open spec fn lays_out_whole(l: Layout, seps: Seq<Seq<char>>) -> bool {
    &&& seps.len() == l.segments.len() - 1
    &&& l.flushed().out == l.out + woven(l.segments, seps, l.segments.len() as int)
    &&& forall|j: int|
        0 <= j < seps.len() ==> #[trigger] seps[j] == seq![' '] || seps[j] == l.line_break()
    &&& forall|j: int|
        0 <= j < seps.len() && is_unsafe_line_start(l.segments[j + 1]) ==> #[trigger] seps[j]
            == seq![' ']
}

/// The column count of the line of `l` before segment `i` is placed.
pub open spec fn width_at(l: Layout, i: int) -> int
    decreases i,
{
    if i <= 1 {
        l.segments[0].len() as int
    } else {
        let wider = width_at(l, i - 1) + 1 + l.segments[i - 1].len();
        if wider > l.column_limit {
            l.restart_width(l.segments[i - 1].len() as int)
        } else {
            wider
        }
    }
}

/// What the greedy layout puts before segment `i`.
pub open spec fn separator_at(l: Layout, i: int) -> Seq<char> {
    if width_at(l, i) + 1 + l.segments[i].len() > l.column_limit {
        l.line_break()
    } else {
        seq![' ']
    }
}

/// What the greedy layout puts between the segments of `l`.
pub open spec fn separators(l: Layout) -> Seq<Seq<char>> {
    Seq::new((l.segments.len() - 1) as nat, |j: int| separator_at(l, j + 1))
}

/// The separators of `segs` that correspond to the separators `seps` of
/// the folded segments: a space before every segment that was glued on.
pub open spec fn unfolded(segs: Seq<Seq<char>>, seps: Seq<Seq<char>>) -> Seq<Seq<char>>
    decreases segs.len(),
{
    if segs.len() <= 1 {
        Seq::empty()
    } else if is_unsafe_line_start(segs.last()) {
        unfolded(segs.drop_last(), seps).push(seq![' '])
    } else {
        unfolded(segs.drop_last(), seps.drop_last()).push(seps.last())
    }
}

/// Weaving looks at the first `k` segments and the separators between
/// them only.
pub proof fn lemma_woven_prefix(
    segs: Seq<Seq<char>>,
    seps: Seq<Seq<char>>,
    others: Seq<Seq<char>>,
    other_seps: Seq<Seq<char>>,
    k: int,
)
    requires
        forall|j: int| 0 <= j < k ==> segs[j] == others[j],
        forall|j: int| 0 <= j < k - 1 ==> seps[j] == other_seps[j],
    ensures
        woven(segs, seps, k) == woven(others, other_seps, k),
    decreases k,
{
    if k > 1 {
        lemma_woven_prefix(segs, seps, others, other_seps, k - 1);
    }
}

/// The greedy layout of the segments of `l` is the segments woven with
/// its separators.
pub proof fn lemma_wrapped_is_woven(l: Layout, i: int)
    requires
        l.wf(),
        1 <= i <= l.segments.len(),
    ensures
        woven(l.segments, separators(l), i) + l.wrapped_from(i, width_at(l, i)) == l.wrapped(),
    decreases i,
{
    if i > 1 {
        lemma_wrapped_is_woven(l, i - 1);
        assert(separators(l)[i - 2] == separator_at(l, i - 1));
        assert(l.wrapped_from(i - 1, width_at(l, i - 1)) == separator_at(l, i - 1) + l.segments[i
            - 1] + l.wrapped_from(i, width_at(l, i)));
        assert(woven(l.segments, separators(l), i) + l.wrapped_from(i, width_at(l, i)) =~= woven(
            l.segments,
            separators(l),
            i - 1,
        ) + l.wrapped_from(i - 1, width_at(l, i - 1)));
    } else {
        assert(woven(l.segments, separators(l), 1) + l.wrapped_from(1, width_at(l, 1))
            =~= l.wrapped());
    }
}

/// Folding keeps at least one segment.
pub proof fn lemma_folded_is_not_empty(segs: Seq<Seq<char>>)
    requires
        segs.len() >= 1,
    ensures
        1 <= folded(segs).len() <= segs.len(),
    decreases segs.len(),
{
    if segs.len() > 1 {
        lemma_folded_is_not_empty(segs.drop_last());
    }
}

/// The folded segments woven with `seps` are the segments themselves
/// woven with the unfolded separators, each of which is a space or one of
/// `seps`.
pub proof fn lemma_fold_is_woven(segs: Seq<Seq<char>>, seps: Seq<Seq<char>>)
    requires
        segs.len() >= 1,
        seps.len() == folded(segs).len() - 1,
    ensures
        unfolded(segs, seps).len() == segs.len() - 1,
        woven(segs, unfolded(segs, seps), segs.len() as int) == woven(
            folded(segs),
            seps,
            folded(segs).len() as int,
        ),
        forall|j: int|
            0 <= j < segs.len() - 1 ==> #[trigger] unfolded(segs, seps)[j] == seq![' '] || exists|
                k: int,
            |
                0 <= k < seps.len() && unfolded(segs, seps)[j] == seps[k],
        forall|j: int|
            0 <= j < segs.len() - 1 && is_unsafe_line_start(segs[j + 1]) ==> #[trigger] unfolded(
                segs,
                seps,
            )[j] == seq![' '],
    decreases segs.len(),
{
    let n = segs.len() as int;
    if n > 1 {
        let init = segs.drop_last();
        let last = segs.last();
        let f0 = folded(init);
        let f = folded(segs);
        let m = f0.len() as int;
        lemma_folded_is_not_empty(init);
        if is_unsafe_line_start(last) {
            let u0 = unfolded(init, seps);
            let u = unfolded(segs, seps);
            lemma_fold_is_woven(init, seps);
            assert(f == f0.drop_last().push(f0.last() + seq![' '] + last));
            lemma_woven_prefix(segs, u, init, u0, n - 1);
            if m > 1 {
                lemma_woven_prefix(f, seps, f0, seps, m - 1);
            }
            assert(woven(f, seps, m) =~= woven(f0, seps, m) + seq![' '] + last);
            assert(woven(segs, u, n) =~= woven(init, u0, n - 1) + seq![' '] + last);
            assert forall|j: int| 0 <= j < n - 1 implies #[trigger] u[j] == seq![' '] || exists|
                k: int,
            |
                0 <= k < seps.len() && u[j] == seps[k] by {
                if j < n - 2 {
                    assert(u[j] == u0[j]);
                }
            }
            assert forall|j: int|
                0 <= j < n - 1 && is_unsafe_line_start(segs[j + 1]) implies #[trigger] u[j]
                == seq![' '] by {
                if j < n - 2 {
                    assert(u[j] == u0[j]);
                    assert(segs[j + 1] == init[j + 1]);
                }
            }
        } else {
            let s0 = seps.drop_last();
            let u0 = unfolded(init, s0);
            let u = unfolded(segs, seps);
            assert(f == f0.push(last));
            lemma_fold_is_woven(init, s0);
            lemma_woven_prefix(segs, u, init, u0, n - 1);
            lemma_woven_prefix(f, seps, f0, s0, m);
            assert(woven(f, seps, m + 1) =~= woven(f0, s0, m) + seps.last() + last);
            assert(woven(segs, u, n) =~= woven(init, u0, n - 1) + seps.last() + last);
            assert forall|j: int| 0 <= j < n - 1 implies #[trigger] u[j] == seq![' '] || exists|
                k: int,
            |
                0 <= k < seps.len() && u[j] == seps[k] by {
                if j < n - 2 {
                    assert(u[j] == u0[j]);
                    if u0[j] != seq![' '] {
                        let k = choose|k: int| 0 <= k < s0.len() && u0[j] == s0[k];
                        assert(u[j] == seps[k]);
                    }
                } else {
                    assert(u[j] == seps[seps.len() - 1]);
                }
            }
            assert forall|j: int|
                0 <= j < n - 1 && is_unsafe_line_start(segs[j + 1]) implies #[trigger] u[j]
                == seq![' '] by {
                if j < n - 2 {
                    assert(u[j] == u0[j]);
                    assert(segs[j + 1] == init[j + 1]);
                }
            }
        }
    }
}

/// After folding no segment but the first is an unsafe line start, so no
/// wrapped line opens with one.
pub proof fn law_folded_segments_open_lines_safely(segs: Seq<Seq<char>>, j: int)
    requires
        1 <= j < folded(segs).len(),
    ensures
        !is_unsafe_line_start(folded(segs)[j]),
    decreases segs.len(),
{
    if segs.len() > 1 {
        let init = folded(segs.drop_last());
        lemma_folded_is_not_empty(segs.drop_last());
        if is_unsafe_line_start(segs.last()) {
            if j < init.len() - 1 {
                law_folded_segments_open_lines_safely(segs.drop_last(), j);
            } else {
                law_folded_segments_open_lines_safely(segs.drop_last(), j);
                let glued = init.last() + seq![' '] + segs.last();
                assert(folded(segs)[j] == glued);
                if init.last().len() >= 2 {
                    assert(glued[0] == init.last()[0]);
                    assert(glued[1] == init.last()[1]);
                } else if init.last().len() == 1 {
                    assert(glued[1] == ' ');
                } else {
                    assert(glued[0] == ' ');
                }
            }
        } else {
            if j < init.len() {
                law_folded_segments_open_lines_safely(segs.drop_last(), j);
            }
        }
    }
}

/// No segment is ever split: what a flush writes is the pending segments
/// in order, each whole, however long it is, with a single space or the
/// line break between neighbours, and never the line break before an
/// unsafe line start.
pub proof fn law_segments_are_never_split(l: Layout)
    requires
        l.wf(),
    ensures
        exists|seps: Seq<Seq<char>>| lays_out_whole(l, seps),
{
    let f = l.with_segments(folded(l.segments));
    lemma_folded_is_not_empty(l.segments);
    let between = separators(f);
    lemma_wrapped_is_woven(f, f.segments.len() as int);
    assert(f.wrapped_from(f.segments.len() as int, width_at(f, f.segments.len() as int))
        =~= Seq::empty());
    assert(woven(f.segments, between, f.segments.len() as int) =~= f.wrapped());
    lemma_fold_is_woven(l.segments, between);
    let seps = unfolded(l.segments, between);
    assert(l.line_break() == f.line_break());
    assert forall|j: int| 0 <= j < seps.len() implies #[trigger] seps[j] == seq![' '] || seps[j]
        == l.line_break() by {
        if seps[j] != seq![' '] {
            let k = choose|k: int| 0 <= k < between.len() && seps[j] == between[k];
            assert(between[k] == separator_at(f, k + 1));
        }
    }
    assert(lays_out_whole(l, seps));
}

} // verus!
