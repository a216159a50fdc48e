//! The wrap engine: breaking the lines of a report into sub-lines that fit
//! a target display width.
//!
//! The engine is a pure function of the report and the width. Its
//! mathematical form is [`wrap_report`]; [`WrappedReport::new`] computes
//! exactly that sequence.

use vstd::prelude::*;
use vstd::string::*;
use crate::char_cols;
use crate::char_display_width;
use crate::report::FragmentModel;
use crate::report::Line;
use crate::report::LineModel;
use crate::report::LineType;
use crate::report::Report;
use crate::report::CSI_RESET;
use crate::sink::Sink;
use crate::sink::WriteError;

verus! {

/// A reference to a slice of one fragment of one line: the fragment's index
/// within the line and a half-open character range into its raw text.
///
/// Offsets count characters (Unicode scalar values), so every slice they
/// describe is well-formed text.
#[derive(Debug, Clone, Copy, PartialEq, Eq, Structural)]
pub struct SubString {
    pub string_idx: usize,
    pub char_start: usize,
    pub char_end: usize,
}

/// Mathematical image of a [`SubString`].
pub struct SubStringModel {
    pub string_idx: int,
    pub char_start: int,
    pub char_end: int,
}

impl View for SubString {
    type V = SubStringModel;

    open spec fn view(&self) -> SubStringModel {
        SubStringModel {
            string_idx: self.string_idx as int,
            char_start: self.char_start as int,
            char_end: self.char_end as int,
        }
    }
}

/// One wrapped visual row: the index of the source line it came from and the
/// slices of that line's fragments that it shows, in order.
#[derive(Debug, Clone, PartialEq, Eq)]
pub struct SubLine {
    pub line_idx: usize,
    pub sub_strings: Vec<SubString>,
}

/// Mathematical image of a [`SubLine`].
pub struct SubLineModel {
    pub line_idx: int,
    pub subs: Seq<SubStringModel>,
}

impl View for SubLine {
    type V = SubLineModel;

    open spec fn view(&self) -> SubLineModel {
        SubLineModel {
            line_idx: self.line_idx as int,
            subs: self.sub_strings@.map_values(|s: SubString| s@),
        }
    }
}

impl SubLineModel {
    /// Whether this row is not the first one produced for its source line:
    /// its first slice does not start at the very beginning of the line.
    pub open spec fn is_continuation(self) -> bool {
        self.subs.len() > 0 && (self.subs[0].string_idx != 0 || self.subs[0].char_start != 0)
    }
}

/// All sub-lines of a report at one width, in source-line order and then in
/// wrap order. Valid only against the report and width it was built from;
/// it must be rebuilt whenever either changes.
#[derive(Debug, PartialEq, Eq)]
pub struct WrappedReport {
    pub sub_lines: Vec<SubLine>,
}

impl View for WrappedReport {
    type V = Seq<SubLineModel>;

    open spec fn view(&self) -> Seq<SubLineModel> {
        self.sub_lines@.map_values(|sl: SubLine| sl@)
    }
}

/// The engine's running state while scanning one line: the sub-lines already
/// emitted, the closed slices of the still-open sub-line, the start of the
/// still-open slice within the current fragment, and the columns consumed by
/// the open sub-line (seeded with the line's margin width on the first one).
pub struct WrapState {
    pub done: Seq<SubLineModel>,
    pub cur: Seq<SubStringModel>,
    pub start: int,
    pub used: nat,
}

/// One character of width `w` at position `j` of fragment `string_idx`:
/// if it would strictly overflow the budget and the open sub-line already
/// consumed at least one column, the open slice is closed before it and a
/// fresh sub-line starts at it; otherwise it is absorbed.
pub open spec fn step_char(
    st: WrapState,
    line_idx: int,
    string_idx: int,
    j: int,
    w: nat,
    cols: nat,
) -> WrapState {
    if st.used + w > cols && st.used > 0 {
        WrapState {
            done: st.done.push(
                SubLineModel {
                    line_idx,
                    subs: st.cur.push(
                        SubStringModel { string_idx, char_start: st.start, char_end: j },
                    ),
                },
            ),
            cur: Seq::empty(),
            start: j,
            used: w,
        }
    } else {
        WrapState { done: st.done, cur: st.cur, start: st.start, used: st.used + w }
    }
}

/// Scan the characters of one fragment from position `j` on.
pub open spec fn wrap_chars(
    raw: Seq<char>,
    line_idx: int,
    string_idx: int,
    j: int,
    st: WrapState,
    cols: nat,
) -> WrapState
    decreases raw.len() - j,
{
    if j < 0 || j >= raw.len() {
        st
    } else {
        wrap_chars(
            raw,
            line_idx,
            string_idx,
            j + 1,
            step_char(st, line_idx, string_idx, j, char_cols(raw[j]), cols),
            cols,
        )
    }
}

/// Close the slice left open at the end of fragment `string_idx`: it runs to
/// the fragment's end, and the next fragment's slice will start at zero.
pub open spec fn close_fragment(st: WrapState, string_idx: int, raw_len: int) -> WrapState {
    WrapState {
        done: st.done,
        cur: st.cur.push(
            SubStringModel { string_idx, char_start: st.start, char_end: raw_len },
        ),
        start: 0,
        used: st.used,
    }
}

/// Scan the fragments of one line from fragment `k` on.
pub open spec fn wrap_fragments(
    frags: Seq<FragmentModel>,
    line_idx: int,
    k: int,
    st: WrapState,
    cols: nat,
) -> WrapState
    decreases frags.len() - k,
{
    if k < 0 || k >= frags.len() {
        st
    } else {
        wrap_fragments(
            frags,
            line_idx,
            k + 1,
            close_fragment(
                wrap_chars(frags[k].raw, line_idx, k, 0, st, cols),
                k,
                frags[k].raw.len() as int,
            ),
            cols,
        )
    }
}

/// Emit the still-open sub-line: every line ends with one, possibly empty.
pub open spec fn finish_line(st: WrapState, line_idx: int) -> Seq<SubLineModel> {
    st.done.push(SubLineModel { line_idx, subs: st.cur })
}

/// The sub-lines emitted for one whole line, appended after `done`, starting
/// with a column counter seeded by the line's margin width.
pub open spec fn wrap_line(
    line: LineModel,
    line_idx: int,
    done: Seq<SubLineModel>,
    cols: nat,
) -> Seq<SubLineModel> {
    let st0 = WrapState {
        done,
        cur: Seq::empty(),
        start: 0,
        used: line.line_type.cols_spec(),
    };
    finish_line(wrap_fragments(line.content, line_idx, 0, st0, cols), line_idx)
}

/// Wrap the lines from index `i` on, appending their sub-lines after `done`.
pub open spec fn wrap_lines(
    lines: Seq<LineModel>,
    i: int,
    done: Seq<SubLineModel>,
    cols: nat,
) -> Seq<SubLineModel>
    decreases lines.len() - i,
{
    if i < 0 || i >= lines.len() {
        done
    } else {
        wrap_lines(lines, i + 1, wrap_line(lines[i], i, done, cols), cols)
    }
}

/// The wrapped image of a whole report at total display width `width`:
/// one column is reserved for the scrollbar, so the budget is `width - 1`.
pub open spec fn wrap_report(lines: Seq<LineModel>, width: int) -> Seq<SubLineModel>
    recommends
        width >= 1,
{
    wrap_lines(lines, 0, Seq::empty(), (width - 1) as nat)
}

/// The raw text a slice stands for, within its line.
pub open spec fn slice_text(ss: SubStringModel, line: LineModel) -> Seq<char> {
    line.content[ss.string_idx].raw.subrange(ss.char_start, ss.char_end)
}

/// The raw text of a sub-line: its slices' texts, concatenated in order.
pub open spec fn subs_text(subs: Seq<SubStringModel>, line: LineModel) -> Seq<char>
    decreases subs.len(),
{
    if subs.len() == 0 {
        Seq::empty()
    } else {
        subs_text(subs.drop_last(), line) + slice_text(subs.last(), line)
    }
}

/// The raw text of a whole run of sub-lines, concatenated in order.
pub open spec fn block_text(block: Seq<SubLineModel>, line: LineModel) -> Seq<char>
    decreases block.len(),
{
    if block.len() == 0 {
        Seq::empty()
    } else {
        block_text(block.drop_last(), line) + subs_text(block.last().subs, line)
    }
}

/// The concatenated raw text of a line's fragments from index `k` on.
pub open spec fn frags_text_from(frags: Seq<FragmentModel>, k: int) -> Seq<char>
    decreases frags.len() - k,
{
    if k < 0 || k >= frags.len() {
        Seq::empty()
    } else {
        frags[k].raw + frags_text_from(frags, k + 1)
    }
}

/// The full logical text of a line: all its fragments' raw texts in order.
pub open spec fn line_text(line: LineModel) -> Seq<char> {
    frags_text_from(line.content, 0)
}

/// The sum of the display widths of a text's characters.
pub open spec fn text_cols(s: Seq<char>) -> nat
    decreases s.len(),
{
    if s.len() == 0 {
        0
    } else {
        text_cols(s.drop_last()) + char_cols(s.last())
    }
}

/// Whether some single character of `s` is wider than the whole budget.
pub open spec fn has_oversized(s: Seq<char>, cols: nat) -> bool {
    exists|t: int| 0 <= t < s.len() && char_cols(s[t]) > cols
}

/// A slice that lies within its line: it points at one of the line's
/// fragments and at a character range of that fragment's raw text.
pub open spec fn sub_string_wf(ss: SubStringModel, line: LineModel) -> bool {
    &&& 0 <= ss.string_idx < line.content.len()
    &&& 0 <= ss.char_start <= ss.char_end <= line.content[ss.string_idx].raw.len()
}

/// All slices of a run lie within the line.
pub open spec fn subs_wf(subs: Seq<SubStringModel>, line: LineModel) -> bool {
    forall|q: int| 0 <= q < subs.len() ==> sub_string_wf(#[trigger] subs[q], line)
}

/// A sub-line that lies within its report.
pub open spec fn sub_line_wf(sl: SubLineModel, lines: Seq<LineModel>) -> bool {
    &&& 0 <= sl.line_idx < lines.len()
    &&& subs_wf(sl.subs, lines[sl.line_idx])
}

/// Whether a run of slices begins at the very start of a source line:
/// at the first character of its first fragment, or with no slice at all.
pub open spec fn starts_at_origin(subs: Seq<SubStringModel>) -> bool {
    subs.len() == 0 || (subs[0].string_idx == 0 && subs[0].char_start == 0)
}

/// What drawing one slice emits: the owning fragment's style escape (when
/// there is one), the sliced raw text, and then a style reset.
pub open spec fn drawn_slice_text(ss: SubStringModel, line: LineModel) -> Seq<char> {
    if line.content[ss.string_idx].csi.len() == 0 {
        slice_text(ss, line)
    } else {
        line.content[ss.string_idx].csi + slice_text(ss, line) + CSI_RESET@
    }
}

/// What drawing a whole sub-line emits: each slice's drawn text, in order.
pub open spec fn drawn_subs_text(subs: Seq<SubStringModel>, line: LineModel) -> Seq<char>
    decreases subs.len(),
{
    if subs.len() == 0 {
        Seq::empty()
    } else {
        drawn_subs_text(subs.drop_last(), line) + drawn_slice_text(subs.last(), line)
    }
}

/// The model of a sequence of sub-lines.
pub open spec fn sub_lines_view(v: Seq<SubLine>) -> Seq<SubLineModel> {
    v.map_values(|sl: SubLine| sl@)
}

/// The model of a sequence of slices.
pub open spec fn subs_view(v: Seq<SubString>) -> Seq<SubStringModel> {
    v.map_values(|s: SubString| s@)
}

proof fn lemma_subs_view_push(v: Seq<SubString>, x: SubString)
    ensures
        subs_view(v.push(x)) == subs_view(v).push(x@),
{
    assert(subs_view(v.push(x)) =~= subs_view(v).push(x@));
}

proof fn lemma_sub_lines_view_push(v: Seq<SubLine>, x: SubLine)
    ensures
        sub_lines_view(v.push(x)) == sub_lines_view(v).push(x@),
{
    assert(sub_lines_view(v.push(x)) =~= sub_lines_view(v).push(x@));
}

impl WrappedReport {
    /// Compute the wrapped form of a report for a total display width.
    ///
    /// `width` is the full area width including the reserved scrollbar
    /// column, so the usable budget per row is `width - 1`; a width of zero
    /// is a caller error and is ruled out.
    pub fn new(report: &Report, width: u16) -> (res: WrappedReport)
        requires
            width >= 1,
        ensures
            res@ == wrap_report(report@, width as int),
            forall|g: int| 0 <= g < res@.len() ==> sub_line_wf(#[trigger] res@[g], report@),
    {
        let cols: usize = (width - 1) as usize;
        let ghost cols_n: nat = cols as nat;
        let ghost target: Seq<SubLineModel> = wrap_lines(report@, 0, Seq::empty(), cols_n);
        let mut sub_lines: Vec<SubLine> = Vec::new();
        let lines_len: usize = report.lines.len();
        proof {
            assert(report@.len() == report.lines@.len());
            assert(sub_lines_view(sub_lines@) =~= Seq::<SubLineModel>::empty());
        }
        let mut line_idx: usize = 0;
        while line_idx < lines_len
            invariant
                lines_len == report.lines@.len(),
                report@.len() == report.lines@.len(),
                line_idx <= lines_len,
                cols <= 65534,
                cols_n == cols as nat,
                target == wrap_lines(report@, line_idx as int, sub_lines_view(sub_lines@), cols_n),
                target == wrap_lines(report@, 0, Seq::empty(), cols_n),
            decreases lines_len - line_idx,
        {
            let line = &report.lines[line_idx];
            let ghost lm: LineModel = report@[line_idx as int];
            proof {
                assert(lm == line@);
            }
            let mut cur_subs: Vec<SubString> = Vec::new();
            let mut start: usize = 0;
            let mut used: usize = line.line_type.cols();
            proof {
                assert(subs_view(cur_subs@) =~= Seq::<SubStringModel>::empty());
            }
            let frags_len: usize = line.content.len();
            let mut string_idx: usize = 0;
            while string_idx < frags_len
                invariant
                    lines_len == report.lines@.len(),
                    report@.len() == report.lines@.len(),
                    line_idx < lines_len,
                    line == &report.lines[line_idx as int],
                    lm == line@,
                    frags_len == line.content@.len(),
                    string_idx <= frags_len,
                    cols <= 65534,
                    cols_n == cols as nat,
                    used <= cols + 4,
                    start == 0,
                    target == wrap_lines(
                        report@,
                        line_idx as int + 1,
                        finish_line(
                            wrap_fragments(
                                lm.content,
                                line_idx as int,
                                string_idx as int,
                                WrapState {
                                    done: sub_lines_view(sub_lines@),
                                    cur: subs_view(cur_subs@),
                                    start: start as int,
                                    used: used as nat,
                                },
                                cols_n,
                            ),
                            line_idx as int,
                        ),
                        cols_n,
                    ),
                    target == wrap_lines(report@, 0, Seq::empty(), cols_n),
                decreases frags_len - string_idx,
            {
                let frag = &line.content[string_idx];
                let ghost fm: FragmentModel = lm.content[string_idx as int];
                proof {
                    assert(lm.content == line.content@.map_values(|f: crate::report::Fragment| f@));
                    assert(fm == frag@);
                }
                let raw_len: usize = frag.raw.as_str().unicode_len();
                let mut j: usize = 0;
                while j < raw_len
                    invariant
                        lines_len == report.lines@.len(),
                        report@.len() == report.lines@.len(),
                        line_idx < lines_len,
                        line == &report.lines[line_idx as int],
                        lm == line@,
                        frags_len == line.content@.len(),
                        string_idx < frags_len,
                        frag == &line.content[string_idx as int],
                        fm == frag@,
                        raw_len as nat == fm.raw.len(),
                        j <= raw_len,
                        start <= j,
                        cols <= 65534,
                        cols_n == cols as nat,
                        used <= cols + 4,
                        target == wrap_lines(
                            report@,
                            line_idx as int + 1,
                            finish_line(
                                wrap_fragments(
                                    lm.content,
                                    line_idx as int,
                                    string_idx as int + 1,
                                    close_fragment(
                                        wrap_chars(
                                            fm.raw,
                                            line_idx as int,
                                            string_idx as int,
                                            j as int,
                                            WrapState {
                                                done: sub_lines_view(sub_lines@),
                                                cur: subs_view(cur_subs@),
                                                start: start as int,
                                                used: used as nat,
                                            },
                                            cols_n,
                                        ),
                                        string_idx as int,
                                        fm.raw.len() as int,
                                    ),
                                    cols_n,
                                ),
                                line_idx as int,
                            ),
                            cols_n,
                        ),
                        target == wrap_lines(report@, 0, Seq::empty(), cols_n),
                    decreases raw_len - j,
                {
                    let ghost st_before = WrapState {
                        done: sub_lines_view(sub_lines@),
                        cur: subs_view(cur_subs@),
                        start: start as int,
                        used: used as nat,
                    };
                    let c: char = frag.raw.as_str().get_char(j);
                    let w: usize = char_display_width(c);
                    proof {
                        assert(c == fm.raw[j as int]);
                        assert(w as nat == char_cols(fm.raw[j as int]));
                    }
                    if used + w > cols && used > 0 {
                        let closing = SubString {
                            string_idx,
                            char_start: start,
                            char_end: j,
                        };
                        proof {
                            lemma_subs_view_push(cur_subs@, closing);
                        }
                        let mut finished_subs = cur_subs;
                        finished_subs.push(closing);
                        cur_subs = Vec::new();
                        let finished = SubLine { line_idx, sub_strings: finished_subs };
                        proof {
                            lemma_sub_lines_view_push(sub_lines@, finished);
                            assert(subs_view(cur_subs@) =~= Seq::<SubStringModel>::empty());
                        }
                        sub_lines.push(finished);
                        start = j;
                        used = w;
                    } else {
                        used = used + w;
                    }
                    proof {
                        let st_after = WrapState {
                            done: sub_lines_view(sub_lines@),
                            cur: subs_view(cur_subs@),
                            start: start as int,
                            used: used as nat,
                        };
                        assert(st_after == step_char(
                            st_before,
                            line_idx as int,
                            string_idx as int,
                            j as int,
                            char_cols(fm.raw[j as int]),
                            cols_n,
                        ));
                    }
                    j = j + 1;
                }
                let closing = SubString {
                    string_idx,
                    char_start: start,
                    char_end: raw_len,
                };
                proof {
                    lemma_subs_view_push(cur_subs@, closing);
                }
                cur_subs.push(closing);
                start = 0;
                string_idx = string_idx + 1;
            }
            let finished = SubLine { line_idx, sub_strings: cur_subs };
            proof {
                lemma_sub_lines_view_push(sub_lines@, finished);
            }
            sub_lines.push(finished);
            line_idx = line_idx + 1;
        }
        proof {
            assert forall|g: int| 0 <= g < target.len() implies sub_line_wf(
                #[trigger] target[g],
                report@,
            ) by {
                crate::laws::lemma_wrap_report_wf(report@, width as int, 0, g);
            }
        }
        WrappedReport { sub_lines }
    }
}

impl SubString {
    /// Draw this slice: the fragment's style escape if it has one, the
    /// sliced raw text, then a style reset after styled text.
    pub fn draw(&self, w: &mut Sink, report: &Report, line_idx: usize) -> (r: Result<
        (),
        WriteError,
    >)
        requires
            line_idx < report@.len(),
            sub_string_wf(self@, report@[line_idx as int]),
        ensures
            old(w).is_buffer() ==> final(w).is_buffer() && final(w).buffer() == old(w).buffer()
                + drawn_slice_text(self@, report@[line_idx as int]) && r is Ok,
            !old(w).is_buffer() ==> !final(w).is_buffer(),
    {
        let ghost lm: LineModel = report@[line_idx as int];
        let line = &report.lines[line_idx];
        proof {
            assert(lm == line@);
        }
        let string = &line.content[self.string_idx];
        proof {
            assert(lm.content == line.content@.map_values(|f: crate::report::Fragment| f@));
            assert(string@ == lm.content[self@.string_idx]);
        }
        let slice = string.raw.as_str().substring_char(self.char_start, self.char_end);
        if string.csi.as_str().is_empty() {
            w.write_str(slice)
        } else {
            let r1 = w.write_str(string.csi.as_str());
            match r1 {
                Ok(()) => {},
                Err(e) => {
                    return Err(e);
                },
            }
            let r2 = w.write_str(slice);
            match r2 {
                Ok(()) => {},
                Err(e) => {
                    return Err(e);
                },
            }
            let r3 = w.write_str(CSI_RESET);
            proof {
                if old(w).is_buffer() {
                    assert(old(w).buffer() + (string.csi@ + slice@ + CSI_RESET@) =~= ((old(
                        w,
                    ).buffer() + string.csi@) + slice@) + CSI_RESET@);
                }
            }
            r3
        }
    }
}

impl SubLine {
    /// Whether this row is not the first one produced for its source line.
    /// Renderers use it to suppress repeating the left-margin decoration.
    pub fn is_continuation(&self) -> (r: bool)
        ensures
            r == self@.is_continuation(),
    {
        if self.sub_strings.len() == 0 {
            false
        } else {
            let head = &self.sub_strings[0];
            head.string_idx != 0 || head.char_start != 0
        }
    }

    /// The source line this row was cut from.
    pub fn src_line<'r>(&self, report: &'r Report) -> (l: &'r Line)
        requires
            self@.line_idx < report@.len(),
        ensures
            l@ == report@[self@.line_idx],
    {
        &report.lines[self.line_idx]
    }

    /// The semantic type of the source line.
    pub fn src_line_type(&self, report: &Report) -> (t: LineType)
        requires
            self@.line_idx < report@.len(),
        ensures
            t == report@[self@.line_idx].line_type,
    {
        report.lines[self.line_idx].line_type
    }

    /// The semantic type this row renders with: the source line's type on
    /// its first row, and the plain type on continuation rows, so the
    /// margin decoration is drawn once per source line.
    pub fn line_type(&self, report: &Report) -> (t: LineType)
        requires
            self@.line_idx < report@.len(),
        ensures
            t == if self@.is_continuation() {
                LineType::Normal
            } else {
                report@[self@.line_idx].line_type
            },
    {
        if self.is_continuation() {
            LineType::Normal
        } else {
            report.lines[self.line_idx].line_type
        }
    }

    /// Draw the margin decoration this row renders with.
    pub fn draw_line_type(&self, w: &mut Sink, report: &Report) -> (r: Result<(), WriteError>)
        requires
            self@.line_idx < report@.len(),
        ensures
            old(w).is_buffer() ==> final(w).is_buffer() && final(w).buffer() == old(w).buffer() + (
            if self@.is_continuation() {
                LineType::Normal
            } else {
                report@[self@.line_idx].line_type
            }).badge() && r is Ok,
            !old(w).is_buffer() ==> !final(w).is_buffer(),
    {
        let t = self.line_type(report);
        t.draw(w, report.lines[self.line_idx].item_idx)
    }

    /// Draw this row's text: each slice in order, with its styling.
    pub fn draw(&self, w: &mut Sink, report: &Report) -> (r: Result<(), WriteError>)
        requires
            sub_line_wf(self@, report@),
        ensures
            old(w).is_buffer() ==> final(w).is_buffer() && final(w).buffer() == old(w).buffer()
                + drawn_subs_text(self@.subs, report@[self@.line_idx]) && r is Ok,
            !old(w).is_buffer() ==> !final(w).is_buffer(),
    {
        let ghost lm: LineModel = report@[self@.line_idx];
        let n: usize = self.sub_strings.len();
        let mut idx: usize = 0;
        proof {
            assert(drawn_subs_text(self@.subs.take(0), lm) =~= Seq::<char>::empty());
            assert(self@.subs.take(0) =~= Seq::<SubStringModel>::empty());
            assert(old(w).buffer() + Seq::<char>::empty() =~= old(w).buffer());
        }
        while idx < n
            invariant
                n == self.sub_strings@.len(),
                idx <= n,
                lm == report@[self@.line_idx],
                sub_line_wf(self@, report@),
                old(w).is_buffer() ==> w.is_buffer() && w.buffer() == old(w).buffer()
                    + drawn_subs_text(self@.subs.take(idx as int), lm),
                !old(w).is_buffer() ==> !w.is_buffer(),
            decreases n - idx,
        {
            let ss = &self.sub_strings[idx];
            proof {
                assert(ss@ == self@.subs[idx as int]);
                assert(sub_string_wf(ss@, lm));
            }
            let rs = ss.draw(w, report, self.line_idx);
            match rs {
                Ok(()) => {},
                Err(e) => {
                    return Err(e);
                },
            }
            proof {
                let pre = self@.subs.take(idx as int);
                let now = self@.subs.take(idx as int + 1);
                assert(now.drop_last() =~= pre);
                assert(now.last() == self@.subs[idx as int]);
                assert((old(w).buffer() + drawn_subs_text(pre, lm)) + drawn_slice_text(
                    self@.subs[idx as int],
                    lm,
                ) =~= old(w).buffer() + drawn_subs_text(now, lm));
            }
            idx = idx + 1;
        }
        proof {
            assert(self@.subs.take(n as int) =~= self@.subs);
        }
        Ok(())
    }
}

} // verus!
