//! Proved laws of the wrap engine: reconstitution of each line's text,
//! respect of the column budget, absence of forced empty rows, correctness
//! of the continuation flag, and determinism of the computation.

use vstd::prelude::*;
use crate::char_cols;
use crate::report::FragmentModel;
use crate::report::LineModel;
use crate::wrap::block_text;
use crate::wrap::close_fragment;
use crate::wrap::drawn_slice_text;
use crate::wrap::drawn_subs_text;
use crate::wrap::frags_text_from;
use crate::wrap::has_oversized;
use crate::wrap::line_text;
use crate::wrap::slice_text;
use crate::wrap::starts_at_origin;
use crate::wrap::step_char;
use crate::wrap::sub_line_wf;
use crate::wrap::sub_string_wf;
use crate::wrap::subs_text;
use crate::wrap::subs_wf;
use crate::wrap::text_cols;
use crate::wrap::wrap_chars;
use crate::wrap::wrap_fragments;
use crate::wrap::wrap_line;
use crate::wrap::wrap_lines;
use crate::wrap::wrap_report;
use crate::wrap::SubLineModel;
use crate::wrap::SubStringModel;
use crate::wrap::WrapState;

verus! {

proof fn lemma_subs_text_push(subs: Seq<SubStringModel>, line: LineModel, x: SubStringModel)
    ensures
        subs_text(subs.push(x), line) == subs_text(subs, line) + slice_text(x, line),
{
    assert(subs.push(x).drop_last() =~= subs);
    assert(subs.push(x).last() == x);
}

proof fn lemma_block_text_push(block: Seq<SubLineModel>, line: LineModel, sl: SubLineModel)
    ensures
        block_text(block.push(sl), line) == block_text(block, line) + subs_text(sl.subs, line),
{
    assert(block.push(sl).drop_last() =~= block);
    assert(block.push(sl).last() == sl);
}

proof fn lemma_block_text_concat(a: Seq<SubLineModel>, b: Seq<SubLineModel>, line: LineModel)
    ensures
        block_text(a + b, line) == block_text(a, line) + block_text(b, line),
    decreases b.len(),
{
    if b.len() == 0 {
        assert(a + b =~= a);
        assert(block_text(b, line) + Seq::<char>::empty() =~= block_text(b, line));
        assert(block_text(a, line) + Seq::<char>::empty() =~= block_text(a, line));
    } else {
        lemma_block_text_concat(a, b.drop_last(), line);
        assert((a + b).drop_last() =~= a + b.drop_last());
        assert((a + b).last() == b.last());
        assert(block_text(a, line) + (block_text(b.drop_last(), line) + subs_text(
            b.last().subs,
            line,
        )) =~= (block_text(a, line) + block_text(b.drop_last(), line)) + subs_text(
            b.last().subs,
            line,
        ));
    }
}

proof fn lemma_text_cols_push(s: Seq<char>, c: char)
    ensures
        text_cols(s.push(c)) == text_cols(s) + char_cols(c),
{
    assert(s.push(c).drop_last() =~= s);
    assert(s.push(c).last() == c);
}

proof fn lemma_text_cols_single(c: char)
    ensures
        text_cols(seq![c]) == char_cols(c),
{
    assert(seq![c].drop_last() =~= Seq::<char>::empty());
    assert(seq![c].last() == c);
    assert(text_cols(Seq::<char>::empty()) == 0);
}

/// The sub-lines already emitted when a scan starts are carried through
/// unchanged: the scan of a fragment's characters only appends after them.
proof fn lemma_chars_prefix(
    raw: Seq<char>,
    li: int,
    k: int,
    j: int,
    st: WrapState,
    cols: nat,
)
    requires
        0 <= j <= raw.len(),
    ensures
        ({
            let r = wrap_chars(raw, li, k, j, st, cols);
            let r0 = wrap_chars(
                raw,
                li,
                k,
                j,
                WrapState { done: Seq::empty(), cur: st.cur, start: st.start, used: st.used },
                cols,
            );
            &&& r.done == st.done + r0.done
            &&& r.cur == r0.cur
            &&& r.start == r0.start
            &&& r.used == r0.used
        }),
    decreases raw.len() - j,
{
    let st0 = WrapState { done: Seq::empty(), cur: st.cur, start: st.start, used: st.used };
    if j >= raw.len() {
        assert(st.done + Seq::<SubLineModel>::empty() =~= st.done);
    } else {
        let w = char_cols(raw[j]);
        let st1 = step_char(st, li, k, j, w, cols);
        let st10 = step_char(st0, li, k, j, w, cols);
        lemma_chars_prefix(raw, li, k, j + 1, st1, cols);
        lemma_chars_prefix(raw, li, k, j + 1, st10, cols);
        assert(WrapState {
            done: Seq::empty(),
            cur: st1.cur,
            start: st1.start,
            used: st1.used,
        } == WrapState { done: Seq::empty(), cur: st10.cur, start: st10.start, used: st10.used });
        let q = wrap_chars(
            raw,
            li,
            k,
            j + 1,
            WrapState { done: Seq::empty(), cur: st1.cur, start: st1.start, used: st1.used },
            cols,
        );
        assert(st.done + st10.done =~= st1.done);
        assert(st.done + (st10.done + q.done) =~= (st.done + st10.done) + q.done);
    }
}

/// The same carrying-through, for the scan of a line's fragments.
proof fn lemma_fragments_prefix(
    frags: Seq<FragmentModel>,
    li: int,
    k: int,
    st: WrapState,
    cols: nat,
)
    requires
        0 <= k <= frags.len(),
    ensures
        ({
            let r = wrap_fragments(frags, li, k, st, cols);
            let r0 = wrap_fragments(
                frags,
                li,
                k,
                WrapState { done: Seq::empty(), cur: st.cur, start: st.start, used: st.used },
                cols,
            );
            &&& r.done == st.done + r0.done
            &&& r.cur == r0.cur
            &&& r.start == r0.start
            &&& r.used == r0.used
        }),
    decreases frags.len() - k,
{
    let st0 = WrapState { done: Seq::empty(), cur: st.cur, start: st.start, used: st.used };
    if k >= frags.len() {
        assert(st.done + Seq::<SubLineModel>::empty() =~= st.done);
    } else {
        let raw = frags[k].raw;
        lemma_chars_prefix(raw, li, k, 0, st, cols);
        let s1 = wrap_chars(raw, li, k, 0, st, cols);
        let s10 = wrap_chars(raw, li, k, 0, st0, cols);
        let c1 = close_fragment(s1, k, raw.len() as int);
        let c10 = close_fragment(s10, k, raw.len() as int);
        lemma_fragments_prefix(frags, li, k + 1, c1, cols);
        lemma_fragments_prefix(frags, li, k + 1, c10, cols);
        assert(WrapState {
            done: Seq::empty(),
            cur: c1.cur,
            start: c1.start,
            used: c1.used,
        } == WrapState { done: Seq::empty(), cur: c10.cur, start: c10.start, used: c10.used });
        let q = wrap_fragments(
            frags,
            li,
            k + 1,
            WrapState { done: Seq::empty(), cur: c1.cur, start: c1.start, used: c1.used },
            cols,
        );
        assert(st.done + c10.done =~= c1.done);
        assert(st.done + (c10.done + q.done) =~= (st.done + c10.done) + q.done);
    }
}

/// The text of the sub-line still open while fragment `k` is scanned at
/// character position `j`: its closed slices, then the open slice so far.
spec fn open_text(st: WrapState, line: LineModel, k: int, j: int) -> Seq<char> {
    subs_text(st.cur, line) + line.content[k].raw.subrange(st.start, j)
}

/// Whether the sub-line still open begins at the very start of its line.
spec fn open_origin(st: WrapState, k: int) -> bool {
    if st.cur.len() > 0 {
        st.cur[0].string_idx == 0 && st.cur[0].char_start == 0
    } else {
        k == 0 && st.start == 0
    }
}

/// The closed slices of the open sub-line all come from fragments before `k`.
spec fn cur_bounded(subs: Seq<SubStringModel>, k: int) -> bool {
    forall|q: int| 0 <= q < subs.len() ==> (#[trigger] subs[q]).string_idx < k
}

/// The invariants carried through the scan of one fragment's characters.
///
/// `base` is what the open sub-line consumes beyond its own text (the margin
/// seed, on the first sub-line of a line); `first` says whether the open
/// sub-line is the first produced for its line. The `budget` and `flagged`
/// switches select which families of hypotheses and conclusions are carried.
#[verifier::rlimit(100)]
proof fn lemma_wrap_chars_props(
    raw: Seq<char>,
    li: int,
    k: int,
    j: int,
    st: WrapState,
    cols: nat,
    line: LineModel,
    base: nat,
    first: bool,
    budget: bool,
    flagged: bool,
)
    requires
        0 <= k < line.content.len(),
        line.content[k].raw == raw,
        0 <= st.start <= j <= raw.len(),
        subs_wf(st.cur, line),
        cur_bounded(st.cur, k),
        budget ==> st.used == base + text_cols(open_text(st, line, k, j)),
        budget ==> (st.used <= cols || has_oversized(open_text(st, line, k, j), cols)),
        flagged ==> (first ==> open_origin(st, k)),
        flagged ==> (!first ==> !open_origin(st, k)),
        flagged ==> (first || open_text(st, line, k, j).len() > 0),
        flagged ==> ((first && open_text(st, line, k, j).len() == 0 && j < raw.len() && st.used
            > 0) ==> st.used + char_cols(raw[j]) <= cols),
    ensures
        ({
            let r = wrap_chars(raw, li, k, j, st, cols);
            let e = r.done.subrange(st.done.len() as int, r.done.len() as int);
            let base_r: nat = if e.len() > 0 { 0nat } else { base };
            let first_r: bool = first && e.len() == 0;
            &&& st.done.len() <= r.done.len()
            &&& r.done.subrange(0, st.done.len() as int) == st.done
            &&& 0 <= r.start <= raw.len()
            &&& subs_wf(r.cur, line)
            &&& cur_bounded(r.cur, k)
            &&& (e.len() == 0 ==> r.cur == st.cur && r.start == st.start)
            &&& block_text(e, line) + open_text(r, line, k, raw.len() as int) == open_text(
                st,
                line,
                k,
                j,
            ) + raw.subrange(j, raw.len() as int)
            &&& (forall|q: int| 0 <= q < e.len() ==> (#[trigger] e[q]).line_idx == li)
            &&& (forall|q: int| 0 <= q < e.len() ==> subs_wf((#[trigger] e[q]).subs, line))
            &&& (budget ==> r.used == base_r + text_cols(open_text(r, line, k, raw.len() as int)))
            &&& (budget ==> (r.used <= cols || has_oversized(
                open_text(r, line, k, raw.len() as int),
                cols,
            )))
            &&& (budget ==> forall|q: int|
                0 <= q < e.len() ==> ((if q == 0 {
                    base
                } else {
                    0nat
                }) + text_cols(subs_text((#[trigger] e[q]).subs, line)) <= cols || has_oversized(
                    subs_text(e[q].subs, line),
                    cols,
                )))
            &&& (flagged ==> (first_r ==> open_origin(r, k)))
            &&& (flagged ==> (!first_r ==> !open_origin(r, k)))
            &&& (flagged ==> (first_r || open_text(r, line, k, raw.len() as int).len() > 0))
            &&& (flagged ==> forall|q: int|
                0 <= q < e.len() ==> (starts_at_origin((#[trigger] e[q]).subs) <==> (q == 0
                    && first)))
            &&& (flagged ==> forall|q: int|
                0 <= q < e.len() ==> subs_text((#[trigger] e[q]).subs, line).len() > 0)
        }),
    decreases raw.len() - j,
{
    let r = wrap_chars(raw, li, k, j, st, cols);
    if j >= raw.len() {
        let e = r.done.subrange(st.done.len() as int, r.done.len() as int);
        assert(e =~= Seq::<SubLineModel>::empty());
        assert(r.done.subrange(0, st.done.len() as int) =~= st.done);
        assert(block_text(e, line) + open_text(r, line, k, raw.len() as int) =~= open_text(
            st,
            line,
            k,
            j,
        ) + raw.subrange(j, raw.len() as int));
    } else {
        let c = raw[j];
        let w = char_cols(c);
        let st1 = step_char(st, li, k, j, w, cols);
        let open_j = open_text(st, line, k, j);
        if st.used + w > cols && st.used > 0 {
            // a cut: the open sub-line is closed before character j
            let closed = SubStringModel { string_idx: k, char_start: st.start, char_end: j };
            let x = SubLineModel { line_idx: li, subs: st.cur.push(closed) };
            lemma_subs_text_push(st.cur, line, closed);
            assert(subs_text(x.subs, line) == open_j);
            if flagged && k == 0 && j == 0 {
                // impossible: this would cut an empty first sub-line at the
                // very start of the line, which the entry guard rules out
                if st.cur.len() > 0 {
                    assert(sub_string_wf(st.cur[0], line));
                    assert(st.cur[0].string_idx < 0);
                }
                assert(st.start == 0);
                assert(open_origin(st, 0));
                assert(first);
                assert(subs_text(st.cur, line).len() == 0);
                assert(open_j.len() == 0);
                assert(false);
            }
            if flagged && first && open_j.len() == 0 {
                // same guard: a cut cannot close an empty first sub-line
                assert(st.used + char_cols(raw[j]) <= cols);
                assert(false);
            }
            assert(raw.subrange(j, j + 1) =~= seq![c]);
            assert(subs_text(st1.cur, line) =~= Seq::<char>::empty());
            assert(open_text(st1, line, k, j + 1) =~= seq![c]);
            if budget {
                lemma_text_cols_single(c);
                if w > cols {
                    assert(open_text(st1, line, k, j + 1)[0] == c);
                }
            }
            lemma_wrap_chars_props(
                raw,
                li,
                k,
                j + 1,
                st1,
                cols,
                line,
                0nat,
                false,
                budget,
                flagged,
            );
            let e1 = r.done.subrange(st1.done.len() as int, r.done.len() as int);
            let e = r.done.subrange(st.done.len() as int, r.done.len() as int);
            assert(r.done.subrange(0, st1.done.len() as int) == st1.done);
            assert(r.done.subrange(0, st.done.len() as int) =~= st.done);
            assert(st1.done.len() == st.done.len() + 1);
            assert(r.done.len() >= st1.done.len());
            assert(st1.done[st.done.len() as int] == x);
            assert(r.done[st.done.len() as int] == r.done.subrange(
                0,
                st1.done.len() as int,
            )[st.done.len() as int]);
            assert(r.done[st.done.len() as int] == x);
            assert(e =~= seq![x] + e1);
            assert(e[0] == x);
            assert(forall|q: int| 1 <= q < e.len() ==> #[trigger] e[q] == e1[q - 1]);
            lemma_block_text_concat(seq![x], e1, line);
            assert(seq![x].drop_last() =~= Seq::<SubLineModel>::empty());
            assert(seq![x].last() == x);
            assert(Seq::<char>::empty() + subs_text(x.subs, line) =~= subs_text(x.subs, line));
            assert(block_text(Seq::<SubLineModel>::empty(), line) == Seq::<char>::empty());
            assert(block_text(seq![x], line) == open_j);
            // conservation: the closed text plus what the rest accounts for
            // is the open text plus the unscanned remainder
            let tail = open_text(r, line, k, raw.len() as int);
            assert(block_text(e1, line) + tail == open_text(st1, line, k, j + 1) + raw.subrange(
                j + 1,
                raw.len() as int,
            ));
            assert(open_j + (open_text(st1, line, k, j + 1) + raw.subrange(j + 1, raw.len() as int))
                =~= open_j + raw.subrange(j, raw.len() as int));
            assert(block_text(e, line) + tail =~= open_j + (open_text(st1, line, k, j + 1)
                + raw.subrange(j + 1, raw.len() as int)));
            if budget {
                assert forall|q: int| 0 <= q < e.len() implies ((if q == 0 {
                    base
                } else {
                    0nat
                }) + text_cols(subs_text((#[trigger] e[q]).subs, line)) <= cols || has_oversized(
                    subs_text(e[q].subs, line),
                    cols,
                )) by {
                    if q == 0 {
                        assert(e[q] == x);
                    } else {
                        assert(e[q] == e1[q - 1]);
                    }
                }
            }
            if flagged {
                assert(starts_at_origin(x.subs) <==> open_origin(st, k));
                assert forall|q: int| 0 <= q < e.len() implies (starts_at_origin(
                    (#[trigger] e[q]).subs,
                ) <==> (q == 0 && first)) by {
                    if q == 0 {
                        assert(e[q] == x);
                    } else {
                        assert(e[q] == e1[q - 1]);
                    }
                }
                assert forall|q: int| 0 <= q < e.len() implies subs_text(
                    (#[trigger] e[q]).subs,
                    line,
                ).len() > 0 by {
                    if q == 0 {
                        assert(e[q] == x);
                    } else {
                        assert(e[q] == e1[q - 1]);
                    }
                }
            }
            assert(forall|q: int| 0 <= q < e.len() ==> (#[trigger] e[q]).line_idx == li);
            assert(forall|q: int| 0 <= q < e.len() ==> subs_wf((#[trigger] e[q]).subs, line));
        } else {
            // the character is absorbed into the open sub-line
            assert(raw.subrange(st.start, j + 1) =~= raw.subrange(st.start, j).push(c));
            assert(open_text(st1, line, k, j + 1) =~= open_j.push(c));
            if budget {
                lemma_text_cols_push(open_j, c);
                if st.used == 0 && st.used + w > cols {
                    assert(open_text(st1, line, k, j + 1)[open_j.len() as int] == c);
                }
            }
            assert(open_j.push(c).len() > 0);
            lemma_wrap_chars_props(
                raw,
                li,
                k,
                j + 1,
                st1,
                cols,
                line,
                base,
                first,
                budget,
                flagged,
            );
            assert(open_j.push(c) + raw.subrange(j + 1, raw.len() as int) =~= open_j + raw.subrange(
                j,
                raw.len() as int,
            ));
        }
    }
}

/// The same invariants, carried through the scan of a line's fragments
/// from fragment `k` on.
#[verifier::rlimit(100)]
proof fn lemma_wrap_fragments_props(
    frags: Seq<FragmentModel>,
    li: int,
    k: int,
    st: WrapState,
    cols: nat,
    line: LineModel,
    base: nat,
    first: bool,
    budget: bool,
    flagged: bool,
)
    requires
        line.content == frags,
        0 <= k <= frags.len(),
        st.start == 0,
        subs_wf(st.cur, line),
        cur_bounded(st.cur, k),
        budget ==> st.used == base + text_cols(subs_text(st.cur, line)),
        budget ==> (st.used <= cols || has_oversized(subs_text(st.cur, line), cols)),
        flagged ==> (first ==> open_origin(st, k)),
        flagged ==> (!first ==> !open_origin(st, k)),
        flagged ==> (first || subs_text(st.cur, line).len() > 0),
        flagged ==> ((first && subs_text(st.cur, line).len() == 0 && st.used > 0
            && frags_text_from(frags, k).len() > 0) ==> st.used + char_cols(
            frags_text_from(frags, k)[0],
        ) <= cols),
    ensures
        ({
            let r = wrap_fragments(frags, li, k, st, cols);
            let e = r.done.subrange(st.done.len() as int, r.done.len() as int);
            let base_r: nat = if e.len() > 0 { 0nat } else { base };
            let first_r: bool = first && e.len() == 0;
            &&& st.done.len() <= r.done.len()
            &&& r.done.subrange(0, st.done.len() as int) == st.done
            &&& r.start == 0
            &&& subs_wf(r.cur, line)
            &&& cur_bounded(r.cur, frags.len() as int)
            &&& (k < frags.len() ==> r.cur.len() > 0)
            &&& block_text(e, line) + subs_text(r.cur, line) == subs_text(st.cur, line)
                + frags_text_from(frags, k)
            &&& (forall|q: int| 0 <= q < e.len() ==> (#[trigger] e[q]).line_idx == li)
            &&& (forall|q: int| 0 <= q < e.len() ==> subs_wf((#[trigger] e[q]).subs, line))
            &&& (budget ==> r.used == base_r + text_cols(subs_text(r.cur, line)))
            &&& (budget ==> (r.used <= cols || has_oversized(subs_text(r.cur, line), cols)))
            &&& (budget ==> forall|q: int|
                0 <= q < e.len() ==> ((if q == 0 {
                    base
                } else {
                    0nat
                }) + text_cols(subs_text((#[trigger] e[q]).subs, line)) <= cols || has_oversized(
                    subs_text(e[q].subs, line),
                    cols,
                )))
            &&& (flagged ==> (first_r ==> open_origin(r, frags.len() as int)))
            &&& (flagged ==> (!first_r ==> !open_origin(r, frags.len() as int)))
            &&& (flagged ==> (first_r || subs_text(r.cur, line).len() > 0))
            &&& (flagged ==> forall|q: int|
                0 <= q < e.len() ==> (starts_at_origin((#[trigger] e[q]).subs) <==> (q == 0
                    && first)))
            &&& (flagged ==> forall|q: int|
                0 <= q < e.len() ==> subs_text((#[trigger] e[q]).subs, line).len() > 0)
        }),
    decreases frags.len() - k,
{
    let r = wrap_fragments(frags, li, k, st, cols);
    if k >= frags.len() {
        let e = r.done.subrange(st.done.len() as int, r.done.len() as int);
        assert(e =~= Seq::<SubLineModel>::empty());
        assert(r.done.subrange(0, st.done.len() as int) =~= st.done);
        assert(block_text(e, line) + subs_text(r.cur, line) =~= subs_text(st.cur, line)
            + frags_text_from(frags, k));
    } else {
        let raw = frags[k].raw;
        assert(raw.subrange(0, 0) =~= Seq::<char>::empty());
        assert(open_text(st, line, k, 0) =~= subs_text(st.cur, line));
        assert(frags_text_from(frags, k) == raw + frags_text_from(frags, k + 1));
        if raw.len() > 0 {
            assert(frags_text_from(frags, k)[0] == raw[0]);
        }
        lemma_wrap_chars_props(raw, li, k, 0, st, cols, line, base, first, budget, flagged);
        let r1 = wrap_chars(raw, li, k, 0, st, cols);
        let e1 = r1.done.subrange(st.done.len() as int, r1.done.len() as int);
        let open_end = open_text(r1, line, k, raw.len() as int);
        let closed = SubStringModel {
            string_idx: k,
            char_start: r1.start,
            char_end: raw.len() as int,
        };
        let st2 = close_fragment(r1, k, raw.len() as int);
        lemma_subs_text_push(r1.cur, line, closed);
        assert(slice_text(closed, line) == raw.subrange(r1.start, raw.len() as int));
        assert(subs_text(st2.cur, line) == open_end);
        assert(sub_string_wf(closed, line));
        assert forall|q: int| 0 <= q < st2.cur.len() implies sub_string_wf(
            #[trigger] st2.cur[q],
            line,
        ) && st2.cur[q].string_idx < k + 1 by {
            if q < r1.cur.len() {
                assert(st2.cur[q] == r1.cur[q]);
            } else {
                assert(st2.cur[q] == closed);
            }
        }
        let base2: nat = if e1.len() > 0 { 0nat } else { base };
        let first2: bool = first && e1.len() == 0;
        if flagged {
            if r1.cur.len() > 0 {
                assert(st2.cur[0] == r1.cur[0]);
            } else {
                assert(st2.cur[0] == closed);
            }
            assert(open_origin(st2, k + 1) == open_origin(r1, k));
            if first2 && subs_text(st2.cur, line).len() == 0 && st2.used > 0 && frags_text_from(
                frags,
                k + 1,
            ).len() > 0 {
                assert(r1.cur == st.cur && r1.start == 0);
                assert(raw.subrange(0, raw.len() as int).len() == 0);
                assert(raw.len() == 0);
                assert(r1 == st);
                assert(frags_text_from(frags, k) =~= frags_text_from(frags, k + 1));
            }
        }
        lemma_wrap_fragments_props(
            frags,
            li,
            k + 1,
            st2,
            cols,
            line,
            base2,
            first2,
            budget,
            flagged,
        );
        let e2 = r.done.subrange(st2.done.len() as int, r.done.len() as int);
        let e = r.done.subrange(st.done.len() as int, r.done.len() as int);
        assert(r.done.subrange(0, st2.done.len() as int) == st2.done);
        assert(st2.done == r1.done);
        assert(st.done.len() <= r1.done.len() <= r.done.len());
        assert(r.done.subrange(0, st.done.len() as int) =~= st.done);
        assert forall|q: int| 0 <= q < e1.len() implies #[trigger] e1[q] == r.done[st.done.len()
            + q] by {
            assert(e1[q] == r1.done[st.done.len() + q]);
            assert(r1.done[st.done.len() + q] == r.done.subrange(0, st2.done.len() as int)[
                st.done.len() + q]);
        }
        assert(e =~= e1 + e2);
        lemma_block_text_concat(e1, e2, line);
        assert(block_text(e, line) == block_text(e1, line) + block_text(e2, line));
        // conservation: chain the two scans and the closed slice
        assert(raw.subrange(0, raw.len() as int) =~= raw);
        assert(block_text(e1, line) + open_end == subs_text(st.cur, line) + raw);
        assert(block_text(e2, line) + subs_text(r.cur, line) == subs_text(st2.cur, line)
            + frags_text_from(frags, k + 1));
        assert((block_text(e1, line) + block_text(e2, line)) + subs_text(r.cur, line)
            =~= block_text(e1, line) + (block_text(e2, line) + subs_text(r.cur, line)));
        assert(block_text(e1, line) + (open_end + frags_text_from(frags, k + 1)) =~= (block_text(
            e1,
            line,
        ) + open_end) + frags_text_from(frags, k + 1));
        assert((subs_text(st.cur, line) + raw) + frags_text_from(frags, k + 1) =~= subs_text(
            st.cur,
            line,
        ) + frags_text_from(frags, k));
        // the properties of the emitted sub-lines, joined over both parts
        assert forall|q: int| 0 <= q < e.len() implies (#[trigger] e[q]).line_idx == li
            && subs_wf(e[q].subs, line) by {
            if q < e1.len() {
                assert(e[q] == e1[q]);
            } else {
                assert(e[q] == e2[q - e1.len()]);
            }
        }
        if budget {
            assert forall|q: int| 0 <= q < e.len() implies ((if q == 0 {
                base
            } else {
                0nat
            }) + text_cols(subs_text((#[trigger] e[q]).subs, line)) <= cols || has_oversized(
                subs_text(e[q].subs, line),
                cols,
            )) by {
                if q < e1.len() {
                    assert(e[q] == e1[q]);
                } else {
                    assert(e[q] == e2[q - e1.len()]);
                }
            }
        }
        if flagged {
            assert forall|q: int| 0 <= q < e.len() implies (starts_at_origin(
                (#[trigger] e[q]).subs,
            ) <==> (q == 0 && first)) by {
                if q < e1.len() {
                    assert(e[q] == e1[q]);
                } else {
                    assert(e[q] == e2[q - e1.len()]);
                }
            }
            assert forall|q: int| 0 <= q < e.len() implies subs_text(
                (#[trigger] e[q]).subs,
                line,
            ).len() > 0 by {
                if q < e1.len() {
                    assert(e[q] == e1[q]);
                } else {
                    assert(e[q] == e2[q - e1.len()]);
                }
            }
        }
    }
}

/// The sub-lines of one line, on their own: what [`wrap_line`] appends.
pub open spec fn line_block(line: LineModel, li: int, cols: nat) -> Seq<SubLineModel> {
    wrap_line(line, li, Seq::empty(), cols)
}

/// Wrapping a line appends its block after what was already emitted.
proof fn lemma_line_prefix(line: LineModel, li: int, done: Seq<SubLineModel>, cols: nat)
    ensures
        wrap_line(line, li, done, cols) == done + line_block(line, li, cols),
{
    let st = WrapState { done, cur: Seq::empty(), start: 0, used: line.line_type.cols_spec() };
    lemma_fragments_prefix(line.content, li, 0, st, cols);
    let st0 = WrapState { done: Seq::empty(), cur: st.cur, start: st.start, used: st.used };
    let r = wrap_fragments(line.content, li, 0, st, cols);
    let r0 = wrap_fragments(line.content, li, 0, st0, cols);
    assert(wrap_line(line, li, done, cols) == r.done.push(
        SubLineModel { line_idx: li, subs: r.cur },
    ));
    assert((done + r0.done).push(SubLineModel { line_idx: li, subs: r0.cur }) =~= done + (
    r0.done.push(SubLineModel { line_idx: li, subs: r0.cur })));
}

/// A line's margin does not overflow the budget; needed for the budget law.
pub open spec fn margin_fits(line: LineModel, cols: nat) -> bool {
    line.line_type.cols_spec() <= cols
}

/// The margin leaves room for the line's first character; without this a
/// line whose margin nearly fills the budget is cut before any character,
/// producing an empty first row whose follower looks like a line start.
pub open spec fn margin_leaves_room(line: LineModel, cols: nat) -> bool {
    ||| line.line_type.cols_spec() == 0
    ||| line_text(line).len() == 0
    ||| line.line_type.cols_spec() + char_cols(line_text(line)[0]) <= cols
}

/// All invariants, carried over one whole line.
#[verifier::rlimit(100)]
proof fn lemma_wrap_line_props(
    line: LineModel,
    li: int,
    done: Seq<SubLineModel>,
    cols: nat,
    budget: bool,
    flagged: bool,
)
    requires
        budget ==> margin_fits(line, cols),
        flagged ==> margin_leaves_room(line, cols),
    ensures
        ({
            let out = wrap_line(line, li, done, cols);
            let e = out.subrange(done.len() as int, out.len() as int);
            &&& done.len() < out.len()
            &&& out.subrange(0, done.len() as int) == done
            &&& e.len() >= 1
            &&& block_text(e, line) == line_text(line)
            &&& (forall|q: int| 0 <= q < e.len() ==> (#[trigger] e[q]).line_idx == li)
            &&& (forall|q: int| 0 <= q < e.len() ==> subs_wf((#[trigger] e[q]).subs, line))
            &&& (budget ==> forall|q: int|
                0 <= q < e.len() ==> ((if q == 0 {
                    line.line_type.cols_spec()
                } else {
                    0nat
                }) + text_cols(subs_text((#[trigger] e[q]).subs, line)) <= cols || has_oversized(
                    subs_text(e[q].subs, line),
                    cols,
                )))
            &&& (flagged ==> forall|q: int|
                0 <= q < e.len() ==> (starts_at_origin((#[trigger] e[q]).subs) <==> q == 0))
            &&& (flagged ==> (line_text(line).len() > 0 ==> forall|q: int|
                0 <= q < e.len() ==> subs_text((#[trigger] e[q]).subs, line).len() > 0))
        }),
{
    let seed = line.line_type.cols_spec();
    let st0 = WrapState { done, cur: Seq::empty(), start: 0, used: seed };
    assert(subs_text(st0.cur, line) =~= Seq::<char>::empty());
    assert(text_cols(Seq::<char>::empty()) == 0);
    assert(frags_text_from(line.content, 0) == line_text(line));
    lemma_wrap_fragments_props(
        line.content,
        li,
        0,
        st0,
        cols,
        line,
        seed,
        true,
        budget,
        flagged,
    );
    let r = wrap_fragments(line.content, li, 0, st0, cols);
    let ef = r.done.subrange(done.len() as int, r.done.len() as int);
    let fin = SubLineModel { line_idx: li, subs: r.cur };
    let out = wrap_line(line, li, done, cols);
    assert(out == r.done.push(fin));
    let e = out.subrange(done.len() as int, out.len() as int);
    assert(out.subrange(0, done.len() as int) =~= done);
    assert(e =~= ef.push(fin));
    assert(e[e.len() - 1] == fin);
    assert(forall|q: int| 0 <= q < ef.len() ==> #[trigger] e[q] == ef[q]);
    lemma_block_text_push(ef, line, fin);
    assert(block_text(ef, line) + subs_text(r.cur, line) == subs_text(st0.cur, line)
        + frags_text_from(line.content, 0));
    assert(Seq::<char>::empty() + line_text(line) =~= line_text(line));
    assert(block_text(e, line) == line_text(line));
    let base_r: nat = if ef.len() > 0 { 0nat } else { seed };
    let first_r: bool = ef.len() == 0;
    if flagged {
        // the final, still-open sub-line starts at the line's origin exactly
        // when nothing was emitted before it
        if line.content.len() == 0 {
            assert(r == st0);
            assert(starts_at_origin(fin.subs));
            assert(e.len() == 1);
        } else {
            assert(r.cur.len() > 0);
            assert(starts_at_origin(fin.subs) == open_origin(r, line.content.len() as int));
        }
        assert(starts_at_origin(fin.subs) <==> first_r);
        assert forall|q: int| 0 <= q < e.len() implies (starts_at_origin(
            (#[trigger] e[q]).subs,
        ) <==> q == 0) by {
            if q < ef.len() {
                assert(e[q] == ef[q]);
            } else {
                assert(e[q] == fin);
                assert(q == 0 <==> ef.len() == 0);
            }
        }
        if line_text(line).len() > 0 {
            assert forall|q: int| 0 <= q < e.len() implies subs_text(
                (#[trigger] e[q]).subs,
                line,
            ).len() > 0 by {
                if q < ef.len() {
                    assert(e[q] == ef[q]);
                } else {
                    assert(e[q] == fin);
                    if first_r {
                        assert(ef =~= Seq::<SubLineModel>::empty());
                        assert(block_text(ef, line) == Seq::<char>::empty());
                        assert(Seq::<char>::empty() + subs_text(r.cur, line) =~= subs_text(
                            r.cur,
                            line,
                        ));
                    }
                }
            }
        }
    }
    if budget {
        assert forall|q: int| 0 <= q < e.len() implies ((if q == 0 {
            seed
        } else {
            0nat
        }) + text_cols(subs_text((#[trigger] e[q]).subs, line)) <= cols || has_oversized(
            subs_text(e[q].subs, line),
            cols,
        )) by {
            if q < ef.len() {
                assert(e[q] == ef[q]);
            } else {
                assert(e[q] == fin);
                assert(r.used == base_r + text_cols(subs_text(r.cur, line)));
                assert(q == 0 <==> ef.len() == 0);
            }
        }
    }
    assert forall|q: int| 0 <= q < e.len() implies (#[trigger] e[q]).line_idx == li && subs_wf(
        e[q].subs,
        line,
    ) by {
        if q < ef.len() {
            assert(e[q] == ef[q]);
        } else {
            assert(e[q] == fin);
        }
    }
}

/// Wrapping the lines from `i` on appends their blocks, line by line.
proof fn lemma_lines_prefix(
    lines: Seq<LineModel>,
    i: int,
    done: Seq<SubLineModel>,
    cols: nat,
)
    requires
        0 <= i <= lines.len(),
    ensures
        wrap_lines(lines, i, done, cols) == done + wrap_lines(lines, i, Seq::empty(), cols),
    decreases lines.len() - i,
{
    if i >= lines.len() {
        assert(done + Seq::<SubLineModel>::empty() =~= done);
    } else {
        lemma_line_prefix(lines[i], i, done, cols);
        lemma_line_prefix(lines[i], i, Seq::empty(), cols);
        assert(Seq::<SubLineModel>::empty() + line_block(lines[i], i, cols) =~= line_block(
            lines[i],
            i,
            cols,
        ));
        lemma_lines_prefix(lines, i + 1, done + line_block(lines[i], i, cols), cols);
        lemma_lines_prefix(lines, i + 1, line_block(lines[i], i, cols), cols);
        assert((done + line_block(lines[i], i, cols)) + wrap_lines(
            lines,
            i + 1,
            Seq::empty(),
            cols,
        ) =~= done + (line_block(lines[i], i, cols) + wrap_lines(lines, i + 1, Seq::empty(), cols)));
    }
}

/// The sub-lines a wrapped sequence holds for source line `i`, in their
/// production order.
pub open spec fn sub_lines_of(ws: Seq<SubLineModel>, i: int) -> Seq<SubLineModel> {
    ws.filter(|sl: SubLineModel| sl.line_idx == i)
}

proof fn lemma_filter_all(s: Seq<SubLineModel>, p: spec_fn(SubLineModel) -> bool)
    requires
        forall|q: int| 0 <= q < s.len() ==> p(#[trigger] s[q]),
    ensures
        s.filter(p) == s,
    decreases s.len(),
{
    reveal(Seq::filter);
    if s.len() == 0 {
        assert(s.filter(p) =~= s);
    } else {
        lemma_filter_all(s.drop_last(), p);
        assert(p(s.last()));
        assert(s.drop_last().push(s.last()) =~= s);
    }
}

proof fn lemma_filter_none(s: Seq<SubLineModel>, p: spec_fn(SubLineModel) -> bool)
    requires
        forall|q: int| 0 <= q < s.len() ==> !p(#[trigger] s[q]),
    ensures
        s.filter(p) == Seq::<SubLineModel>::empty(),
    decreases s.len(),
{
    reveal(Seq::filter);
    if s.len() == 0 {
        assert(s.filter(p) =~= Seq::<SubLineModel>::empty());
    } else {
        lemma_filter_none(s.drop_last(), p);
        assert(!p(s.last()));
    }
}

/// Within a wrapped report, the sub-lines of source line `m` are exactly
/// the block that wrapping line `m` alone appends.
proof fn lemma_wrap_lines_filter(lines: Seq<LineModel>, i: int, cols: nat, m: int)
    requires
        0 <= i <= lines.len(),
    ensures
        ({
            let ws = wrap_lines(lines, i, Seq::empty(), cols);
            sub_lines_of(ws, m) == if i <= m < lines.len() {
                line_block(lines[m], m, cols)
            } else {
                Seq::<SubLineModel>::empty()
            }
        }),
    decreases lines.len() - i,
{
    let p = |sl: SubLineModel| sl.line_idx == m;
    let ws = wrap_lines(lines, i, Seq::empty(), cols);
    if i >= lines.len() {
        lemma_filter_none(ws, p);
    } else {
        let block = line_block(lines[i], i, cols);
        let rest = wrap_lines(lines, i + 1, Seq::empty(), cols);
        lemma_line_prefix(lines[i], i, Seq::empty(), cols);
        assert(Seq::<SubLineModel>::empty() + block =~= block);
        lemma_lines_prefix(lines, i + 1, block, cols);
        assert(ws == block + rest);
        Seq::filter_distributes_over_add(block, rest, p);
        lemma_wrap_lines_filter(lines, i + 1, cols, m);
        lemma_wrap_line_props(lines[i], i, Seq::empty(), cols, false, false);
        assert(block.subrange(0, block.len() as int) =~= block);
        assert(forall|q: int| 0 <= q < block.len() ==> (#[trigger] block[q]).line_idx == i);
        if m == i {
            lemma_filter_all(block, p);
            assert(block + rest.filter(p) =~= block);
        } else {
            lemma_filter_none(block, p);
            assert(Seq::<SubLineModel>::empty() + rest.filter(p) =~= rest.filter(p));
        }
    }
}

/// Every sub-line of a wrapped report points into the report: at one of its
/// lines, one of that line's fragments, and a character range of its text.
pub proof fn lemma_wrap_report_wf(lines: Seq<LineModel>, width: int, i: int, g: int)
    requires
        1 <= width,
        0 <= i <= lines.len(),
        ({
            let ws = wrap_lines(lines, i, Seq::empty(), (width - 1) as nat);
            0 <= g < ws.len()
        }),
    ensures
        ({
            let ws = wrap_lines(lines, i, Seq::empty(), (width - 1) as nat);
            sub_line_wf(ws[g], lines)
        }),
    decreases lines.len() - i,
{
    let cols = (width - 1) as nat;
    let ws = wrap_lines(lines, i, Seq::empty(), cols);
    if i >= lines.len() {
        assert(false);
    } else {
        let block = line_block(lines[i], i, cols);
        let rest = wrap_lines(lines, i + 1, Seq::empty(), cols);
        lemma_line_prefix(lines[i], i, Seq::empty(), cols);
        assert(Seq::<SubLineModel>::empty() + block =~= block);
        lemma_lines_prefix(lines, i + 1, block, cols);
        assert(ws == block + rest);
        lemma_wrap_line_props(lines[i], i, Seq::empty(), cols, false, false);
        assert(block.subrange(0, block.len() as int) =~= block);
        if g < block.len() {
            assert(ws[g] == block[g]);
            assert(block[g].line_idx == i);
            assert(subs_wf(block[g].subs, lines[i]));
        } else {
            assert(ws[g] == rest[g - block.len()]);
            lemma_wrap_report_wf(lines, width, i + 1, g - block.len());
        }
    }
}

/// Reconstitution: for any report and width, the slices of all sub-lines
/// produced for one source line, taken in production order, concatenate to
/// exactly that line's full text: no characters dropped, none repeated.
pub proof fn lemma_reconstitution(lines: Seq<LineModel>, width: int, i: int)
    requires
        1 <= width,
        0 <= i < lines.len(),
    ensures
        block_text(sub_lines_of(wrap_report(lines, width), i), lines[i]) == line_text(lines[i]),
{
    let cols = (width - 1) as nat;
    lemma_wrap_lines_filter(lines, 0, cols, i);
    lemma_wrap_line_props(lines[i], i, Seq::empty(), cols, false, false);
    let block = line_block(lines[i], i, cols);
    assert(block.subrange(0, block.len() as int) =~= block);
}

/// Budget respected: every sub-line's text, with the line's margin counted
/// on the first sub-line of the line, fits within `width - 1` columns —
/// except when one single character is wider than the whole budget.
pub proof fn lemma_budget_respected(lines: Seq<LineModel>, width: int, i: int, q: int)
    requires
        1 <= width,
        0 <= i < lines.len(),
        margin_fits(lines[i], (width - 1) as nat),
        0 <= q < sub_lines_of(wrap_report(lines, width), i).len(),
    ensures
        ({
            let line = lines[i];
            let sl = sub_lines_of(wrap_report(lines, width), i)[q];
            let cols = (width - 1) as nat;
            (if q == 0 {
                line.line_type.cols_spec()
            } else {
                0nat
            }) + text_cols(subs_text(sl.subs, line)) <= cols || has_oversized(
                subs_text(sl.subs, line),
                cols,
            )
        }),
{
    let cols = (width - 1) as nat;
    lemma_wrap_lines_filter(lines, 0, cols, i);
    lemma_wrap_line_props(lines[i], i, Seq::empty(), cols, true, false);
    let block = line_block(lines[i], i, cols);
    assert(block.subrange(0, block.len() as int) =~= block);
}

/// No forced empty break: if a source line has any text at all, none of its
/// sub-lines is empty, provided its margin leaves room for its first
/// character.
pub proof fn lemma_no_forced_empty_break(lines: Seq<LineModel>, width: int, i: int, q: int)
    requires
        1 <= width,
        0 <= i < lines.len(),
        margin_leaves_room(lines[i], (width - 1) as nat),
        line_text(lines[i]).len() > 0,
        0 <= q < sub_lines_of(wrap_report(lines, width), i).len(),
    ensures
        subs_text(sub_lines_of(wrap_report(lines, width), i)[q].subs, lines[i]).len() > 0,
{
    let cols = (width - 1) as nat;
    lemma_wrap_lines_filter(lines, 0, cols, i);
    lemma_wrap_line_props(lines[i], i, Seq::empty(), cols, false, true);
    let block = line_block(lines[i], i, cols);
    assert(block.subrange(0, block.len() as int) =~= block);
}

/// Continuation flag correctness: a sub-line reads as a continuation
/// exactly when it is not the first one produced for its source line,
/// provided the line's margin leaves room for its first character.
pub proof fn lemma_continuation_flag(lines: Seq<LineModel>, width: int, i: int, q: int)
    requires
        1 <= width,
        0 <= i < lines.len(),
        margin_leaves_room(lines[i], (width - 1) as nat),
        0 <= q < sub_lines_of(wrap_report(lines, width), i).len(),
    ensures
        sub_lines_of(wrap_report(lines, width), i)[q].is_continuation() <==> q != 0,
{
    let cols = (width - 1) as nat;
    lemma_wrap_lines_filter(lines, 0, cols, i);
    lemma_wrap_line_props(lines[i], i, Seq::empty(), cols, false, true);
    let block = line_block(lines[i], i, cols);
    assert(block.subrange(0, block.len() as int) =~= block);
    assert(block[q].is_continuation() == !starts_at_origin(block[q].subs));
}

proof fn lemma_continuation_flag_rec(lines: Seq<LineModel>, cols: nat, i: int, g: int)
    requires
        0 <= i <= lines.len(),
        forall|m: int| 0 <= m < lines.len() ==> margin_leaves_room(#[trigger] lines[m], cols),
        ({
            let ws = wrap_lines(lines, i, Seq::empty(), cols);
            0 <= g < ws.len()
        }),
    ensures
        ({
            let ws = wrap_lines(lines, i, Seq::empty(), cols);
            &&& i <= ws[g].line_idx < lines.len()
            &&& (ws[g].is_continuation() <==> exists|h: int|
                0 <= h < g && (#[trigger] ws[h]).line_idx == ws[g].line_idx)
        }),
    decreases lines.len() - i,
{
    let ws = wrap_lines(lines, i, Seq::empty(), cols);
    if i >= lines.len() {
        assert(false);
    } else {
        let block = line_block(lines[i], i, cols);
        let rest = wrap_lines(lines, i + 1, Seq::empty(), cols);
        lemma_line_prefix(lines[i], i, Seq::empty(), cols);
        assert(Seq::<SubLineModel>::empty() + block =~= block);
        lemma_lines_prefix(lines, i + 1, block, cols);
        assert(ws == block + rest);
        lemma_wrap_line_props(lines[i], i, Seq::empty(), cols, false, true);
        assert(block.subrange(0, block.len() as int) =~= block);
        assert(forall|q: int| 0 <= q < block.len() ==> (#[trigger] block[q]).line_idx == i);
        if g < block.len() {
            assert(ws[g] == block[g]);
            assert(ws[g].is_continuation() == !starts_at_origin(block[g].subs));
            if g == 0 {
                assert(!ws[g].is_continuation());
            } else {
                assert(ws[g].is_continuation());
                assert(ws[0] == block[0]);
                assert(0 <= 0 < g && ws[0].line_idx == ws[g].line_idx);
            }
        } else {
            let gr = g - block.len();
            assert(ws[g] == rest[gr]);
            lemma_continuation_flag_rec(lines, cols, i + 1, gr);
            if ws[g].is_continuation() {
                let hr = choose|hr: int|
                    0 <= hr < gr && (#[trigger] rest[hr]).line_idx == rest[gr].line_idx;
                assert(ws[block.len() + hr] == rest[hr]);
                assert(0 <= block.len() + hr < g && ws[block.len() + hr].line_idx == ws[
                    g].line_idx);
            }
            if exists|h: int| 0 <= h < g && (#[trigger] ws[h]).line_idx == ws[g].line_idx {
                let h = choose|h: int|
                    0 <= h < g && (#[trigger] ws[h]).line_idx == ws[g].line_idx;
                if h < block.len() {
                    assert(ws[h] == block[h]);
                    assert(ws[h].line_idx == i);
                    assert(i + 1 <= ws[g].line_idx);
                    assert(false);
                } else {
                    assert(ws[h] == rest[h - block.len()]);
                    assert(ws[g].is_continuation());
                }
            }
        }
    }
}

/// Continuation flag, over the whole wrapped report: a sub-line reads as a
/// continuation exactly when some earlier sub-line came from the same
/// source line, provided every line's margin leaves room for its first
/// character.
pub proof fn lemma_continuation_flag_global(lines: Seq<LineModel>, width: int, g: int)
    requires
        1 <= width,
        forall|m: int| 0 <= m < lines.len() ==> margin_leaves_room(
            #[trigger] lines[m],
            (width - 1) as nat,
        ),
        0 <= g < wrap_report(lines, width).len(),
    ensures
        ({
            let ws = wrap_report(lines, width);
            ws[g].is_continuation() <==> exists|h: int|
                0 <= h < g && (#[trigger] ws[h]).line_idx == ws[g].line_idx
        }),
{
    lemma_continuation_flag_rec(lines, (width - 1) as nat, 0, g);
}

/// Over unstyled fragments, what a sub-line draws is exactly its raw slice
/// text: drawing adds nothing but style escapes, so the reconstitution law
/// also describes the drawn output once those escapes are ignored.
#[verifier::rlimit(100)]
pub proof fn lemma_unstyled_drawn_text(subs: Seq<SubStringModel>, line: LineModel)
    requires
        subs_wf(subs, line),
        forall|k: int| 0 <= k < line.content.len() ==> (#[trigger] line.content[k]).csi.len()
            == 0,
    ensures
        drawn_subs_text(subs, line) == subs_text(subs, line),
    decreases subs.len(),
{
    if subs.len() > 0 {
        assert forall|q: int| 0 <= q < subs.drop_last().len() implies sub_string_wf(
            #[trigger] subs.drop_last()[q],
            line,
        ) by {
            assert(subs.drop_last()[q] == subs[q]);
        }
        lemma_unstyled_drawn_text(subs.drop_last(), line);
        assert(sub_string_wf(subs.last(), line));
        assert(drawn_slice_text(subs.last(), line) == slice_text(subs.last(), line));
    }
}

/// Idempotent rebuild: the wrapped form is a pure function of the report
/// and the width, so two computations from the same pair are structurally
/// identical.
pub proof fn lemma_idempotent_rebuild(
    lines: Seq<LineModel>,
    width: int,
    a: Seq<SubLineModel>,
    b: Seq<SubLineModel>,
)
    requires
        a == wrap_report(lines, width),
        b == wrap_report(lines, width),
    ensures
        a == b,
{
}

} // verus!
