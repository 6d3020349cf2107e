//! The three semantic streams of a page: transliteration runs (Source),
//! hexadecimal code-label runs (Code) and glyph instructions (Graph),
//! extracted from the classified instruction list by gap-bounded run
//! clustering.
use vstd::prelude::*;

use crate::parse::digits_value;
use crate::parse::entry_views;
use crate::parse::hex_codepoint_valid;
use crate::parse::instr_views;
use crate::parse::InstrModel;
use crate::parse::Instruction;
use crate::ChartError;
use crate::CODE_SIGNATURE;
use crate::SOURCE_SIGNATURE;

verus! {

/// Absolute difference.
pub open spec fn dist(a: int, b: int) -> int {
    if a >= b {
        a - b
    } else {
        b - a
    }
}

pub open spec fn int_min(a: int, b: int) -> int {
    if a <= b {
        a
    } else {
        b
    }
}

pub open spec fn int_max(a: int, b: int) -> int {
    if a >= b {
        a
    } else {
        b
    }
}

/// Instructions whose horizontal scale equals the signature `sig`.
pub open spec fn scale_filter(s: Seq<InstrModel>, sig: int) -> Seq<InstrModel> {
    s.filter(|e: InstrModel| e.scale() == sig)
}

/// A new run starts at element `i` when the vertical position changes or the
/// horizontal gap to the previous element exceeds the threshold `t`.
pub open spec fn run_break(s: Seq<InstrModel>, t: int, i: int) -> bool {
    s[i].y() != s[i - 1].y() || dist(s[i].x(), s[i - 1].x()) > t
}

/// Concatenated text of the elements of `s` between `a` and `b`.
pub open spec fn seg_text(s: Seq<InstrModel>, a: int, b: int) -> Seq<char>
    decreases b - a,
{
    if a >= b {
        Seq::empty()
    } else {
        seg_text(s, a, b - 1) + s[b - 1].text
    }
}

/// Least horizontal position among the elements of `s` between `a` and `b`.
pub open spec fn seg_xmin(s: Seq<InstrModel>, a: int, b: int) -> int
    decreases b - a,
{
    if a + 1 >= b {
        s[a].x()
    } else {
        int_min(seg_xmin(s, a, b - 1), s[b - 1].x())
    }
}

/// Greatest horizontal position among the elements of `s` between `a` and `b`.
pub open spec fn seg_xmax(s: Seq<InstrModel>, a: int, b: int) -> int
    decreases b - a,
{
    if a + 1 >= b {
        s[a].x()
    } else {
        int_max(seg_xmax(s, a, b - 1), s[b - 1].x())
    }
}

/// Appending an element beyond `b` changes no segment aggregate over `[a, b)`.
pub proof fn lemma_seg_push(s: Seq<InstrModel>, e: InstrModel, a: int, b: int)
    requires
        0 <= a,
        b <= s.len(),
    ensures
        seg_text(s.push(e), a, b) == seg_text(s, a, b),
        a < b ==> seg_xmin(s.push(e), a, b) == seg_xmin(s, a, b),
        a < b ==> seg_xmax(s.push(e), a, b) == seg_xmax(s, a, b),
    decreases b - a,
{
    if a < b {
        lemma_seg_push(s, e, a, b - 1);
        assert(s.push(e)[b - 1] == s[b - 1]);
        assert(seg_text(s.push(e), a, b) == seg_text(s.push(e), a, b - 1) + s.push(e)[b
            - 1].text);
        assert(seg_text(s, a, b) == seg_text(s, a, b - 1) + s[b - 1].text);
        if a + 1 >= b {
            assert(s.push(e)[a] == s[a]);
        }
    }
}

/// A transliteration run: its text and the bounds of its positions.
pub ghost struct SourceModel {
    pub text: Seq<char>,
    pub x_min: int,
    pub x_max: int,
    pub y: int,
}

/// A run of consecutive same-scale characters, merged while horizontal gaps
/// stay within the run threshold, kept when it starts with a Latin letter.
pub struct ChartSource {
    pub source: Vec<char>,
    pub x_min: i64,
    pub x_max: i64,
    pub y: i64,
}

impl View for ChartSource {
    type V = SourceModel;

    open spec fn view(&self) -> SourceModel {
        SourceModel {
            text: self.source@,
            x_min: self.x_min as int,
            x_max: self.x_max as int,
            y: self.y as int,
        }
    }
}

pub open spec fn source_views(v: Seq<ChartSource>) -> Seq<SourceModel> {
    v.map_values(|c: ChartSource| c@)
}

pub open spec fn is_latin(c: char) -> bool {
    ('a' <= c && c <= 'z') || ('A' <= c && c <= 'Z')
}

/// A Source run is retained when its text starts with a Latin letter.
pub open spec fn source_accept(text: Seq<char>) -> bool {
    text.len() > 0 && is_latin(text[0])
}

pub open spec fn mk_source(s: Seq<InstrModel>, a: int, b: int) -> SourceModel {
    SourceModel {
        text: seg_text(s, a, b),
        x_min: seg_xmin(s, a, b),
        x_max: seg_xmax(s, a, b),
        y: s[a].y(),
    }
}

pub ghost struct SourceFold {
    pub done: Seq<SourceModel>,
    pub start: int,
}

/// Scan state after all elements of `s` have been consumed: the accepted
/// closed runs, and the start of the still-open run.
pub open spec fn source_fold(s: Seq<InstrModel>, t: int) -> SourceFold
    decreases s.len(),
{
    if s.len() <= 1 {
        SourceFold { done: Seq::empty(), start: 0 }
    } else {
        let st = source_fold(s.drop_last(), t);
        let k = s.len() - 1;
        if run_break(s, t, k) {
            let r = mk_source(s, st.start, k);
            SourceFold {
                done: if source_accept(r.text) {
                    st.done.push(r)
                } else {
                    st.done
                },
                start: k,
            }
        } else {
            st
        }
    }
}

/// The retained Source runs of the instruction list `s` under run threshold
/// `t`: elements with the Source scale signature, clustered into runs.
pub open spec fn source_runs(s: Seq<InstrModel>, t: int) -> Seq<SourceModel> {
    let f = scale_filter(s, SOURCE_SIGNATURE as int);
    if f.len() == 0 {
        Seq::empty()
    } else {
        let st = source_fold(f, t);
        let r = mk_source(f, st.start, f.len() as int);
        if source_accept(r.text) {
            st.done.push(r)
        } else {
            st.done
        }
    }
}

pub proof fn lemma_source_fold_start(s: Seq<InstrModel>, t: int)
    ensures
        0 <= source_fold(s, t).start,
        s.len() <= 1 ==> source_fold(s, t).start == 0,
        s.len() >= 1 ==> source_fold(s, t).start < s.len(),
    decreases s.len(),
{
    if s.len() > 1 {
        lemma_source_fold_start(s.drop_last(), t);
    }
}

/// Effect on the filtered stream of consuming one more instruction.
pub proof fn lemma_scale_filter_push(v: Seq<InstrModel>, sig: int, i: int)
    requires
        0 <= i < v.len(),
    ensures
        v[i].scale() == sig ==> scale_filter(v.take(i + 1), sig) == scale_filter(
            v.take(i),
            sig,
        ).push(v[i]),
        v[i].scale() != sig ==> scale_filter(v.take(i + 1), sig) == scale_filter(v.take(i), sig),
{
    let pred = |m: InstrModel| m.scale() == sig;
    Seq::filter_distributes_over_add(v.take(i), seq![v[i]], pred);
    assert(v.take(i) + seq![v[i]] =~= v.take(i + 1));
    reveal(Seq::filter);
    assert(seq![v[i]].drop_last() =~= Seq::<InstrModel>::empty());
    assert(Seq::<InstrModel>::empty().filter(pred) =~= Seq::<InstrModel>::empty());
    assert(seq![v[i]].last() == v[i]);
    if pred(v[i]) {
        assert(seq![v[i]].filter(pred) =~= seq![v[i]]);
        assert(scale_filter(v.take(i), sig) + seq![v[i]] =~= scale_filter(v.take(i), sig).push(
            v[i],
        ));
    } else {
        assert(seq![v[i]].filter(pred) =~= Seq::<InstrModel>::empty());
        assert(scale_filter(v.take(i), sig) + Seq::<InstrModel>::empty() =~= scale_filter(
            v.take(i),
            sig,
        ));
    }
}

/// Effect on the run-scan state of consuming one more same-signature
/// instruction.
pub proof fn lemma_source_fold_step(f: Seq<InstrModel>, e: InstrModel, t: int)
    requires
        f.len() >= 1,
    ensures
        ({
            let f2 = f.push(e);
            let st = source_fold(f, t);
            let st2 = source_fold(f2, t);
            let k = f.len() as int;
            &&& (run_break(f2, t, k) ==> st2.start == k && st2.done == (if source_accept(
                seg_text(f, st.start, k),
            ) {
                st.done.push(mk_source(f, st.start, k))
            } else {
                st.done
            }))
            &&& (!run_break(f2, t, k) ==> st2 == st)
        }),
{
    let f2 = f.push(e);
    let st = source_fold(f, t);
    let k = f.len() as int;
    assert(f2.drop_last() =~= f);
    lemma_source_fold_start(f, t);
    lemma_seg_push(f, e, st.start, k);
    assert(f2[st.start] == f[st.start]);
    assert(mk_source(f2, st.start, k) == mk_source(f, st.start, k));
}

fn extend_chars(dst: &mut Vec<char>, src: &Vec<char>)
    ensures
        final(dst)@ == old(dst)@ + src@,
{
    let n = src.len();
    let mut i: usize = 0;
    while i < n
        invariant
            i <= n == src@.len(),
            dst@ == old(dst)@ + src@.take(i as int),
        decreases n - i,
    {
        dst.push(src[i]);
        proof {
            assert(old(dst)@ + src@.take(i as int + 1) =~= (old(dst)@ + src@.take(i as int)).push(
                src@[i as int],
            ));
        }
        i += 1;
    }
    proof {
        assert(src@.take(n as int) =~= src@);
    }
}

fn is_latin_exec(c: char) -> (r: bool)
    ensures
        r == is_latin(c),
{
    ('a' <= c && c <= 'z') || ('A' <= c && c <= 'Z')
}

impl ChartSource {
    /// Clusters the Source-signature instructions of `detail_list` into runs,
    /// closing a run when the vertical position changes or the horizontal gap
    /// exceeds `threshold`, and keeps the runs that start with a Latin letter.
    #[verifier::rlimit(30)]
    pub fn new(detail_list: &Vec<Instruction>, threshold: i64) -> (res: Vec<ChartSource>)
        requires
            threshold >= 0,
        ensures
            source_views(res@) == source_runs(instr_views(detail_list@), threshold as int),
    {
        let n = detail_list.len();
        let ghost views = instr_views(detail_list@);
        let mut res: Vec<ChartSource> = Vec::new();
        let ghost f = Seq::<InstrModel>::empty();
        let mut cur_text: Vec<char> = Vec::new();
        let mut cur_xmin: i64 = 0;
        let mut cur_xmax: i64 = 0;
        let mut cur_y: i64 = 0;
        let mut last_x: i64 = 0;
        let mut have: bool = false;
        let mut i: usize = 0;
        while i < n
            invariant
                i <= n == detail_list@.len(),
                views == instr_views(detail_list@),
                f == scale_filter(views.take(i as int), SOURCE_SIGNATURE as int),
                have <==> f.len() > 0,
                have ==> ({
                    let st = source_fold(f, threshold as int);
                    &&& source_views(res@) == st.done
                    &&& 0 <= st.start < f.len()
                    &&& cur_text@ == seg_text(f, st.start, f.len() as int)
                    &&& cur_xmin as int == seg_xmin(f, st.start, f.len() as int)
                    &&& cur_xmax as int == seg_xmax(f, st.start, f.len() as int)
                    &&& cur_y as int == f[st.start].y()
                    &&& last_x as int == f.last().x()
                    &&& cur_y as int == f.last().y()
                }),
                !have ==> res@.len() == 0,
            decreases n - i,
        {
            let e = &detail_list[i];
            proof {
                assert(views[i as int] == e@);
                lemma_scale_filter_push(views, SOURCE_SIGNATURE as int, i as int);
            }
            if e.mat[0] == crate::SOURCE_SIGNATURE {
                proof {
                    assert(e@.mat[0] == crate::SOURCE_SIGNATURE as int);
                }
                let ghost f2 = f.push(e@);
                if !have {
                    cur_text = Vec::new();
                    extend_chars(&mut cur_text, &e.text);
                    cur_xmin = e.mat[4];
                    cur_xmax = e.mat[4];
                    cur_y = e.mat[5];
                    last_x = e.mat[4];
                    have = true;
                    proof {
                        assert(f2.len() == 1);
                        assert(source_fold(f2, threshold as int).done =~= Seq::<
                            SourceModel,
                        >::empty());
                        assert(source_views(res@) =~= Seq::<SourceModel>::empty());
                        assert(f2[0] == e@);
                        assert(seg_text(f2, 0, 0) =~= Seq::<char>::empty());
                        assert(seg_text(f2, 0, 1) =~= Seq::<char>::empty() + e@.text);
                        assert(cur_text@ =~= Seq::<char>::empty() + e@.text);
                    }
                } else {
                    let ghost st = source_fold(f, threshold as int);
                    let brk = e.mat[5] != cur_y || (e.mat[4] as i128) - (last_x as i128)
                        > (threshold as i128) || (last_x as i128) - (e.mat[4] as i128) > (
                    threshold as i128);
                    proof {
                        let k = f.len() as int;
                        assert(f2[k] == e@);
                        assert(f2[k - 1] == f.last());
                        assert(brk == run_break(f2, threshold as int, k));
                        lemma_source_fold_step(f, e@, threshold as int);
                        lemma_seg_push(f, e@, st.start, k);
                    }
                    if brk {
                        let accept = cur_text.len() > 0 && is_latin_exec(cur_text[0]);
                        if accept {
                            let run = ChartSource {
                                source: cur_text,
                                x_min: cur_xmin,
                                x_max: cur_xmax,
                                y: cur_y,
                            };
                            res.push(run);
                            proof {
                                assert(source_views(res@) =~= source_views(
                                    res@.drop_last(),
                                ).push(res@.last()@));
                            }
                        }
                        cur_text = Vec::new();
                        extend_chars(&mut cur_text, &e.text);
                        cur_xmin = e.mat[4];
                        cur_xmax = e.mat[4];
                        cur_y = e.mat[5];
                        last_x = e.mat[4];
                        proof {
                            let k = f2.len() - 1;
                            assert(source_fold(f2, threshold as int).start == k);
                            assert(f2[k] == e@);
                            assert(seg_text(f2, k, k) =~= Seq::<char>::empty());
                            assert(seg_text(f2, k, f2.len() as int) =~= Seq::<char>::empty()
                                + e@.text);
                            assert(cur_text@ =~= Seq::<char>::empty() + e@.text);
                        }
                    } else {
                        extend_chars(&mut cur_text, &e.text);
                        if e.mat[4] < cur_xmin {
                            cur_xmin = e.mat[4];
                        }
                        if e.mat[4] > cur_xmax {
                            cur_xmax = e.mat[4];
                        }
                        last_x = e.mat[4];
                        proof {
                            assert(source_fold(f2, threshold as int) == st);
                            assert(seg_text(f2, st.start, f2.len() as int) == seg_text(
                                f2,
                                st.start,
                                f2.len() - 1,
                            ) + e@.text);
                            assert(f2[st.start] == f[st.start]);
                        }
                    }
                }
                proof {
                    f = f2;
                }
            }
            i += 1;
        }
        proof {
            assert(views.take(n as int) =~= views);
        }
        if have {
            let accept = cur_text.len() > 0 && is_latin_exec(cur_text[0]);
            if accept {
                let run = ChartSource {
                    source: cur_text,
                    x_min: cur_xmin,
                    x_max: cur_xmax,
                    y: cur_y,
                };
                res.push(run);
                proof {
                    assert(source_views(res@) =~= source_views(res@.drop_last()).push(
                        res@.last()@,
                    ));
                }
            }
        }
        res
    }
}


/// A code-label run: a hexadecimal codepoint and the bounds of its
/// positions.
pub ghost struct CodeModel {
    pub codepoint: u32,
    pub hanzi: char,
    pub x_min: int,
    pub x_max: int,
    pub y: int,
}

/// A run of at least four contiguous hexadecimal characters, decoded to a
/// Unicode codepoint.
#[derive(Clone, Copy)]
pub struct ChartCode {
    pub codepoint: u32,
    pub hanzi: char,
    pub x_min: i64,
    pub x_max: i64,
    pub y: i64,
}

impl View for ChartCode {
    type V = CodeModel;

    open spec fn view(&self) -> CodeModel {
        CodeModel {
            codepoint: self.codepoint,
            hanzi: self.hanzi,
            x_min: self.x_min as int,
            x_max: self.x_max as int,
            y: self.y as int,
        }
    }
}

pub open spec fn code_views(v: Seq<ChartCode>) -> Seq<CodeModel> {
    v.map_values(|c: ChartCode| c@)
}

pub open spec fn mk_code(s: Seq<InstrModel>, a: int, b: int) -> CodeModel {
    CodeModel {
        codepoint: digits_value(seg_text(s, a, b), 16) as u32,
        hanzi: (digits_value(seg_text(s, a, b), 16) as u32) as char,
        x_min: seg_xmin(s, a, b),
        x_max: seg_xmax(s, a, b),
        y: s[a].y(),
    }
}

pub ghost struct CodeFold {
    pub done: Seq<CodeModel>,
    pub start: int,
    pub bad: bool,
}

/// Scan state of the Code stream: decoded closed runs, the start of the open
/// run, and whether a closed run of code length failed to decode.
pub open spec fn code_fold(s: Seq<InstrModel>, t: int) -> CodeFold
    decreases s.len(),
{
    if s.len() <= 1 {
        CodeFold { done: Seq::empty(), start: 0, bad: false }
    } else {
        let st = code_fold(s.drop_last(), t);
        let k = s.len() - 1;
        if run_break(s, t, k) {
            let text = seg_text(s, st.start, k);
            if text.len() >= 4 {
                if hex_codepoint_valid(text) {
                    CodeFold { done: st.done.push(mk_code(s, st.start, k)), start: k, bad: st.bad }
                } else {
                    CodeFold { done: st.done, start: k, bad: true }
                }
            } else {
                CodeFold { done: st.done, start: k, bad: st.bad }
            }
        } else {
            st
        }
    }
}

/// The decoded Code runs of the instruction list `s` under run threshold `t`,
/// or `None` when some run of code length does not decode to a scalar value.
pub open spec fn code_result(s: Seq<InstrModel>, t: int) -> Option<Seq<CodeModel>> {
    let f = scale_filter(s, CODE_SIGNATURE as int);
    if f.len() == 0 {
        Some(Seq::empty())
    } else {
        let st = code_fold(f, t);
        let text = seg_text(f, st.start, f.len() as int);
        if st.bad {
            None
        } else if text.len() >= 4 {
            if hex_codepoint_valid(text) {
                Some(st.done.push(mk_code(f, st.start, f.len() as int)))
            } else {
                None
            }
        } else {
            Some(st.done)
        }
    }
}

pub proof fn lemma_code_fold_start(s: Seq<InstrModel>, t: int)
    ensures
        0 <= code_fold(s, t).start,
        s.len() <= 1 ==> code_fold(s, t).start == 0,
        s.len() >= 1 ==> code_fold(s, t).start < s.len(),
    decreases s.len(),
{
    if s.len() > 1 {
        lemma_code_fold_start(s.drop_last(), t);
    }
}

/// Effect on the Code scan state of consuming one more same-signature
/// instruction.
pub proof fn lemma_code_fold_step(f: Seq<InstrModel>, e: InstrModel, t: int)
    requires
        f.len() >= 1,
    ensures
        ({
            let f2 = f.push(e);
            let st = code_fold(f, t);
            let st2 = code_fold(f2, t);
            let k = f.len() as int;
            let text = seg_text(f, st.start, k);
            &&& (run_break(f2, t, k) && text.len() >= 4 && hex_codepoint_valid(text) ==> st2
                == CodeFold { done: st.done.push(mk_code(f, st.start, k)), start: k, bad: st.bad })
            &&& (run_break(f2, t, k) && text.len() >= 4 && !hex_codepoint_valid(text) ==> st2
                == CodeFold { done: st.done, start: k, bad: true })
            &&& (run_break(f2, t, k) && text.len() < 4 ==> st2 == CodeFold {
                done: st.done,
                start: k,
                bad: st.bad,
            })
            &&& (!run_break(f2, t, k) ==> st2 == st)
        }),
{
    let f2 = f.push(e);
    let st = code_fold(f, t);
    let k = f.len() as int;
    assert(f2.drop_last() =~= f);
    lemma_code_fold_start(f, t);
    lemma_seg_push(f, e, st.start, k);
    assert(f2[st.start] == f[st.start]);
    assert(mk_code(f2, st.start, k) == mk_code(f, st.start, k));
}

/// A bad closed run stays bad however the stream continues.
pub proof fn lemma_code_fold_extend_bad(f: Seq<InstrModel>, ext: Seq<InstrModel>, t: int)
    requires
        code_fold(f, t).bad,
    ensures
        code_fold(f + ext, t).bad,
    decreases ext.len(),
{
    if ext.len() == 0 {
        assert(f + ext =~= f);
    } else {
        lemma_code_fold_extend_bad(f, ext.drop_last(), t);
        assert((f + ext).drop_last() =~= f + ext.drop_last());
        if (f + ext).len() <= 1 {
            assert(f.len() + ext.len() <= 1);
            assert(code_fold(f, t).bad);
            assert(f.len() <= 1);
            assert(!code_fold(f, t).bad);
        }
    }
}

impl ChartCode {
    /// Clusters the Code-signature instructions of `detail_list` into runs and
    /// decodes each run of at least four characters as a hexadecimal
    /// codepoint; a run of code length that does not decode to a Unicode
    /// scalar value is a fatal `InvalidCodepoint`.
    #[verifier::rlimit(30)]
    pub fn new(detail_list: &Vec<Instruction>, threshold: i64) -> (res: Result<
        Vec<ChartCode>,
        ChartError,
    >)
        requires
            threshold >= 0,
        ensures
            match res {
                Ok(v) => code_result(instr_views(detail_list@), threshold as int) == Some(
                    code_views(v@),
                ),
                Err(e) => e == ChartError::InvalidCodepoint && code_result(
                    instr_views(detail_list@),
                    threshold as int,
                ) is None,
            },
    {
        let n = detail_list.len();
        let ghost views = instr_views(detail_list@);
        let mut res: Vec<ChartCode> = Vec::new();
        let ghost f = Seq::<InstrModel>::empty();
        let mut cur_text: Vec<char> = Vec::new();
        let mut cur_xmin: i64 = 0;
        let mut cur_xmax: i64 = 0;
        let mut cur_y: i64 = 0;
        let mut last_x: i64 = 0;
        let mut have: bool = false;
        let mut i: usize = 0;
        while i < n
            invariant
                i <= n == detail_list@.len(),
                views == instr_views(detail_list@),
                f == scale_filter(views.take(i as int), CODE_SIGNATURE as int),
                have <==> f.len() > 0,
                have ==> ({
                    let st = code_fold(f, threshold as int);
                    &&& !st.bad
                    &&& code_views(res@) == st.done
                    &&& 0 <= st.start < f.len()
                    &&& cur_text@ == seg_text(f, st.start, f.len() as int)
                    &&& cur_xmin as int == seg_xmin(f, st.start, f.len() as int)
                    &&& cur_xmax as int == seg_xmax(f, st.start, f.len() as int)
                    &&& cur_y as int == f[st.start].y()
                    &&& last_x as int == f.last().x()
                    &&& cur_y as int == f.last().y()
                }),
                !have ==> res@.len() == 0,
            decreases n - i,
        {
            let e = &detail_list[i];
            proof {
                assert(views[i as int] == e@);
                lemma_scale_filter_push(views, CODE_SIGNATURE as int, i as int);
            }
            if e.mat[0] == crate::CODE_SIGNATURE {
                proof {
                    assert(e@.mat[0] == crate::CODE_SIGNATURE as int);
                }
                let ghost f2 = f.push(e@);
                if !have {
                    cur_text = Vec::new();
                    extend_chars(&mut cur_text, &e.text);
                    cur_xmin = e.mat[4];
                    cur_xmax = e.mat[4];
                    cur_y = e.mat[5];
                    last_x = e.mat[4];
                    have = true;
                    proof {
                        assert(f2.len() == 1);
                        assert(code_fold(f2, threshold as int).done =~= Seq::<CodeModel>::empty());
                        assert(code_views(res@) =~= Seq::<CodeModel>::empty());
                        assert(f2[0] == e@);
                        assert(seg_text(f2, 0, 0) =~= Seq::<char>::empty());
                        assert(seg_text(f2, 0, 1) =~= Seq::<char>::empty() + e@.text);
                        assert(cur_text@ =~= Seq::<char>::empty() + e@.text);
                    }
                } else {
                    let ghost st = code_fold(f, threshold as int);
                    let brk = e.mat[5] != cur_y || (e.mat[4] as i128) - (last_x as i128) > (
                    threshold as i128) || (last_x as i128) - (e.mat[4] as i128) > (
                    threshold as i128);
                    proof {
                        let k = f.len() as int;
                        assert(f2[k] == e@);
                        assert(f2[k - 1] == f.last());
                        assert(brk == run_break(f2, threshold as int, k));
                        lemma_code_fold_step(f, e@, threshold as int);
                        lemma_seg_push(f, e@, st.start, k);
                    }
                    if brk {
                        if cur_text.len() >= 4 {
                            let v = match crate::parse::parse_hex_codepoint(
                                &cur_text,
                                0,
                                cur_text.len(),
                            ) {
                                Some(v) => v,
                                None => {
                                    proof {
                                        assert(cur_text@.subrange(0, cur_text@.len() as int)
                                            =~= cur_text@);
                                        assert(code_fold(f2, threshold as int).bad);
                                        let pred = |m: InstrModel| m.scale() == CODE_SIGNATURE
                                            as int;
                                        Seq::filter_distributes_over_add(
                                            views.take(i as int + 1),
                                            views.skip(i as int + 1),
                                            pred,
                                        );
                                        assert(views.take(i as int + 1) + views.skip(i as int + 1)
                                            =~= views);
                                        lemma_code_fold_extend_bad(
                                            f2,
                                            scale_filter(views.skip(i as int + 1), CODE_SIGNATURE
                                                as int),
                                            threshold as int,
                                        );
                                        assert(scale_filter(views, CODE_SIGNATURE as int) =~= f2
                                            + scale_filter(
                                            views.skip(i as int + 1),
                                            CODE_SIGNATURE as int,
                                        ));
                                    }
                                    return Err(ChartError::InvalidCodepoint);
                                },
                            };
                            let hz = match char::from_u32(v) {
                                Some(hz) => hz,
                                None => {
                                    proof {
                                        assert(false);
                                    }
                                    return Err(ChartError::InvalidCodepoint);
                                },
                            };
                            let run = ChartCode {
                                codepoint: v,
                                hanzi: hz,
                                x_min: cur_xmin,
                                x_max: cur_xmax,
                                y: cur_y,
                            };
                            proof {
                                assert(cur_text@.subrange(0, cur_text@.len() as int) =~= cur_text@);
                                vstd::utf8::char_u32_cast(hz, v);
                                assert(run@ == mk_code(f2, st.start, f2.len() - 1));
                            }
                            res.push(run);
                            proof {
                                assert(code_views(res@) =~= code_views(res@.drop_last()).push(
                                    res@.last()@,
                                ));
                            }
                        }
                        cur_text = Vec::new();
                        extend_chars(&mut cur_text, &e.text);
                        cur_xmin = e.mat[4];
                        cur_xmax = e.mat[4];
                        cur_y = e.mat[5];
                        last_x = e.mat[4];
                        proof {
                            let k = f2.len() - 1;
                            assert(code_fold(f2, threshold as int).start == k);
                            assert(f2[k] == e@);
                            assert(seg_text(f2, k, k) =~= Seq::<char>::empty());
                            assert(seg_text(f2, k, f2.len() as int) =~= Seq::<char>::empty()
                                + e@.text);
                            assert(cur_text@ =~= Seq::<char>::empty() + e@.text);
                        }
                    } else {
                        extend_chars(&mut cur_text, &e.text);
                        if e.mat[4] < cur_xmin {
                            cur_xmin = e.mat[4];
                        }
                        if e.mat[4] > cur_xmax {
                            cur_xmax = e.mat[4];
                        }
                        last_x = e.mat[4];
                        proof {
                            assert(code_fold(f2, threshold as int) == st);
                            assert(seg_text(f2, st.start, f2.len() as int) == seg_text(
                                f2,
                                st.start,
                                f2.len() - 1,
                            ) + e@.text);
                            assert(f2[st.start] == f[st.start]);
                        }
                    }
                }
                proof {
                    f = f2;
                }
            }
            i += 1;
        }
        proof {
            assert(views.take(n as int) =~= views);
        }
        if have {
            if cur_text.len() >= 4 {
                let v = match crate::parse::parse_hex_codepoint(&cur_text, 0, cur_text.len()) {
                    Some(v) => v,
                    None => {
                        proof {
                            assert(cur_text@.subrange(0, cur_text@.len() as int) =~= cur_text@);
                        }
                        return Err(ChartError::InvalidCodepoint);
                    },
                };
                let hz = match char::from_u32(v) {
                    Some(hz) => hz,
                    None => {
                        proof {
                            assert(false);
                        }
                        return Err(ChartError::InvalidCodepoint);
                    },
                };
                let run = ChartCode {
                    codepoint: v,
                    hanzi: hz,
                    x_min: cur_xmin,
                    x_max: cur_xmax,
                    y: cur_y,
                };
                proof {
                    assert(cur_text@.subrange(0, cur_text@.len() as int) =~= cur_text@);
                    vstd::utf8::char_u32_cast(hz, v);
                    assert(run@ == mk_code(f, code_fold(f, threshold as int).start, f.len() as int));
                }
                res.push(run);
                proof {
                    assert(code_views(res@) =~= code_views(res@.drop_last()).push(res@.last()@));
                }
            }
        }
        Ok(res)
    }
}


/// A glyph instruction: its character, the referenced path description, and
/// its position.
pub ghost struct GraphModel {
    pub ch: char,
    pub drawn: Seq<char>,
    pub x: int,
    pub y: int,
}

/// One instruction whose character falls in the accepted codepoint set and
/// whose scale exceeds the Source signature.
pub struct ChartGraph {
    pub ch: char,
    pub drawn: Vec<char>,
    pub x: i64,
    pub y: i64,
}

impl View for ChartGraph {
    type V = GraphModel;

    open spec fn view(&self) -> GraphModel {
        GraphModel { ch: self.ch, drawn: self.drawn@, x: self.x as int, y: self.y as int }
    }
}

pub open spec fn graph_views(v: Seq<ChartGraph>) -> Seq<GraphModel> {
    v.map_values(|c: ChartGraph| c@)
}

/// Membership in the fixed union of CJK, radical and compatibility blocks,
/// or in the caller-supplied inclusive codepoint range.
pub open spec fn cjk_accept(c: char, lo: u32, hi: u32) -> bool {
    let u = c as u32;
    (0x3100 <= u && u <= 0x312F) || (0x31A0 <= u && u <= 0x31BF) || (0x4E00 <= u && u <= 0x9FFF)
        || (0x3400 <= u && u <= 0x4DBF) || (0x20000 <= u && u <= 0x2A6DF) || (0x2A700 <= u && u
        <= 0x2B73F) || (0x2B740 <= u && u <= 0x2B81F) || (0x2B820 <= u && u <= 0x2CEAF) || (0x2CEB0
        <= u && u <= 0x2EBEF) || (0x30000 <= u && u <= 0x3134F) || (0x31350 <= u && u <= 0x323AF)
        || (0xF900 <= u && u <= 0xFAFF) || (0x2F800 <= u && u <= 0x2FA1F) || (0x2F00 <= u && u
        <= 0x2FDF) || (0x2E80 <= u && u <= 0x2EFF) || (0x31C0 <= u && u <= 0x31EF) || (0x2FF0 <= u
        && u <= 0x2FFF) || (0xE000 <= u && u <= 0xF8FF) || (0xF0000 <= u && u <= 0xFFFFD) || (
    0x100000 <= u && u <= 0x10FFFD) || (lo <= u && u <= hi)
}

fn cjk_accept_exec(c: char, lo: u32, hi: u32) -> (r: bool)
    ensures
        r == cjk_accept(c, lo, hi),
{
    let u = c as u32;
    (0x3100 <= u && u <= 0x312F) || (0x31A0 <= u && u <= 0x31BF) || (0x4E00 <= u && u <= 0x9FFF)
        || (0x3400 <= u && u <= 0x4DBF) || (0x20000 <= u && u <= 0x2A6DF) || (0x2A700 <= u && u
        <= 0x2B73F) || (0x2B740 <= u && u <= 0x2B81F) || (0x2B820 <= u && u <= 0x2CEAF) || (0x2CEB0
        <= u && u <= 0x2EBEF) || (0x30000 <= u && u <= 0x3134F) || (0x31350 <= u && u <= 0x323AF)
        || (0xF900 <= u && u <= 0xFAFF) || (0x2F800 <= u && u <= 0x2FA1F) || (0x2F00 <= u && u
        <= 0x2FDF) || (0x2E80 <= u && u <= 0x2EFF) || (0x31C0 <= u && u <= 0x31EF) || (0x2FF0 <= u
        && u <= 0x2FFF) || (0xE000 <= u && u <= 0xF8FF) || (0xF0000 <= u && u <= 0xFFFFD) || (
    0x100000 <= u && u <= 0x10FFFD) || (lo <= u && u <= hi)
}

/// A Graph instruction: scale above the Source signature, and some character
/// of its text in the accepted set.
pub open spec fn graph_accept(e: InstrModel, lo: u32, hi: u32) -> bool {
    e.scale() > SOURCE_SIGNATURE as int && (exists|j: int|
        0 <= j < e.text.len() && cjk_accept(#[trigger] e.text[j], lo, hi))
}

/// Last-wins lookup of a glyph id in the dictionary entries.
pub open spec fn dict_lookup(dict: Seq<(Seq<char>, Seq<char>)>, key: Seq<char>) -> Option<
    Seq<char>,
>
    decreases dict.len(),
{
    if dict.len() == 0 {
        None
    } else if dict.last().0 == key {
        Some(dict.last().1)
    } else {
        dict_lookup(dict.drop_last(), key)
    }
}

/// The Graph records of the instruction list `s`: accepted instructions with
/// their glyph paths resolved in `dict`; `None` when a referenced glyph id is
/// missing from the dictionary.
pub open spec fn graph_result(
    s: Seq<InstrModel>,
    dict: Seq<(Seq<char>, Seq<char>)>,
    lo: u32,
    hi: u32,
) -> Option<Seq<GraphModel>>
    decreases s.len(),
{
    if s.len() == 0 {
        Some(Seq::empty())
    } else {
        match graph_result(s.drop_last(), dict, lo, hi) {
            None => None,
            Some(gs) => {
                let e = s.last();
                if graph_accept(e, lo, hi) {
                    match dict_lookup(dict, e.glyph_ref) {
                        None => None,
                        Some(d) => Some(
                            gs.push(GraphModel { ch: e.text[0], drawn: d, x: e.x(), y: e.y() }),
                        ),
                    }
                } else {
                    Some(gs)
                }
            },
        }
    }
}

fn vec_char_eq(a: &Vec<char>, b: &Vec<char>) -> (r: bool)
    ensures
        r == (a@ == b@),
{
    let n = a.len();
    if n != b.len() {
        proof {
            assert(a@.len() != b@.len());
        }
        return false;
    }
    let mut i: usize = 0;
    while i < n
        invariant
            i <= n == a@.len(),
            b@.len() == n,
            forall|j: int| 0 <= j < i ==> a@[j] == b@[j],
        decreases n - i,
    {
        if a[i] != b[i] {
            return false;
        }
        i += 1;
    }
    proof {
        assert(a@ =~= b@);
    }
    true
}

/// Resolves `key` in the dictionary; a later entry with the same id takes
/// precedence.
fn dict_get(dict: &Vec<(Vec<char>, Vec<char>)>, key: &Vec<char>) -> (r: Option<Vec<char>>)
    ensures
        match r {
            Some(d) => dict_lookup(entry_views(dict@), key@) == Some(d@),
            None => dict_lookup(entry_views(dict@), key@) is None,
        },
{
    let ghost dv = entry_views(dict@);
    let mut k = dict.len();
    proof {
        assert(dv.take(k as int) =~= dv);
    }
    while k > 0
        invariant
            k <= dict@.len(),
            dv == entry_views(dict@),
            dict_lookup(dv, key@) == dict_lookup(dv.take(k as int), key@),
        decreases k,
    {
        proof {
            assert(dv.take(k as int).last() == dv[k - 1]);
            assert(dv[k - 1] == (dict@[k - 1].0@, dict@[k - 1].1@));
            assert(dv.take(k as int).drop_last() =~= dv.take(k as int - 1));
        }
        let hit = vec_char_eq(&dict[k - 1].0, key);
        if hit {
            let d = crate::parse::sub_chars(&dict[k - 1].1, 0, dict[k - 1].1.len());
            proof {
                assert(d@ =~= dict@[k - 1].1@);
            }
            return Some(d);
        }
        k -= 1;
    }
    proof {
        assert(dv.take(0) =~= Seq::<(Seq<char>, Seq<char>)>::empty());
    }
    None
}

impl ChartGraph {
    /// Selects the instructions whose scale exceeds the Source signature and
    /// whose text holds an accepted character, resolving each glyph
    /// reference in the dictionary; a missing reference is a fatal
    /// `MalformedDescription`.
    #[verifier::rlimit(30)]
    pub fn new(
        detail_list: &Vec<Instruction>,
        font_dic: &Vec<(Vec<char>, Vec<char>)>,
        cp_lo: u32,
        cp_hi: u32,
    ) -> (res: Result<Vec<ChartGraph>, ChartError>)
        ensures
            match res {
                Ok(v) => graph_result(instr_views(detail_list@), entry_views(font_dic@), cp_lo, cp_hi)
                    == Some(graph_views(v@)),
                Err(e) => e == ChartError::MalformedDescription && graph_result(
                    instr_views(detail_list@),
                    entry_views(font_dic@),
                    cp_lo,
                    cp_hi,
                ) is None,
            },
    {
        let n = detail_list.len();
        let ghost views = instr_views(detail_list@);
        let ghost dv = entry_views(font_dic@);
        let mut res: Vec<ChartGraph> = Vec::new();
        proof {
            assert(views.take(0) =~= Seq::<InstrModel>::empty());
            assert(graph_views(res@) =~= Seq::<GraphModel>::empty());
        }
        let mut i: usize = 0;
        while i < n
            invariant
                i <= n == detail_list@.len(),
                views == instr_views(detail_list@),
                dv == entry_views(font_dic@),
                graph_result(views.take(i as int), dv, cp_lo, cp_hi) == Some(graph_views(res@)),
            decreases n - i,
        {
            let e = &detail_list[i];
            proof {
                assert(views[i as int] == e@);
                assert(views.take(i as int + 1).drop_last() =~= views.take(i as int));
                assert(views.take(i as int + 1).last() == e@);
            }
            let tn = e.text.len();
            let mut found: bool = false;
            let mut j: usize = 0;
            while j < tn && !found
                invariant
                    j <= tn == e.text@.len(),
                    found ==> exists|j2: int|
                        0 <= j2 < e.text@.len() && cjk_accept(#[trigger] e.text@[j2], cp_lo, cp_hi),
                    !found ==> forall|j2: int|
                        0 <= j2 < j ==> !cjk_accept(#[trigger] e.text@[j2], cp_lo, cp_hi),
                decreases tn - j,
            {
                if cjk_accept_exec(e.text[j], cp_lo, cp_hi) {
                    found = true;
                }
                j += 1;
            }
            let accept = found && e.mat[0] > crate::SOURCE_SIGNATURE;
            proof {
                assert(e@.text == e.text@);
                assert(e@.scale() == e.mat@[0] as int);
                if !found {
                    assert forall|j2: int|
                        0 <= j2 < e@.text.len() implies !cjk_accept(
                        #[trigger] e@.text[j2],
                        cp_lo,
                        cp_hi,
                    ) by {
                        assert(!cjk_accept(e.text@[j2], cp_lo, cp_hi));
                    }
                }
                assert(accept == graph_accept(e@, cp_lo, cp_hi));
            }
            if accept {
                match dict_get(font_dic, &e.glyph_ref) {
                    Some(d) => {
                        proof {
                            let j2 = choose|j2: int|
                                0 <= j2 < e@.text.len() && cjk_accept(
                                    #[trigger] e@.text[j2],
                                    cp_lo,
                                    cp_hi,
                                );
                            assert(e@.text.len() > 0);
                            assert(e@.x() == e.mat@[4] as int);
                            assert(e@.y() == e.mat@[5] as int);
                        }
                        let g = ChartGraph { ch: e.text[0], drawn: d, x: e.mat[4], y: e.mat[5] };
                        let ghost prev = res@;
                        let ghost gfull = g;
                        let ghost gv = g@;
                        res.push(g);
                        proof {
                            assert(res@ == prev.push(gfull));
                            prev.lemma_push_map_commute(|c: ChartGraph| c@, gfull);
                            assert(graph_views(res@) == graph_views(prev).push(gv));
                        }
                    },
                    None => {
                        proof {
                            assert(graph_result(views.take(i as int + 1), dv, cp_lo, cp_hi)
                                is None);
                            lemma_graph_result_extend_none(views, dv, cp_lo, cp_hi, i as int + 1);
                        }
                        return Err(ChartError::MalformedDescription);
                    },
                }
            }
            i += 1;
        }
        proof {
            assert(views.take(n as int) =~= views);
        }
        Ok(res)
    }
}

/// Once the scan has failed on a prefix, it fails on the whole list.
proof fn lemma_graph_result_extend_none(
    views: Seq<InstrModel>,
    dict: Seq<(Seq<char>, Seq<char>)>,
    lo: u32,
    hi: u32,
    p: int,
)
    requires
        0 <= p <= views.len(),
        graph_result(views.take(p), dict, lo, hi) is None,
    ensures
        graph_result(views, dict, lo, hi) is None,
    decreases views.len() - p,
{
    if p < views.len() {
        assert(views.take(p + 1).drop_last() =~= views.take(p));
        lemma_graph_result_extend_none(views, dict, lo, hi, p + 1);
    } else {
        assert(views.take(p) =~= views);
    }
}


impl Clone for ChartSource {
    /// A copy whose model equals this run's model.
    fn clone(&self) -> (r: Self)
        ensures
            r@ == self@,
    {
        let text = crate::parse::sub_chars(&self.source, 0, self.source.len());
        proof {
            assert(text@ =~= self.source@);
        }
        ChartSource { source: text, x_min: self.x_min, x_max: self.x_max, y: self.y }
    }
}

impl Clone for ChartGraph {
    /// A copy whose model equals this record's model.
    fn clone(&self) -> (r: Self)
        ensures
            r@ == self@,
    {
        let d = crate::parse::sub_chars(&self.drawn, 0, self.drawn.len());
        proof {
            assert(d@ =~= self.drawn@);
        }
        ChartGraph { ch: self.ch, drawn: d, x: self.x, y: self.y }
    }
}


/// Uppercase hexadecimal digit of a value below sixteen.
pub open spec fn hex_char(v: int) -> char {
    if v == 0 { '0' } else if v == 1 { '1' } else if v == 2 { '2' } else if v == 3 { '3' }
    else if v == 4 { '4' } else if v == 5 { '5' } else if v == 6 { '6' } else if v == 7 { '7' }
    else if v == 8 { '8' } else if v == 9 { '9' } else if v == 10 { 'A' } else if v == 11 { 'B' }
    else if v == 12 { 'C' } else if v == 13 { 'D' } else if v == 14 { 'E' } else { 'F' }
}

/// Uppercase hexadecimal digits of `v`, most significant first, without
/// leading zeros.
pub open spec fn hex_digits_of(v: int) -> Seq<char>
    decreases v,
{
    if v < 16 {
        seq![hex_char(v)]
    } else {
        hex_digits_of(v / 16).push(hex_char(v % 16))
    }
}

fn hex_char_exec(v: u32) -> (r: char)
    requires
        v < 16,
    ensures
        r == hex_char(v as int),
{
    if v == 0 { '0' } else if v == 1 { '1' } else if v == 2 { '2' } else if v == 3 { '3' }
    else if v == 4 { '4' } else if v == 5 { '5' } else if v == 6 { '6' } else if v == 7 { '7' }
    else if v == 8 { '8' } else if v == 9 { '9' } else if v == 10 { 'A' } else if v == 11 { 'B' }
    else if v == 12 { 'C' } else if v == 13 { 'D' } else if v == 14 { 'E' } else { 'F' }
}

fn hex_digits_exec(v: u32) -> (r: Vec<char>)
    ensures
        r@ == hex_digits_of(v as int),
    decreases v,
{
    if v < 16 {
        let mut r: Vec<char> = Vec::new();
        r.push(hex_char_exec(v));
        proof {
            assert(r@ =~= seq![hex_char(v as int)]);
        }
        r
    } else {
        let mut r = hex_digits_exec(v / 16);
        r.push(hex_char_exec(v % 16));
        proof {
            assert(r@ =~= hex_digits_of((v / 16) as int).push(hex_char((v % 16) as int)));
        }
        r
    }
}

impl ChartCode {
    /// The codepoint as uppercase hexadecimal text.
    pub fn hex(&self) -> (r: Vec<char>)
        ensures
            r@ == hex_digits_of(self.codepoint as int),
    {
        hex_digits_exec(self.codepoint)
    }
}


/// Run extraction is deterministic: clustering the same stream twice with
/// the same threshold yields identical runs, in order and membership.
pub proof fn lemma_run_extraction_deterministic(
    s: Seq<InstrModel>,
    t: int,
    r1: Seq<SourceModel>,
    r2: Seq<SourceModel>,
)
    requires
        r1 == source_runs(s, t),
        r2 == source_runs(s, t),
    ensures
        r1 == r2,
{
}

} // verus!
