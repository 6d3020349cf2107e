//! Reconstruction of a tabular glyph reference (code label, rendered glyph,
//! transliteration) from per-page vector-drawing instruction lists, and its
//! emission as a bordered, paginated spreadsheet.
//!
//! Coordinates and scale factors are held in fixed-point units: one native
//! drawing unit is `SCALE_UNIT` fixed-point units, so four decimal places of
//! the native values are kept exactly.
use vstd::prelude::*;

pub mod chart;
pub mod grid;
pub mod parse;
pub mod utils;
pub mod xlsx;

verus! {

/// Fixed-point units per native drawing unit.
pub const SCALE_UNIT: i64 = 10000;

/// Horizontal-scale signature of transliteration (Source) instructions.
pub const SOURCE_SIGNATURE: i64 = 70000;

/// Horizontal-scale signature of hexadecimal code-label (Code) instructions.
pub const CODE_SIGNATURE: i64 = 99998;

/// Largest primary-axis gap within one character run.
pub const RUN_GAP_LIMIT: i64 = 100000;

/// Tolerance under which two secondary-axis values sort by the primary axis.
pub const SORT_TOLERANCE: i64 = 50000;

/// Secondary-axis gap that starts a new row or column group.
pub const ROW_SPLIT_GAP: i64 = 100000;

/// Tolerance under which two adjacent code positions collapse to one boundary.
pub const DEDUP_TOLERANCE: i64 = 20000;

/// Default number of data columns per emitted table row.
pub const DEFAULT_COL_MAX: usize = 7;

/// A fatal condition met while reconstructing one page's table.
#[derive(Clone, Copy, Debug, PartialEq, Eq, Structural)]
pub enum ChartError {
    /// The page description lacks a region marker, or a transform field does
    /// not parse as a number.
    MalformedDescription,
    /// A code-label run does not decode to a valid Unicode scalar value.
    InvalidCodepoint,
    /// Source and Graph streams disagree in count or in row count.
    LayoutMismatch,
    /// The output workbook refused a cell write.
    WorkbookWrite,
}

/// One end of a page-index range.
#[derive(Clone, Copy, Debug)]
pub enum PageBound {
    Included(usize),
    Excluded(usize),
    Unbounded,
}

pub open spec fn spec_range_start(start: PageBound, min: int) -> int {
    match start {
        PageBound::Included(n) => chart::int_max(n as int, min),
        PageBound::Excluded(_) => min,
        PageBound::Unbounded => min,
    }
}

pub open spec fn spec_range_end(end: PageBound, max: int) -> int {
    match end {
        PageBound::Included(n) => chart::int_min(n as int + 1, max + 1),
        PageBound::Excluded(n) => chart::int_min(n as int, max + 1),
        PageBound::Unbounded => max + 1,
    }
}

/// Turns a possibly open page-index range into a half-open `[start, end)`
/// pair clamped to the valid page indices `min..=max`: the given range
/// intersected with `min..max + 1`, with an absent or exclusive start
/// falling back to `min` and an absent end to one past `max`.
pub fn page_range_normalize(start: PageBound, end: PageBound, min: usize, max: usize) -> (r: (
    usize,
    usize,
))
    requires
        (end matches PageBound::Included(n) ==> n < usize::MAX),
        max < usize::MAX,
    ensures
        r.0 == spec_range_start(start, min as int),
        r.1 == spec_range_end(end, max as int),
{
    let s: usize = match start {
        PageBound::Included(n) => if n > min {
            n
        } else {
            min
        },
        PageBound::Excluded(_) => min,
        PageBound::Unbounded => min,
    };
    let e: usize = match end {
        PageBound::Included(n) => if n + 1 < max + 1 {
            n + 1
        } else {
            max + 1
        },
        PageBound::Excluded(n) => if n < max + 1 {
            n
        } else {
            max + 1
        },
        PageBound::Unbounded => max + 1,
    };
    (s, e)
}

/// Decides whether a fresh sheet must be started after the page just
/// processed: after every `limit` pages, and only if further pages remain.
pub fn sheet_break_after(page_count: u32, limit: u32, more_pages: bool) -> (r: bool)
    requires
        limit > 0,
    ensures
        r == (page_count % limit == 0 && more_pages),
{
    page_count % limit == 0 && more_pages
}

/// Worksheets in use after the first `pages` pages of a run over `total`
/// pages: the first sheet, plus one for every break taken — a break after
/// page `p` exactly when [`sheet_break_after`] decides so, that is when
/// `p % limit == 0` and pages remain.
pub open spec fn sheets_used(pages: int, total: int, limit: int) -> int
    decreases pages,
{
    if pages <= 0 {
        1
    } else {
        sheets_used(pages - 1, total, limit) + if pages % limit == 0 && pages < total {
            1int
        } else {
            0int
        }
    }
}

proof fn lemma_sheets_used_partial(p: int, total: int, limit: int)
    requires
        1 <= limit,
        0 <= p < total,
    ensures
        sheets_used(p, total, limit) == 1 + p / limit,
    decreases p,
{
    if p == 0 {
        vstd::arithmetic::div_mod::lemma_fundamental_div_mod_converse_div(0, limit, 0, 0);
    } else {
        lemma_sheets_used_partial(p - 1, total, limit);
        vstd::arithmetic::div_mod::lemma_fundamental_div_mod(p, limit);
        vstd::arithmetic::div_mod::lemma_mod_bound(p, limit);
        let q = p / limit;
        let r = p % limit;
        if r == 0 {
            assert((q - 1) * limit + (limit - 1) == limit * q - 1) by (nonlinear_arith);
            vstd::arithmetic::div_mod::lemma_fundamental_div_mod_converse_div(
                p - 1,
                limit,
                q - 1,
                limit - 1,
            );
        } else {
            assert(q * limit + (r - 1) == limit * q + r - 1) by (nonlinear_arith);
            vstd::arithmetic::div_mod::lemma_fundamental_div_mod_converse_div(p - 1, limit, q, r - 1);
        }
    }
}

/// Pagination law: a run of `total` pages, breaking to a fresh sheet after
/// every `limit` pages while pages remain, ends with exactly the ceiling of
/// `total / limit` worksheets.
pub proof fn lemma_pagination_sheets(total: int, limit: int)
    requires
        1 <= total,
        1 <= limit,
    ensures
        sheets_used(total, total, limit) == (total + limit - 1) / limit,
{
    lemma_sheets_used_partial(total - 1, total, limit);
    vstd::arithmetic::div_mod::lemma_fundamental_div_mod(total - 1, limit);
    vstd::arithmetic::div_mod::lemma_mod_bound(total - 1, limit);
    let q = (total - 1) / limit;
    let r = (total - 1) % limit;
    assert((q + 1) * limit + r == limit * q + r + limit) by (nonlinear_arith);
    vstd::arithmetic::div_mod::lemma_fundamental_div_mod_converse_div(
        total + limit - 1,
        limit,
        q + 1,
        r,
    );
}


/// The glyph-path dictionary entries of a page description, when the
/// definitions region is present.
pub open spec fn page_dict(s: Seq<char>) -> Option<Seq<(Seq<char>, Seq<char>)>> {
    match parse::defs_region(s) {
        None => None,
        Some((a, b)) => Some(parse::path_entries_from(s.subrange(a, b), 0)),
    }
}

/// The instruction list of a page description, when the drawing region is
/// present and every entry is well formed.
pub open spec fn page_instrs(s: Seq<char>) -> Option<Seq<parse::InstrModel>> {
    match parse::drawing_region(s) {
        None => None,
        Some((a, b)) => parse::use_entries_from(s.subrange(a, b), 0),
    }
}

/// Both parse stages, graph resolution and code decoding succeed.
pub open spec fn page_stages_ok(s: Seq<char>, cp_lo: u32, cp_hi: u32) -> bool {
    &&& page_dict(s) is Some
    &&& page_instrs(s) is Some
    &&& chart::graph_result(page_instrs(s).unwrap(), page_dict(s).unwrap(), cp_lo, cp_hi) is Some
    &&& chart::code_result(page_instrs(s).unwrap(), RUN_GAP_LIMIT as int) is Some
}

/// The dual-key comparator on Source runs, vertical axis primary.
pub open spec fn src_gt(t: int) -> spec_fn(chart::SourceModel, chart::SourceModel) -> bool {
    |a: chart::SourceModel, b: chart::SourceModel| utils::dual_gt(a.y, a.x_min, b.y, b.x_min, t)
}

/// The dual-key comparator on Graph records, vertical axis primary.
pub open spec fn graph_gt(t: int) -> spec_fn(chart::GraphModel, chart::GraphModel) -> bool {
    |a: chart::GraphModel, b: chart::GraphModel| utils::dual_gt(a.y, a.x, b.y, b.x, t)
}

/// The dual-key comparator on Code runs, horizontal axis primary.
pub open spec fn code_gt_x(t: int) -> spec_fn(chart::CodeModel, chart::CodeModel) -> bool {
    |a: chart::CodeModel, b: chart::CodeModel| utils::dual_gt(a.x_min, a.y, b.x_min, b.y, t)
}

/// The dual-key comparator on Code runs, vertical axis primary.
pub open spec fn code_gt_y(t: int) -> spec_fn(chart::CodeModel, chart::CodeModel) -> bool {
    |a: chart::CodeModel, b: chart::CodeModel| utils::dual_gt(a.y, a.x_min, b.y, b.x_min, t)
}

pub open spec fn model_src_ys(s: Seq<chart::SourceModel>) -> Seq<int> {
    s.map_values(|c: chart::SourceModel| c.y)
}

pub open spec fn model_graph_ys(s: Seq<chart::GraphModel>) -> Seq<int> {
    s.map_values(|c: chart::GraphModel| c.y)
}

pub open spec fn model_code_xs(s: Seq<chart::CodeModel>) -> Seq<int> {
    s.map_values(|c: chart::CodeModel| c.x_min)
}

pub open spec fn model_code_ys(s: Seq<chart::CodeModel>) -> Seq<int> {
    s.map_values(|c: chart::CodeModel| c.y)
}

/// The page's Source runs, in extraction order.
pub open spec fn page_sources(s: Seq<char>) -> Seq<chart::SourceModel> {
    chart::source_runs(page_instrs(s).unwrap(), RUN_GAP_LIMIT as int)
}

/// The page's Graph records, in extraction order.
pub open spec fn page_graphs(s: Seq<char>, cp_lo: u32, cp_hi: u32) -> Seq<chart::GraphModel> {
    chart::graph_result(page_instrs(s).unwrap(), page_dict(s).unwrap(), cp_lo, cp_hi).unwrap()
}

/// The page's decoded Code runs, in extraction order.
pub open spec fn page_codes(s: Seq<char>) -> Seq<chart::CodeModel> {
    chart::code_result(page_instrs(s).unwrap(), RUN_GAP_LIMIT as int).unwrap()
}

/// The Source runs sorted vertically with horizontal tiebreak.
pub open spec fn page_sources_sorted(s: Seq<char>) -> Seq<chart::SourceModel> {
    utils::sort_by_gt(page_sources(s), src_gt(SORT_TOLERANCE as int))
}

/// The Graph records sorted vertically with horizontal tiebreak.
pub open spec fn page_graphs_sorted(s: Seq<char>, cp_lo: u32, cp_hi: u32) -> Seq<
    chart::GraphModel,
> {
    utils::sort_by_gt(page_graphs(s, cp_lo, cp_hi), graph_gt(SORT_TOLERANCE as int))
}

/// The Code runs sorted horizontally with vertical tiebreak.
pub open spec fn page_codes_sorted_x(s: Seq<char>) -> Seq<chart::CodeModel> {
    utils::sort_by_gt(page_codes(s), code_gt_x(DEDUP_TOLERANCE as int))
}

/// The page parses, its streams resolve, and the Source and Graph streams
/// agree in count and, after sorting and row-splitting, in row count: the
/// layout correspondence on which the grid reconstruction rests.
pub open spec fn page_layout_ok(s: Seq<char>, cp_lo: u32, cp_hi: u32) -> bool {
    &&& page_stages_ok(s, cp_lo, cp_hi)
    &&& page_sources(s).len() == page_graphs(s, cp_lo, cp_hi).len()
    &&& utils::gap_segments(model_src_ys(page_sources_sorted(s)), ROW_SPLIT_GAP as int).len()
        == utils::gap_segments(
        model_graph_ys(page_graphs_sorted(s, cp_lo, cp_hi)),
        ROW_SPLIT_GAP as int,
    ).len()
}

/// One emitted table row: the code label as hexadecimal text, and the
/// ordered (transliteration, glyph path) cells of its grid cell.
pub struct TableRow {
    pub code_hex: Vec<char>,
    pub cells: Vec<(Vec<char>, Vec<char>)>,
}

/// Model of one table row.
pub ghost struct RowModel {
    pub code_hex: Seq<char>,
    pub cells: Seq<(Seq<char>, Seq<char>)>,
}

impl View for TableRow {
    type V = RowModel;

    open spec fn view(&self) -> RowModel {
        RowModel {
            code_hex: self.code_hex@,
            cells: self.cells@.map_values(|p: (Vec<char>, Vec<char>)| (p.0@, p.1@)),
        }
    }
}

pub open spec fn row_views(v: Seq<TableRow>) -> Seq<RowModel> {
    v.map_values(|r: TableRow| r@)
}

/// The (transliteration text, glyph path) cells of one bucket of pairs.
pub open spec fn cells_of(gs: Seq<(chart::GraphModel, chart::SourceModel)>) -> Seq<
    (Seq<char>, Seq<char>),
> {
    gs.map_values(|p: (chart::GraphModel, chart::SourceModel)| (p.1.text, p.0.drawn))
}

/// The Graph and Source streams zipped positionally.
pub open spec fn zip_models(gs: Seq<chart::GraphModel>, ss: Seq<chart::SourceModel>) -> Seq<
    (chart::GraphModel, chart::SourceModel),
> {
    Seq::new(
        chart::int_min(gs.len() as int, ss.len() as int) as nat,
        |i: int| (gs[i], ss[i]),
    )
}

/// The columns of the horizontally sorted Code stream: maximal runs of
/// equal horizontal position.
pub open spec fn code_columns(cs: Seq<chart::CodeModel>) -> Seq<Seq<chart::CodeModel>> {
    if cs.len() == 0 {
        Seq::empty()
    } else {
        Seq::new(
            utils::gap_segments(model_code_xs(cs), 0).len(),
            |g: int|
                cs.subrange(
                    utils::gap_segments(model_code_xs(cs), 0)[g].0,
                    utils::gap_segments(model_code_xs(cs), 0)[g].1,
                ),
        )
    }
}

/// The rows of one column: the `j`-th vertically sorted code labels the
/// `j`-th row bucket, as far as both reach.
pub open spec fn col_rows(
    codes_y: Seq<chart::CodeModel>,
    groups: Seq<Seq<(chart::GraphModel, chart::SourceModel)>>,
) -> Seq<RowModel> {
    Seq::new(
        chart::int_min(codes_y.len() as int, groups.len() as int) as nat,
        |j: int|
            RowModel {
                code_hex: chart::hex_digits_of(codes_y[j].codepoint as int),
                cells: cells_of(groups[j]),
            },
    )
}

/// The rows of one code column paired with one column bucket of pairs: the
/// codes sorted vertically rule the row intervals, the pairs are bucketed
/// by them, and each surviving bucket pairs with a code in order.
pub open spec fn rows_for_col(
    codes: Seq<chart::CodeModel>,
    col: Seq<(chart::GraphModel, chart::SourceModel)>,
) -> Seq<RowModel> {
    let cy = utils::sort_by_gt(codes, code_gt_y(DEDUP_TOLERANCE as int));
    let col_ranges = grid::intervals_of(grid::dedup_tol(model_code_ys(cy), DEDUP_TOLERANCE as int));
    col_rows(cy, grid::grouped(col, col_ranges, true))
}

/// The rows of the first `k` aligned (code column, pair column) couples.
pub open spec fn rows_up_to(
    cols_codes: Seq<Seq<chart::CodeModel>>,
    cols: Seq<Seq<(chart::GraphModel, chart::SourceModel)>>,
    k: int,
) -> Seq<RowModel>
    decreases k,
{
    if k <= 0 {
        Seq::empty()
    } else {
        rows_up_to(cols_codes, cols, k - 1) + rows_for_col(cols_codes[k - 1], cols[k - 1])
    }
}

proof fn lemma_zip_index(gs: Seq<chart::GraphModel>, ss: Seq<chart::SourceModel>, i: int)
    requires
        0 <= i < chart::int_min(gs.len() as int, ss.len() as int),
    ensures
        zip_models(gs, ss)[i] == (gs[i], ss[i]),
{
}

/// Every table row of the page, in emission order: pairs zipped from the
/// sorted streams are bucketed into columns by the Code stream's horizontal
/// boundary intervals, each column is bucketed into rows by its own codes'
/// vertical boundary intervals, and the columns are emitted left to right,
/// their rows top to bottom.
pub open spec fn page_rows(s: Seq<char>, cp_lo: u32, cp_hi: u32) -> Seq<RowModel> {
    let csx = page_codes_sorted_x(s);
    let cols_codes = code_columns(csx);
    let row_ranges = grid::intervals_of(
        grid::dedup_tol(model_code_xs(csx), DEDUP_TOLERANCE as int),
    );
    let pairs = zip_models(page_graphs_sorted(s, cp_lo, cp_hi), page_sources_sorted(s));
    let cols = grid::grouped(pairs, row_ranges, false);
    rows_up_to(
        cols_codes,
        cols,
        chart::int_min(cols_codes.len() as int, cols.len() as int),
    )
}

/// Reconstructs one page's table rows from its raw vector-drawing
/// description: parses the glyph dictionary and instruction list, classifies
/// and clusters the three streams, checks the Source/Graph layout
/// correspondence, and buckets the (Graph, Source) pairs into the grid ruled
/// by the Code stream. Succeeds exactly on the pages whose layout
/// correspondence holds, and then returns exactly the rows of
/// [`page_rows`], in emission order.
#[verifier::rlimit(100)]
pub fn process_page(page_svg: &Vec<char>, cp_lo: u32, cp_hi: u32) -> (r: Result<
    Vec<TableRow>,
    ChartError,
>)
    ensures
        r is Ok <==> page_layout_ok(page_svg@, cp_lo, cp_hi),
        r matches Ok(rows) ==> row_views(rows@) == page_rows(page_svg@, cp_lo, cp_hi),
        r matches Err(e) ==> e != ChartError::WorkbookWrite,
        r == Err::<Vec<TableRow>, ChartError>(ChartError::MalformedDescription) ==> (page_dict(
            page_svg@,
        ) is None || page_instrs(page_svg@) is None || chart::graph_result(
            page_instrs(page_svg@).unwrap(),
            page_dict(page_svg@).unwrap(),
            cp_lo,
            cp_hi,
        ) is None),
        r == Err::<Vec<TableRow>, ChartError>(ChartError::InvalidCodepoint) ==> (page_dict(
            page_svg@,
        ) is Some && page_instrs(page_svg@) is Some && chart::code_result(
            page_instrs(page_svg@).unwrap(),
            RUN_GAP_LIMIT as int,
        ) is None),
        r == Err::<Vec<TableRow>, ChartError>(ChartError::LayoutMismatch) ==> page_stages_ok(
            page_svg@,
            cp_lo,
            cp_hi,
        ) && !page_layout_ok(page_svg@, cp_lo, cp_hi),
        page_stages_ok(page_svg@, cp_lo, cp_hi) && !page_layout_ok(page_svg@, cp_lo, cp_hi)
            ==> r == Err::<Vec<TableRow>, ChartError>(ChartError::LayoutMismatch),
{
    let ghost pv = page_svg@;
    let font_dic = match parse::parse_font_drawn(page_svg) {
        Ok(d) => d,
        Err(e) => {
            return Err(e);
        },
    };
    let detail_list = match parse::parse_details(page_svg) {
        Ok(l) => l,
        Err(e) => {
            return Err(e);
        },
    };
    let mut source_vec = chart::ChartSource::new(&detail_list, RUN_GAP_LIMIT);
    let mut graph_vec = match chart::ChartGraph::new(&detail_list, &font_dic, cp_lo, cp_hi) {
        Ok(g) => g,
        Err(e) => {
            return Err(e);
        },
    };
    let mut code_vec = match chart::ChartCode::new(&detail_list, RUN_GAP_LIMIT) {
        Ok(c) => c,
        Err(e) => {
            return Err(e);
        },
    };
    let ghost srcs = page_sources(pv);
    let ghost gfs = page_graphs(pv, cp_lo, cp_hi);
    let ghost cds = page_codes(pv);
    let ghost ssorted = page_sources_sorted(pv);
    let ghost gsorted = page_graphs_sorted(pv, cp_lo, cp_hi);
    let ghost csx = page_codes_sorted_x(pv);
    proof {
        assert(parse::instr_views(detail_list@) == page_instrs(pv).unwrap());
        assert(chart::source_views(source_vec@) == srcs);
        assert(chart::graph_views(graph_vec@) == gfs);
        assert(chart::code_views(code_vec@) == cds);
    }
    let ghost sv0 = source_vec@;
    let ghost gv0 = graph_vec@;
    utils::EnhanceVec::sort_y_x(&mut source_vec, SORT_TOLERANCE);
    utils::EnhanceVec::sort_y_x(&mut graph_vec, SORT_TOLERANCE);
    proof {
        let fsrc = |c: chart::ChartSource| c@;
        let ga_s = utils::dual_gt_of::<chart::ChartSource>(SORT_TOLERANCE as int, true);
        let gb_s = src_gt(SORT_TOLERANCE as int);
        assert forall|x: chart::ChartSource, y: chart::ChartSource| #[trigger] ga_s(x, y) == gb_s(
            fsrc(x),
            fsrc(y),
        ) by {}
        utils::lemma_sort_map(sv0, fsrc, ga_s, gb_s);
        assert(chart::source_views(source_vec@) =~= utils::sort_by_gt(sv0, ga_s).map_values(fsrc));
        assert(sv0.map_values(fsrc) =~= srcs);
        assert(chart::source_views(source_vec@) == ssorted);
        let fg = |c: chart::ChartGraph| c@;
        let ga_g = utils::dual_gt_of::<chart::ChartGraph>(SORT_TOLERANCE as int, true);
        let gb_g = graph_gt(SORT_TOLERANCE as int);
        assert forall|x: chart::ChartGraph, y: chart::ChartGraph| #[trigger] ga_g(x, y) == gb_g(
            fg(x),
            fg(y),
        ) by {}
        utils::lemma_sort_map(gv0, fg, ga_g, gb_g);
        assert(chart::graph_views(graph_vec@) =~= utils::sort_by_gt(gv0, ga_g).map_values(fg));
        assert(gv0.map_values(fg) =~= gfs);
        assert(chart::graph_views(graph_vec@) == gsorted);
    }
    let source_rows = utils::split_chart_source(&source_vec, ROW_SPLIT_GAP);
    let graph_rows = utils::split_chart_graph(&graph_vec, ROW_SPLIT_GAP);
    proof {
        assert(utils::source_ys(source_vec@) =~= model_src_ys(ssorted));
        assert(utils::graph_ys(graph_vec@) =~= model_graph_ys(gsorted));
        assert(source_vec@.len() == srcs.len());
        assert(graph_vec@.len() == gfs.len());
    }
    if !(source_vec.len() == graph_vec.len() && source_rows.len() == graph_rows.len()) {
        return Err(ChartError::LayoutMismatch);
    }
    let ghost cv0 = code_vec@;
    let mut code_vec_split = grid::split_code_vec(&mut code_vec);
    proof {
        let fcode = |c: chart::ChartCode| c@;
        let ga_c = utils::dual_gt_of::<chart::ChartCode>(DEDUP_TOLERANCE as int, false);
        let gb_c = code_gt_x(DEDUP_TOLERANCE as int);
        assert forall|x: chart::ChartCode, y: chart::ChartCode| #[trigger] ga_c(x, y) == gb_c(
            fcode(x),
            fcode(y),
        ) by {}
        utils::lemma_sort_map(cv0, fcode, ga_c, gb_c);
        assert(chart::code_views(code_vec@) =~= utils::sort_by_gt(cv0, ga_c).map_values(fcode));
        assert(cv0.map_values(fcode) =~= cds);
        assert(chart::code_views(code_vec@) == csx);
    }
    let ghost ccols = code_columns(csx);
    proof {
        assert(grid::code_xs(code_vec@) =~= model_code_xs(csx));
        if code_vec@.len() > 0 {
            assert(code_vec_split@.len() == ccols.len());
            utils::lemma_gap_segments_bounds(model_code_xs(csx), 0);
            assert forall|g: int| 0 <= g < ccols.len() implies chart::code_views(
                (#[trigger] code_vec_split@[g])@,
            ) == ccols[g] by {
                let segs = utils::gap_segments(model_code_xs(csx), 0);
                assert(0 <= segs[g].0 <= segs[g].1 <= csx.len());
                assert(code_vec_split@[g]@ == code_vec@.subrange(segs[g].0, segs[g].1));
                assert(chart::code_views(code_vec@.subrange(segs[g].0, segs[g].1)) =~= csx.subrange(
                    segs[g].0,
                    segs[g].1,
                ));
            }
        } else {
            assert(csx.len() == 0);
            assert(ccols.len() == 0);
        }
    }
    let ghost sorted_code = code_vec@;
    let row_ranges = grid::get_row_range_from_code_vec(&mut code_vec);
    let ghost rring = grid::intervals_of(
        grid::dedup_tol(model_code_xs(csx), DEDUP_TOLERANCE as int),
    );
    proof {
        let ga_c = utils::dual_gt_of::<chart::ChartCode>(DEDUP_TOLERANCE as int, false);
        assert(forall|i: int|
            0 <= i < sorted_code.len() - 1 ==> !#[trigger] ga_c(sorted_code[i], sorted_code[i + 1]));
        utils::lemma_sort_of_sorted(sorted_code, ga_c);
        assert(code_vec@ == sorted_code);
        assert(grid::code_xs(code_vec@) =~= model_code_xs(csx));
        assert(grid::iv_views(row_ranges@) == rring);
    }
    let ghost pairsv = zip_models(gsorted, ssorted);
    let mut pairs: Vec<(chart::ChartGraph, chart::ChartSource)> = Vec::new();
    proof {
        assert(gsorted.len() == ssorted.len());
        assert(pairsv.len() == gsorted.len());
        assert(grid::pair_views(pairs@) =~= pairsv.take(0));
        assert(chart::graph_views(graph_vec@) =~= gsorted.skip(0));
        assert(chart::source_views(source_vec@) =~= ssorted.skip(0));
    }
    while graph_vec.len() > 0 && source_vec.len() > 0
        invariant
            gsorted.len() == ssorted.len(),
            pairsv == zip_models(gsorted, ssorted),
            pairsv.len() == gsorted.len(),
            graph_vec@.len() == source_vec@.len(),
            pairs@.len() + graph_vec@.len() == gsorted.len(),
            chart::graph_views(graph_vec@) == gsorted.skip(pairs@.len() as int),
            chart::source_views(source_vec@) == ssorted.skip(pairs@.len() as int),
            grid::pair_views(pairs@) == pairsv.take(pairs@.len() as int),
        decreases graph_vec@.len(),
    {
        let ghost k = pairs@.len() as int;
        let ghost og = graph_vec@;
        let ghost os = source_vec@;
        let g = graph_vec.remove(0);
        let s2 = source_vec.remove(0);
        proof {
            assert(chart::graph_views(og)[0] == og[0]@);
            assert(chart::source_views(os)[0] == os[0]@);
            assert(g@ == gsorted.skip(k)[0]);
            assert(s2@ == ssorted.skip(k)[0]);
            assert forall|x: int| 0 <= x < graph_vec@.len() implies #[trigger] chart::graph_views(
                graph_vec@,
            )[x] == gsorted.skip(k + 1)[x] by {
                assert(graph_vec@[x] == og[x + 1]);
                assert(chart::graph_views(og)[x + 1] == og[x + 1]@);
                assert(gsorted.skip(k)[x + 1] == gsorted[k + 1 + x]);
            }
            assert(chart::graph_views(graph_vec@) =~= gsorted.skip(k + 1));
            assert forall|x: int| 0 <= x < source_vec@.len() implies #[trigger] chart::source_views(
                source_vec@,
            )[x] == ssorted.skip(k + 1)[x] by {
                assert(source_vec@[x] == os[x + 1]);
                assert(chart::source_views(os)[x + 1] == os[x + 1]@);
                assert(ssorted.skip(k)[x + 1] == ssorted[k + 1 + x]);
            }
            assert(chart::source_views(source_vec@) =~= ssorted.skip(k + 1));
        }
        let ghost prevpairs = pairs@;
        pairs.push((g, s2));
        proof {
            assert forall|x: int| 0 <= x < pairs@.len() implies #[trigger] grid::pair_views(
                pairs@,
            )[x] == pairsv.take(k + 1)[x] by {
                assert(pairsv.take(k + 1)[x] == pairsv[x]);
                if x < k {
                    assert(pairs@[x] == prevpairs[x]);
                    assert(grid::pair_views(prevpairs)[x] == pairsv.take(k)[x]);
                    assert(pairsv.take(k)[x] == pairsv[x]);
                    assert(grid::pair_views(pairs@)[x] == (pairs@[x].0@, pairs@[x].1@));
                    assert(grid::pair_views(prevpairs)[x] == (prevpairs[x].0@, prevpairs[x].1@));
                } else {
                    assert(pairs@[x] == (g, s2));
                    assert(grid::pair_views(pairs@)[x] == (g@, s2@));
                    assert(g@ == gsorted[k]);
                    assert(s2@ == ssorted[k]);
                    lemma_zip_index(gsorted, ssorted, k);
                }
            }
            assert(grid::pair_views(pairs@) =~= pairsv.take(k + 1));
        }
    }
    proof {
        assert(pairs@.len() == gsorted.len());
        assert(grid::pair_views(pairs@) =~= pairsv);
    }
    let cols = grid::group_graph_source_iter_by_col(pairs, &row_ranges);
    let ghost gcols = grid::grouped(pairsv, rring, false);
    proof {
        assert(cols@.map_values(|b: Vec<(chart::ChartGraph, chart::ChartSource)>| grid::pair_views(
            b@,
        )) == gcols);
        assert forall|g: int| 0 <= g < cols@.len() implies grid::pair_views(
            (#[trigger] cols@[g])@,
        ) == gcols[g] by {
            assert(cols@.map_values(
                |b: Vec<(chart::ChartGraph, chart::ChartSource)>| grid::pair_views(b@),
            )[g] == grid::pair_views(cols@[g]@));
        }
        assert(cols@.len() == gcols.len());
    }
    let mut cols_rest = cols;
    let mut rows_out: Vec<TableRow> = Vec::new();
    let ghost kmin = chart::int_min(ccols.len() as int, gcols.len() as int);
    proof {
        assert(row_views(rows_out@) =~= rows_up_to(ccols, gcols, 0));
    }
    while code_vec_split.len() > 0 && cols_rest.len() > 0
        invariant
            code_vec_split@.len() <= ccols.len(),
            cols_rest@.len() <= gcols.len(),
            ccols.len() - code_vec_split@.len() == gcols.len() - cols_rest@.len(),
            forall|g: int|
                0 <= g < code_vec_split@.len() ==> chart::code_views(
                    (#[trigger] code_vec_split@[g])@,
                ) == ccols[ccols.len() - code_vec_split@.len() + g],
            forall|g: int|
                0 <= g < cols_rest@.len() ==> grid::pair_views((#[trigger] cols_rest@[g])@)
                    == gcols[gcols.len() - cols_rest@.len() + g],
            row_views(rows_out@) == rows_up_to(
                ccols,
                gcols,
                ccols.len() - code_vec_split@.len(),
            ),
        decreases code_vec_split@.len(),
    {
        let ghost t = ccols.len() - code_vec_split@.len();
        let ghost ocs = code_vec_split@;
        let ghost ocr = cols_rest@;
        let mut code_each = code_vec_split.remove(0);
        let col_each = cols_rest.remove(0);
        proof {
            assert(chart::code_views(code_each@) == ccols[t]);
            assert(grid::pair_views(col_each@) == gcols[t]);
            assert forall|g: int| 0 <= g < code_vec_split@.len() implies chart::code_views(
                (#[trigger] code_vec_split@[g])@,
            ) == ccols[t + 1 + g] by {
                assert(code_vec_split@[g] == ocs[g + 1]);
            }
            assert forall|g: int| 0 <= g < cols_rest@.len() implies grid::pair_views(
                (#[trigger] cols_rest@[g])@,
            ) == gcols[t + 1 + g] by {
                assert(cols_rest@[g] == ocr[g + 1]);
            }
        }
        let ghost ce0 = code_each@;
        let col_ranges = grid::get_col_range_from_code_vec(&mut code_each);
        let ghost cy = utils::sort_by_gt(ccols[t], code_gt_y(DEDUP_TOLERANCE as int));
        let ghost crng = grid::intervals_of(
            grid::dedup_tol(model_code_ys(cy), DEDUP_TOLERANCE as int),
        );
        proof {
            let fcode = |c: chart::ChartCode| c@;
            let ga_cy = utils::dual_gt_of::<chart::ChartCode>(DEDUP_TOLERANCE as int, true);
            let gb_cy = code_gt_y(DEDUP_TOLERANCE as int);
            assert forall|x: chart::ChartCode, y: chart::ChartCode| #[trigger] ga_cy(x, y)
                == gb_cy(fcode(x), fcode(y)) by {}
            utils::lemma_sort_map(ce0, fcode, ga_cy, gb_cy);
            assert(chart::code_views(code_each@) =~= utils::sort_by_gt(ce0, ga_cy).map_values(
                fcode,
            ));
            assert(ce0.map_values(fcode) =~= ccols[t]);
            assert(chart::code_views(code_each@) == cy);
            assert(grid::code_ys(code_each@) =~= model_code_ys(cy));
            assert(grid::iv_views(col_ranges@) == crng);
        }
        let mut elements = grid::group_graph_source_iter_by_row(col_each, &col_ranges);
        let ghost egroups = grid::grouped(gcols[t], crng, true);
        proof {
            assert forall|g: int| 0 <= g < elements@.len() implies grid::pair_views(
                (#[trigger] elements@[g])@,
            ) == egroups[g] by {
                assert(elements@.map_values(
                    |b: Vec<(chart::ChartGraph, chart::ChartSource)>| grid::pair_views(b@),
                )[g] == grid::pair_views(elements@[g]@));
            }
            assert(elements@.len() == egroups.len());
            assert(row_views(rows_out@) + col_rows(cy, egroups).take(0) =~= row_views(rows_out@));
        }
        let mut k: usize = 0;
        while k < code_each.len() && elements.len() > 0
            invariant
                chart::code_views(code_each@) == cy,
                code_each@.len() == cy.len(),
                k <= cy.len(),
                k + elements@.len() == egroups.len(),
                k as int <= chart::int_min(cy.len() as int, egroups.len() as int),
                forall|g: int|
                    0 <= g < elements@.len() ==> grid::pair_views((#[trigger] elements@[g])@)
                        == egroups[k + g],
                row_views(rows_out@) == rows_up_to(ccols, gcols, t) + col_rows(
                    cy,
                    egroups,
                ).take(k as int),
            decreases code_each@.len() - k,
        {
            let code = code_each[k];
            let ghost oel = elements@;
            let gs = elements.remove(0);
            proof {
                assert(grid::pair_views(gs@) == egroups[k as int]);
                assert forall|g: int| 0 <= g < elements@.len() implies grid::pair_views(
                    (#[trigger] elements@[g])@,
                ) == egroups[k as int + 1 + g] by {
                    assert(elements@[g] == oel[g + 1]);
                }
                assert(code@ == cy[k as int]);
            }
            let mut gs_rest = gs;
            let ghost gsv = egroups[k as int];
            let mut cells: Vec<(Vec<char>, Vec<char>)> = Vec::new();
            proof {
                assert(cells@.map_values(|p: (Vec<char>, Vec<char>)| (p.0@, p.1@)) =~= cells_of(
                    gsv,
                ).take(0));
            }
            while gs_rest.len() > 0
                invariant
                    gsv == egroups[k as int],
                    cells@.len() + gs_rest@.len() == gsv.len(),
                    grid::pair_views(gs_rest@) == gsv.skip(cells@.len() as int),
                    cells@.map_values(|p: (Vec<char>, Vec<char>)| (p.0@, p.1@)) == cells_of(
                        gsv,
                    ).take(cells@.len() as int),
                decreases gs_rest@.len(),
            {
                let ghost j = cells@.len() as int;
                let ghost ogs = gs_rest@;
                let ghost oc = cells@;
                let (g, s3) = gs_rest.remove(0);
                proof {
                    assert(grid::pair_views(ogs)[0] == (ogs[0].0@, ogs[0].1@));
                    assert((g@, s3@) == gsv.skip(j)[0]);
                    assert((g@, s3@) == gsv[j]);
                    assert forall|x: int| 0 <= x < gs_rest@.len() implies #[trigger] grid::pair_views(
                        gs_rest@,
                    )[x] == gsv.skip(j + 1)[x] by {
                        assert(gs_rest@[x] == ogs[x + 1]);
                        assert(grid::pair_views(ogs)[x + 1] == (ogs[x + 1].0@, ogs[x + 1].1@));
                        assert(gsv.skip(j)[x + 1] == gsv[j + 1 + x]);
                    }
                    assert(grid::pair_views(gs_rest@) =~= gsv.skip(j + 1));
                }
                cells.push((s3.source, g.drawn));
                proof {
                    let nv = cells@.map_values(|p: (Vec<char>, Vec<char>)| (p.0@, p.1@));
                    assert forall|x: int| 0 <= x < cells@.len() implies #[trigger] nv[x]
                        == cells_of(gsv).take(j + 1)[x] by {
                        if x < j {
                            assert(cells@[x] == oc[x]);
                            assert(oc.map_values(|p: (Vec<char>, Vec<char>)| (p.0@, p.1@))[x]
                                == cells_of(gsv).take(j)[x]);
                        } else {
                            assert(cells@[x] == (s3.source, g.drawn));
                            assert(cells_of(gsv)[j] == (gsv[j].1.text, gsv[j].0.drawn));
                        }
                    }
                    assert(cells@.map_values(|p: (Vec<char>, Vec<char>)| (p.0@, p.1@))
                        =~= cells_of(gsv).take(j + 1));
                }
            }
            proof {
                assert(cells@.map_values(|p: (Vec<char>, Vec<char>)| (p.0@, p.1@)) =~= cells_of(
                    gsv,
                ));
            }
            let ghost orows = rows_out@;
            rows_out.push(TableRow { code_hex: code.hex(), cells });
            proof {
                assert(col_rows(cy, egroups).len() == chart::int_min(
                    cy.len() as int,
                    egroups.len() as int,
                ));
                assert(k as int + 1 <= col_rows(cy, egroups).len());
                assert(row_views(orows).len() == rows_up_to(ccols, gcols, t).len() + k as int);
                assert(rows_out@.last()@ == col_rows(cy, egroups)[k as int]);
                assert forall|x: int| 0 <= x < rows_out@.len() implies #[trigger] row_views(
                    rows_out@,
                )[x] == (rows_up_to(ccols, gcols, t) + col_rows(cy, egroups).take(
                    k as int + 1,
                ))[x] by {
                    if x < orows.len() {
                        assert(rows_out@[x] == orows[x]);
                        assert(row_views(orows)[x] == (rows_up_to(ccols, gcols, t) + col_rows(
                            cy,
                            egroups,
                        ).take(k as int))[x]);
                    } else {
                        assert(rows_out@[x] == rows_out@.last());
                    }
                }
                assert(row_views(rows_out@) =~= rows_up_to(ccols, gcols, t) + col_rows(
                    cy,
                    egroups,
                ).take(k as int + 1));
            }
            k += 1;
        }
        proof {
            assert(k as int == chart::int_min(cy.len() as int, egroups.len() as int));
            assert(col_rows(cy, egroups).take(k as int) =~= col_rows(cy, egroups));
            assert(rows_for_col(ccols[t], gcols[t]) == col_rows(cy, egroups));
            assert(rows_up_to(ccols, gcols, t + 1) == rows_up_to(ccols, gcols, t) + rows_for_col(
                ccols[t],
                gcols[t],
            ));
        }
    }
    proof {
        assert(ccols.len() - code_vec_split@.len() == kmin);
        assert(row_views(rows_out@) == page_rows(pv, cp_lo, cp_hi));
    }
    Ok(rows_out)
}

} // verus!
