//! The output workbook: a cursor over sheets and three-row blocks, with the
//! cell writes delegated to the `rust_xlsxwriter` crate behind trusted
//! wrappers. The verified state is the cursor (current sheet, current row)
//! and a ghost model of the workbook: how many worksheets it holds, the
//! ordered log of the cell operations performed on it, and a log of the
//! emitted table rows.
use vstd::prelude::*;

use crate::ChartError;

verus! {

/// One past the largest row index a worksheet cell can have.
pub const EXCEL_MAX_ROW: u32 = 1048576;

/// One past the largest column index a worksheet cell can have.
pub const EXCEL_MAX_COL: u16 = 16384;

/// The largest number of characters a cell text can hold.
pub const EXCEL_MAX_TEXT: usize = 32767;

/// Declares `rust_xlsxwriter::Workbook`, the opaque output workbook.
#[verifier::external_type_specification]
#[verifier::external_body]
pub struct ExWorkbook(rust_xlsxwriter::Workbook);

/// Declares `rust_xlsxwriter::Format`, an opaque cell format.
#[verifier::external_type_specification]
#[verifier::external_body]
pub struct ExFormat(rust_xlsxwriter::Format);

/// Declares `rust_xlsxwriter::Image`, an opaque embeddable raster image.
#[verifier::external_type_specification]
#[verifier::external_body]
pub struct ExImage(rust_xlsxwriter::Image);

/// The border-and-alignment style a cell is written with: the heavy merged
/// first column, or the top, middle or bottom sub-row of a middle or last
/// data column.
pub ghost enum FormatTag {
    First,
    MiddleTop,
    MiddleMiddle,
    MiddleBottom,
    LastTop,
    LastMiddle,
    LastBottom,
}

/// One recorded workbook mutation: a formatted text cell, a merged range, an
/// anchored image, a row height or a column width.
pub ghost enum CellOp {
    Text { sheet: int, row: int, col: int, text: Seq<char>, fmt: FormatTag },
    Merge {
        sheet: int,
        first_row: int,
        first_col: int,
        last_row: int,
        last_col: int,
        text: Seq<char>,
        fmt: FormatTag,
    },
    Image { sheet: int, row: int, col: int, x_offset: int, y_offset: int },
    RowHeight { sheet: int, row: int, height: int },
    ColWidth { sheet: int, col: int, width: int },
}

/// A recorded merge on sheet `cur_sheet` lies strictly above row `cur_row`;
/// merges on later sheets do not exist at all.
pub open spec fn merge_ok(op: CellOp, cur_sheet: int, cur_row: int) -> bool {
    match op {
        CellOp::Merge { sheet, last_row, .. } => sheet <= cur_sheet && (sheet == cur_sheet
            ==> last_row < cur_row),
        _ => true,
    }
}

/// The recorded operation is a merge on sheet `sheet` whose rectangle
/// intersects the rectangle `(fr, fc)..=(lr, lc)`.
pub open spec fn merge_overlaps(op: CellOp, sheet: int, fr: int, fc: int, lr: int, lc: int) -> bool {
    match op {
        CellOp::Merge { sheet: s, first_row, first_col, last_row, last_col, .. } => s == sheet
            && first_row <= lr && fr <= last_row && first_col <= lc && fc <= last_col,
        _ => false,
    }
}

/// An opaque `rust_xlsxwriter` cell format labelled with the style it was
/// built with, so that the operation log can name it.
pub struct CellFormat {
    fmt: rust_xlsxwriter::Format,
    tag: Ghost<FormatTag>,
}

impl CellFormat {
    /// The style this format was built with.
    pub closed spec fn tag(&self) -> FormatTag {
        self.tag@
    }
}

/// Relies on `rust_xlsxwriter::Workbook::new`: a fresh workbook holding no
/// worksheets.
#[verifier::external_body]
fn wb_new() -> rust_xlsxwriter::Workbook {
    rust_xlsxwriter::Workbook::new()
}

/// Relies on `rust_xlsxwriter::Format` and its border and alignment
/// builders: the heavy-bordered, centered format of the merged first column.
#[verifier::external_body]
fn first_format() -> rust_xlsxwriter::Format {
    rust_xlsxwriter::Format::new()
        .set_border_top(rust_xlsxwriter::FormatBorder::Thick)
        .set_border_left(rust_xlsxwriter::FormatBorder::Thick)
        .set_border_bottom(rust_xlsxwriter::FormatBorder::Thick)
        .set_border_right(rust_xlsxwriter::FormatBorder::Thin)
        .set_align(rust_xlsxwriter::FormatAlign::Center)
        .set_align(rust_xlsxwriter::FormatAlign::VerticalCenter)
}

/// Relies on `rust_xlsxwriter::Format` builders: top sub-row of a middle
/// column (thick table-top rule, thin verticals).
#[verifier::external_body]
fn middle_top_format() -> rust_xlsxwriter::Format {
    rust_xlsxwriter::Format::new()
        .set_border_top(rust_xlsxwriter::FormatBorder::Thick)
        .set_border_left(rust_xlsxwriter::FormatBorder::Thin)
        .set_border_bottom(rust_xlsxwriter::FormatBorder::Thin)
        .set_border_right(rust_xlsxwriter::FormatBorder::Thin)
        .set_align(rust_xlsxwriter::FormatAlign::Center)
        .set_align(rust_xlsxwriter::FormatAlign::VerticalCenter)
}

/// Relies on `rust_xlsxwriter::Format` builders: middle sub-row of a middle
/// column (thin rules all around).
#[verifier::external_body]
fn middle_middle_format() -> rust_xlsxwriter::Format {
    rust_xlsxwriter::Format::new()
        .set_border_top(rust_xlsxwriter::FormatBorder::Thin)
        .set_border_left(rust_xlsxwriter::FormatBorder::Thin)
        .set_border_bottom(rust_xlsxwriter::FormatBorder::Thin)
        .set_border_right(rust_xlsxwriter::FormatBorder::Thin)
        .set_align(rust_xlsxwriter::FormatAlign::Center)
        .set_align(rust_xlsxwriter::FormatAlign::VerticalCenter)
}

/// Relies on `rust_xlsxwriter::Format` builders: bottom sub-row of a middle
/// column (thick table-bottom rule).
#[verifier::external_body]
fn middle_bottom_format() -> rust_xlsxwriter::Format {
    rust_xlsxwriter::Format::new()
        .set_border_top(rust_xlsxwriter::FormatBorder::Thin)
        .set_border_left(rust_xlsxwriter::FormatBorder::Thin)
        .set_border_bottom(rust_xlsxwriter::FormatBorder::Thick)
        .set_border_right(rust_xlsxwriter::FormatBorder::Thin)
        .set_align(rust_xlsxwriter::FormatAlign::Center)
        .set_align(rust_xlsxwriter::FormatAlign::VerticalCenter)
}

/// Relies on `rust_xlsxwriter::Format` builders: top sub-row of the last
/// column (thick right outer rule).
#[verifier::external_body]
fn last_top_format() -> rust_xlsxwriter::Format {
    rust_xlsxwriter::Format::new()
        .set_border_top(rust_xlsxwriter::FormatBorder::Thick)
        .set_border_left(rust_xlsxwriter::FormatBorder::Thin)
        .set_border_bottom(rust_xlsxwriter::FormatBorder::Thin)
        .set_border_right(rust_xlsxwriter::FormatBorder::Thick)
        .set_align(rust_xlsxwriter::FormatAlign::Center)
        .set_align(rust_xlsxwriter::FormatAlign::VerticalCenter)
}

/// Relies on `rust_xlsxwriter::Format` builders: middle sub-row of the last
/// column.
#[verifier::external_body]
fn last_middle_format() -> rust_xlsxwriter::Format {
    rust_xlsxwriter::Format::new()
        .set_border_top(rust_xlsxwriter::FormatBorder::Thin)
        .set_border_left(rust_xlsxwriter::FormatBorder::Thin)
        .set_border_bottom(rust_xlsxwriter::FormatBorder::Thin)
        .set_border_right(rust_xlsxwriter::FormatBorder::Thick)
        .set_align(rust_xlsxwriter::FormatAlign::Center)
        .set_align(rust_xlsxwriter::FormatAlign::VerticalCenter)
}

/// Relies on `rust_xlsxwriter::Format` builders: bottom sub-row of the last
/// column.
#[verifier::external_body]
fn last_bottom_format() -> rust_xlsxwriter::Format {
    rust_xlsxwriter::Format::new()
        .set_border_top(rust_xlsxwriter::FormatBorder::Thin)
        .set_border_left(rust_xlsxwriter::FormatBorder::Thin)
        .set_border_bottom(rust_xlsxwriter::FormatBorder::Thick)
        .set_border_right(rust_xlsxwriter::FormatBorder::Thick)
        .set_align(rust_xlsxwriter::FormatAlign::Center)
        .set_align(rust_xlsxwriter::FormatAlign::VerticalCenter)
}

fn fmt_first() -> (r: CellFormat)
    ensures
        r.tag() == FormatTag::First,
{
    CellFormat { fmt: first_format(), tag: Ghost(FormatTag::First) }
}

fn fmt_middle_top() -> (r: CellFormat)
    ensures
        r.tag() == FormatTag::MiddleTop,
{
    CellFormat { fmt: middle_top_format(), tag: Ghost(FormatTag::MiddleTop) }
}

fn fmt_middle_middle() -> (r: CellFormat)
    ensures
        r.tag() == FormatTag::MiddleMiddle,
{
    CellFormat { fmt: middle_middle_format(), tag: Ghost(FormatTag::MiddleMiddle) }
}

fn fmt_middle_bottom() -> (r: CellFormat)
    ensures
        r.tag() == FormatTag::MiddleBottom,
{
    CellFormat { fmt: middle_bottom_format(), tag: Ghost(FormatTag::MiddleBottom) }
}

fn fmt_last_top() -> (r: CellFormat)
    ensures
        r.tag() == FormatTag::LastTop,
{
    CellFormat { fmt: last_top_format(), tag: Ghost(FormatTag::LastTop) }
}

fn fmt_last_middle() -> (r: CellFormat)
    ensures
        r.tag() == FormatTag::LastMiddle,
{
    CellFormat { fmt: last_middle_format(), tag: Ghost(FormatTag::LastMiddle) }
}

fn fmt_last_bottom() -> (r: CellFormat)
    ensures
        r.tag() == FormatTag::LastBottom,
{
    CellFormat { fmt: last_bottom_format(), tag: Ghost(FormatTag::LastBottom) }
}

/// Record of one emitted table row: where it went and what it held.
pub ghost struct RowStamp {
    pub sheet: int,
    pub row: int,
    pub code: Seq<char>,
    pub cells: int,
}

/// The filler cells written after the `col_count` data columns of the
/// three-row block at `row`: empty middle-style cells up to `col_max`, then
/// the last column restyled with the thick right rule (its top cell only
/// when some column precedes it).
pub open spec fn mid_col_ops(sheet: int, row: int, col: int) -> Seq<CellOp> {
    seq![
        CellOp::Text { sheet, row, col, text: Seq::empty(), fmt: FormatTag::MiddleTop },
        CellOp::Text {
            sheet,
            row: row + 1,
            col,
            text: Seq::empty(),
            fmt: FormatTag::MiddleMiddle,
        },
        CellOp::Text {
            sheet,
            row: row + 2,
            col,
            text: Seq::empty(),
            fmt: FormatTag::MiddleBottom,
        },
    ]
}

/// The middle-style filler cells of the `cnt` columns starting at `col0`.
pub open spec fn mid_cols_ops(sheet: int, row: int, col0: int, cnt: int) -> Seq<CellOp>
    decreases cnt,
{
    if cnt <= 0 {
        Seq::empty()
    } else {
        mid_cols_ops(sheet, row, col0, cnt - 1) + mid_col_ops(sheet, row, col0 + cnt - 1)
    }
}

/// The closing writes of the last column `col_max`.
pub open spec fn last_col_ops(sheet: int, row: int, col_count: int, col_max: int) -> Seq<CellOp> {
    (if col_count != col_max {
        seq![
            CellOp::Text {
                sheet,
                row,
                col: col_max,
                text: Seq::empty(),
                fmt: FormatTag::LastTop,
            },
        ]
    } else {
        Seq::empty()
    }) + seq![
        CellOp::Text {
            sheet,
            row: row + 1,
            col: col_max,
            text: Seq::empty(),
            fmt: FormatTag::LastMiddle,
        },
        CellOp::Text {
            sheet,
            row: row + 2,
            col: col_max,
            text: Seq::empty(),
            fmt: FormatTag::LastBottom,
        },
    ]
}

/// Everything `add_format` writes.
pub open spec fn filler_ops(sheet: int, row: int, col_count: int, col_max: int) -> Seq<CellOp> {
    mid_cols_ops(sheet, row, col_count + 1, col_max - col_count) + last_col_ops(
        sheet,
        row,
        col_count,
        col_max,
    )
}

/// The writes of the data column `col`: its text in the top sub-row, its
/// 85-pixel column width, its image anchored in the middle sub-row with a
/// one-pixel offset, and the empty middle and bottom sub-row cells.
pub open spec fn data_cell_ops(sheet: int, row: int, col: int, text: Seq<char>, is_last: bool) -> Seq<
    CellOp,
> {
    seq![
        CellOp::Text {
            sheet,
            row,
            col,
            text,
            fmt: if is_last {
                FormatTag::LastTop
            } else {
                FormatTag::MiddleTop
            },
        },
        CellOp::ColWidth { sheet, col, width: 85 },
        CellOp::Image { sheet, row: row + 1, col, x_offset: 1, y_offset: 1 },
        CellOp::Text {
            sheet,
            row: row + 1,
            col,
            text: Seq::empty(),
            fmt: FormatTag::MiddleMiddle,
        },
        CellOp::Text {
            sheet,
            row: row + 2,
            col,
            text: Seq::empty(),
            fmt: FormatTag::MiddleBottom,
        },
    ]
}

/// The writes of the first `cnt` data columns, holding the texts of `cells`.
pub open spec fn data_cells_ops(
    sheet: int,
    row: int,
    cells: Seq<Seq<char>>,
    col_max: int,
    cnt: int,
) -> Seq<CellOp>
    decreases cnt,
{
    if cnt <= 0 {
        Seq::empty()
    } else {
        data_cells_ops(sheet, row, cells, col_max, cnt - 1) + data_cell_ops(
            sheet,
            row,
            cnt,
            cells[cnt - 1],
            cnt == col_max,
        )
    }
}

/// Everything `add_row` writes on success: the 85-pixel image-row height,
/// the merged three-row code cell in column zero, one data column per cell
/// text, and the bordered filler up to `col_max`.
pub open spec fn row_ops(
    sheet: int,
    row: int,
    code: Seq<char>,
    cells: Seq<Seq<char>>,
    col_max: int,
) -> Seq<CellOp> {
    seq![
        CellOp::RowHeight { sheet, row: row + 1, height: 85 },
        CellOp::Merge {
            sheet,
            first_row: row,
            first_col: 0,
            last_row: row + 2,
            last_col: 0,
            text: code,
            fmt: FormatTag::First,
        },
    ] + data_cells_ops(sheet, row, cells, col_max, cells.len() as int) + filler_ops(
        sheet,
        row,
        cells.len() as int,
        col_max,
    )
}

/// The output workbook with its running cursor: each table row occupies
/// three physical rows; starting a new sheet resets the row cursor.
pub struct Xlsx {
    workbook: rust_xlsxwriter::Workbook,
    current_row: u32,
    current_sheet: usize,
    sheet_total: Ghost<int>,
    ops_log: Ghost<Seq<CellOp>>,
    rows_log: Ghost<Seq<RowStamp>>,
}

impl Xlsx {
    /// Physical row cursor.
    pub closed spec fn spec_row(&self) -> int {
        self.current_row as int
    }

    /// Current sheet index.
    pub closed spec fn spec_sheet(&self) -> int {
        self.current_sheet as int
    }

    /// How many worksheets the workbook holds.
    pub closed spec fn sheet_count(&self) -> int {
        self.sheet_total@
    }

    /// The cell operations performed so far, in order.
    pub closed spec fn ops(&self) -> Seq<CellOp> {
        self.ops_log@
    }

    /// The table rows emitted so far, in order.
    pub closed spec fn log(&self) -> Seq<RowStamp> {
        self.rows_log@
    }

    /// The cursor points at an existing worksheet.
    pub open spec fn sheet_ok(&self) -> bool {
        0 <= self.spec_sheet() < self.sheet_count()
    }

    /// The cursor points at the last worksheet and every merged range on it
    /// lies strictly above the row cursor.
    pub open spec fn wf(&self) -> bool {
        &&& self.sheet_count() == self.spec_sheet() + 1
        &&& self.spec_sheet() >= 0
        &&& forall|i: int|
            0 <= i < self.ops().len() ==> merge_ok(
                #[trigger] self.ops()[i],
                self.spec_sheet(),
                self.spec_row(),
            )
    }

    /// Relies on `Workbook::add_worksheet`: appends exactly one worksheet
    /// and touches nothing else.
    #[verifier::external_body]
    fn add_sheet(&mut self)
        ensures
            final(self).sheet_count() == old(self).sheet_count() + 1,
            final(self).spec_row() == old(self).spec_row(),
            final(self).spec_sheet() == old(self).spec_sheet(),
            final(self).ops() == old(self).ops(),
            final(self).log() == old(self).log(),
    {
        self.workbook.add_worksheet();
    }

    /// Relies on `Workbook::worksheet_from_index` and
    /// `Worksheet::write_with_format` (through `store_string` and
    /// `store_blank`): the write succeeds exactly when the sheet exists and
    /// the cell and text are within the worksheet limits, and then stores
    /// the formatted text in that cell.
    #[verifier::external_body]
    fn write_cell(&mut self, row: u32, col: u16, text: &Vec<char>, fmt: &CellFormat) -> (r: bool)
        ensures
            r == (old(self).sheet_ok() && row < EXCEL_MAX_ROW && col < EXCEL_MAX_COL && text@.len()
                <= EXCEL_MAX_TEXT),
            final(self).spec_row() == old(self).spec_row(),
            final(self).spec_sheet() == old(self).spec_sheet(),
            final(self).sheet_count() == old(self).sheet_count(),
            final(self).log() == old(self).log(),
            r ==> final(self).ops() == old(self).ops().push(
                CellOp::Text {
                    sheet: old(self).spec_sheet(),
                    row: row as int,
                    col: col as int,
                    text: text@,
                    fmt: fmt.tag(),
                },
            ),
            !r ==> final(self).ops() == old(self).ops(),
    {
        let s: String = text.iter().collect();
        match self.workbook.worksheet_from_index(self.current_sheet) {
            Ok(ws) => ws.write_with_format(row, col, s.as_str(), &fmt.fmt).is_ok(),
            Err(_) => false,
        }
    }

    /// Relies on `Workbook::worksheet_from_index` and
    /// `Worksheet::merge_range`: on a rectangle disjoint from every earlier
    /// merge, the call succeeds exactly when the sheet exists, the corners
    /// are ordered and within the worksheet limits, the range is larger than
    /// one cell and the text is within the length limit; it then writes the
    /// formatted text over the merged range.
    #[verifier::external_body]
    fn merge_cells(
        &mut self,
        first_row: u32,
        first_col: u16,
        last_row: u32,
        last_col: u16,
        text: &Vec<char>,
        fmt: &CellFormat,
    ) -> (r: bool)
        requires
            forall|i: int|
                0 <= i < old(self).ops().len() ==> !merge_overlaps(
                    #[trigger] old(self).ops()[i],
                    old(self).spec_sheet(),
                    first_row as int,
                    first_col as int,
                    last_row as int,
                    last_col as int,
                ),
        ensures
            r == (old(self).sheet_ok() && first_row <= last_row && first_col <= last_col
                && last_row < EXCEL_MAX_ROW && last_col < EXCEL_MAX_COL && !(first_row == last_row
                && first_col == last_col) && text@.len() <= EXCEL_MAX_TEXT),
            final(self).spec_row() == old(self).spec_row(),
            final(self).spec_sheet() == old(self).spec_sheet(),
            final(self).sheet_count() == old(self).sheet_count(),
            final(self).log() == old(self).log(),
            r ==> final(self).ops() == old(self).ops().push(
                CellOp::Merge {
                    sheet: old(self).spec_sheet(),
                    first_row: first_row as int,
                    first_col: first_col as int,
                    last_row: last_row as int,
                    last_col: last_col as int,
                    text: text@,
                    fmt: fmt.tag(),
                },
            ),
            !r ==> final(self).ops() == old(self).ops(),
    {
        let s: String = text.iter().collect();
        match self.workbook.worksheet_from_index(self.current_sheet) {
            Ok(ws) => ws.merge_range(first_row, first_col, last_row, last_col, s.as_str(), &fmt.fmt)
                .is_ok(),
            Err(_) => false,
        }
    }

    /// Relies on `Workbook::worksheet_from_index` and
    /// `Worksheet::set_row_height_pixels`: with a nonzero height the call
    /// succeeds exactly when the sheet exists and the row is within the
    /// worksheet limit.
    #[verifier::external_body]
    fn set_row_height(&mut self, row: u32, height: u32) -> (r: bool)
        requires
            height > 0,
        ensures
            r == (old(self).sheet_ok() && row < EXCEL_MAX_ROW),
            final(self).spec_row() == old(self).spec_row(),
            final(self).spec_sheet() == old(self).spec_sheet(),
            final(self).sheet_count() == old(self).sheet_count(),
            final(self).log() == old(self).log(),
            r ==> final(self).ops() == old(self).ops().push(
                CellOp::RowHeight {
                    sheet: old(self).spec_sheet(),
                    row: row as int,
                    height: height as int,
                },
            ),
            !r ==> final(self).ops() == old(self).ops(),
    {
        match self.workbook.worksheet_from_index(self.current_sheet) {
            Ok(ws) => ws.set_row_height_pixels(row, height).is_ok(),
            Err(_) => false,
        }
    }

    /// Relies on `Workbook::worksheet_from_index` and
    /// `Worksheet::set_column_width_pixels`: with a nonzero width the call
    /// succeeds exactly when the sheet exists and the column is within the
    /// worksheet limit.
    #[verifier::external_body]
    fn set_col_width(&mut self, col: u16, width: u32) -> (r: bool)
        requires
            width > 0,
        ensures
            r == (old(self).sheet_ok() && col < EXCEL_MAX_COL),
            final(self).spec_row() == old(self).spec_row(),
            final(self).spec_sheet() == old(self).spec_sheet(),
            final(self).sheet_count() == old(self).sheet_count(),
            final(self).log() == old(self).log(),
            r ==> final(self).ops() == old(self).ops().push(
                CellOp::ColWidth {
                    sheet: old(self).spec_sheet(),
                    col: col as int,
                    width: width as int,
                },
            ),
            !r ==> final(self).ops() == old(self).ops(),
    {
        match self.workbook.worksheet_from_index(self.current_sheet) {
            Ok(ws) => ws.set_column_width_pixels(col, width).is_ok(),
            Err(_) => false,
        }
    }

    /// Relies on `Workbook::worksheet_from_index` and
    /// `Worksheet::insert_image_with_offset`: the call succeeds exactly when
    /// the sheet exists and the anchor cell is within the worksheet limits,
    /// and then anchors the image there with the pixel offset.
    #[verifier::external_body]
    fn insert_image(
        &mut self,
        row: u32,
        col: u16,
        image: &rust_xlsxwriter::Image,
        x_offset: u32,
        y_offset: u32,
    ) -> (r: bool)
        ensures
            r == (old(self).sheet_ok() && row < EXCEL_MAX_ROW && col < EXCEL_MAX_COL),
            final(self).spec_row() == old(self).spec_row(),
            final(self).spec_sheet() == old(self).spec_sheet(),
            final(self).sheet_count() == old(self).sheet_count(),
            final(self).log() == old(self).log(),
            r ==> final(self).ops() == old(self).ops().push(
                CellOp::Image {
                    sheet: old(self).spec_sheet(),
                    row: row as int,
                    col: col as int,
                    x_offset: x_offset as int,
                    y_offset: y_offset as int,
                },
            ),
            !r ==> final(self).ops() == old(self).ops(),
    {
        match self.workbook.worksheet_from_index(self.current_sheet) {
            Ok(ws) => ws.insert_image_with_offset(row, col, image, x_offset, y_offset).is_ok(),
            Err(_) => false,
        }
    }

    /// Relies on `Workbook::save`: writes the workbook to `path` without
    /// changing its worksheets or cells (one worksheet exists, so none is
    /// added).
    #[verifier::external_body]
    fn save_file(&mut self, path: &str) -> (r: bool)
        ensures
            final(self).spec_row() == old(self).spec_row(),
            final(self).spec_sheet() == old(self).spec_sheet(),
            final(self).log() == old(self).log(),
            final(self).ops() == old(self).ops(),
            old(self).sheet_count() >= 1 ==> final(self).sheet_count() == old(self).sheet_count(),
    {
        self.workbook.save(path).is_ok()
    }

    /// Relies on `Workbook::save_to_buffer`: the workbook as archive bytes,
    /// without changing its worksheets or cells (one worksheet exists, so
    /// none is added).
    #[verifier::external_body]
    fn save_buffer(&mut self) -> (r: Option<Vec<u8>>)
        ensures
            final(self).spec_row() == old(self).spec_row(),
            final(self).spec_sheet() == old(self).spec_sheet(),
            final(self).log() == old(self).log(),
            final(self).ops() == old(self).ops(),
            old(self).sheet_count() >= 1 ==> final(self).sheet_count() == old(self).sheet_count(),
    {
        match self.workbook.save_to_buffer() {
            Ok(buf) => Some(buf),
            Err(_) => None,
        }
    }

    /// A workbook with exactly one worksheet, the cursor at its origin and
    /// nothing written yet.
    pub fn new() -> (r: Xlsx)
        ensures
            r.wf(),
            r.spec_row() == 0,
            r.spec_sheet() == 0,
            r.sheet_count() == 1,
            r.ops() == Seq::<CellOp>::empty(),
            r.log() == Seq::<RowStamp>::empty(),
    {
        let mut r = Xlsx {
            workbook: wb_new(),
            current_row: 0,
            current_sheet: 0,
            sheet_total: Ghost(0),
            ops_log: Ghost(Seq::empty()),
            rows_log: Ghost(Seq::empty()),
        };
        r.add_sheet();
        r
    }

    pub fn row(&self) -> (r: u32)
        ensures
            r as int == self.spec_row(),
    {
        self.current_row
    }

    pub fn sheet(&self) -> (r: usize)
        ensures
            r as int == self.spec_sheet(),
    {
        self.current_sheet
    }

    /// Writes the empty bordered filler cells of the columns after
    /// `col_count`, up to and including `col_max`, for the three physical
    /// rows starting at `current_row`; succeeds exactly when the block is
    /// within the worksheet limits.
    pub fn add_format(&mut self, current_row: u32, col_count: usize, col_max: usize) -> (r: Result<
        (),
        ChartError,
    >)
        requires
            old(self).sheet_ok(),
            col_max < 0x10000,
            col_count < 0x10000,
            current_row + 2 <= u32::MAX,
        ensures
            final(self).spec_row() == old(self).spec_row(),
            final(self).spec_sheet() == old(self).spec_sheet(),
            final(self).sheet_count() == old(self).sheet_count(),
            final(self).log() == old(self).log(),
            old(self).ops().is_prefix_of(final(self).ops()),
            r is Ok <==> (col_max < EXCEL_MAX_COL && current_row + 2 < EXCEL_MAX_ROW),
            r is Ok ==> final(self).ops() == old(self).ops() + filler_ops(
                old(self).spec_sheet(),
                current_row as int,
                col_count as int,
                col_max as int,
            ),
            r matches Err(e) ==> e == ChartError::WorkbookWrite,
    {
        let ghost sheet = old(self).spec_sheet();
        let mt = fmt_middle_top();
        let mm = fmt_middle_middle();
        let mb = fmt_middle_bottom();
        let empty_text: Vec<char> = Vec::new();
        proof {
            assert(empty_text@ =~= Seq::<char>::empty());
        }
        let mut col = col_count + 1;
        proof {
            assert(self.ops() =~= old(self).ops() + mid_cols_ops(
                sheet,
                current_row as int,
                col_count as int + 1,
                0,
            ));
        }
        while col <= col_max
            invariant
                old(self).sheet_ok(),
                col_max < 0x10000,
                col_count < 0x10000,
                col_count + 1 <= col,
                col <= col_max + 1 || col == col_count + 1,
                current_row + 2 <= u32::MAX,
                empty_text@ == Seq::<char>::empty(),
                mt.tag() == FormatTag::MiddleTop,
                mm.tag() == FormatTag::MiddleMiddle,
                mb.tag() == FormatTag::MiddleBottom,
                sheet == old(self).spec_sheet(),
                self.spec_row() == old(self).spec_row(),
                self.spec_sheet() == old(self).spec_sheet(),
                self.sheet_count() == old(self).sheet_count(),
                self.log() == old(self).log(),
                self.ops() == old(self).ops() + mid_cols_ops(
                    sheet,
                    current_row as int,
                    col_count as int + 1,
                    col - (col_count + 1),
                ),
            decreases col_max + 1 - col,
        {
            let ghost before = self.ops();
            let ok1 = self.write_cell(current_row, col as u16, &empty_text, &mt);
            let ok2 = self.write_cell(current_row + 1, col as u16, &empty_text, &mm);
            let ok3 = self.write_cell(current_row + 2, col as u16, &empty_text, &mb);
            if !(ok1 && ok2 && ok3) {
                proof {
                    assert(self.ops().subrange(0, old(self).ops().len() as int) =~= old(
                        self,
                    ).ops());
                }
                return Err(ChartError::WorkbookWrite);
            }
            proof {
                assert(self.ops() =~= before + mid_col_ops(sheet, current_row as int, col as int));
                assert(mid_cols_ops(
                    sheet,
                    current_row as int,
                    col_count as int + 1,
                    col + 1 - (col_count + 1),
                ) == mid_cols_ops(
                    sheet,
                    current_row as int,
                    col_count as int + 1,
                    col - (col_count + 1),
                ) + mid_col_ops(sheet, current_row as int, col as int));
                assert(self.ops() =~= old(self).ops() + mid_cols_ops(
                    sheet,
                    current_row as int,
                    col_count as int + 1,
                    col + 1 - (col_count + 1),
                ));
            }
            col += 1;
        }
        let ghost after_mid = self.ops();
        proof {
            assert(after_mid == old(self).ops() + mid_cols_ops(
                sheet,
                current_row as int,
                col_count as int + 1,
                col_max as int - col_count as int,
            ));
        }
        if col_count != col_max {
            if !self.write_cell(current_row, col_max as u16, &empty_text, &fmt_last_top()) {
                proof {
                    assert(self.ops().subrange(0, old(self).ops().len() as int) =~= old(
                        self,
                    ).ops());
                }
                return Err(ChartError::WorkbookWrite);
            }
        }
        if !self.write_cell(current_row + 1, col_max as u16, &empty_text, &fmt_last_middle()) {
            proof {
                assert(self.ops().subrange(0, old(self).ops().len() as int) =~= old(self).ops());
            }
            return Err(ChartError::WorkbookWrite);
        }
        if !self.write_cell(current_row + 2, col_max as u16, &empty_text, &fmt_last_bottom()) {
            proof {
                assert(self.ops().subrange(0, old(self).ops().len() as int) =~= old(self).ops());
            }
            return Err(ChartError::WorkbookWrite);
        }
        proof {
            assert(self.ops() =~= after_mid + last_col_ops(
                sheet,
                current_row as int,
                col_count as int,
                col_max as int,
            ));
            assert(self.ops() =~= old(self).ops() + filler_ops(
                sheet,
                current_row as int,
                col_count as int,
                col_max as int,
            ));
            assert(self.ops().subrange(0, old(self).ops().len() as int) =~= old(self).ops());
        }
        Ok(())
    }

    /// Emits one table row as a three-row block: the merged code-label cell
    /// in the first column, then one (transliteration, glyph image) cell per
    /// data column, then bordered filler up to `col_max`; on success the row
    /// cursor advances by three and the writes are those of [`row_ops`].
    /// Success is owed whenever the block, its columns and its texts are
    /// within the worksheet limits.
    pub fn add_row(
        &mut self,
        codepoint_hex: &Vec<char>,
        images_with_sources: &Vec<(Vec<char>, rust_xlsxwriter::Image)>,
        col_max: usize,
    ) -> (r: Result<(), ChartError>)
        requires
            old(self).wf(),
            old(self).spec_row() + 3 <= u32::MAX,
            col_max < 0x10000,
            images_with_sources@.len() < 0xFFFF,
        ensures
            final(self).spec_sheet() == old(self).spec_sheet(),
            final(self).sheet_count() == old(self).sheet_count(),
            old(self).ops().is_prefix_of(final(self).ops()),
            r is Ok ==> ({
                &&& final(self).wf()
                &&& final(self).spec_row() == old(self).spec_row() + 3
                &&& final(self).log() == old(self).log().push(
                    RowStamp {
                        sheet: old(self).spec_sheet(),
                        row: old(self).spec_row(),
                        code: codepoint_hex@,
                        cells: images_with_sources@.len() as int,
                    },
                )
                &&& final(self).ops() == old(self).ops() + row_ops(
                    old(self).spec_sheet(),
                    old(self).spec_row(),
                    codepoint_hex@,
                    images_with_sources@.map_values(
                        |p: (Vec<char>, rust_xlsxwriter::Image)| p.0@,
                    ),
                    col_max as int,
                )
            }),
            r matches Err(e) ==> ({
                &&& e == ChartError::WorkbookWrite
                &&& final(self).spec_row() == old(self).spec_row()
                &&& final(self).log() == old(self).log()
            }),
            (old(self).spec_row() + 2 < EXCEL_MAX_ROW && col_max < EXCEL_MAX_COL
                && images_with_sources@.len() < EXCEL_MAX_COL && codepoint_hex@.len()
                <= EXCEL_MAX_TEXT && (forall|i: int|
                0 <= i < images_with_sources@.len() ==> (#[trigger] images_with_sources@[i]).0@.len()
                    <= EXCEL_MAX_TEXT)) ==> r is Ok,
    {
        let ghost sheet = old(self).spec_sheet();
        let ghost row0 = old(self).spec_row();
        let ghost cells = images_with_sources@.map_values(
            |p: (Vec<char>, rust_xlsxwriter::Image)| p.0@,
        );
        if !self.set_row_height(self.current_row + 1, 85) {
            proof {
                assert(self.ops().subrange(0, old(self).ops().len() as int) =~= old(self).ops());
            }
            return Err(ChartError::WorkbookWrite);
        }
        proof {
            assert forall|i: int| 0 <= i < self.ops().len() implies !merge_overlaps(
                #[trigger] self.ops()[i],
                sheet,
                row0,
                0,
                row0 + 2,
                0,
            ) by {
                if i < old(self).ops().len() {
                    assert(merge_ok(old(self).ops()[i], sheet, row0));
                }
            }
        }
        if !self.merge_cells(
            self.current_row,
            0,
            self.current_row + 2,
            0,
            codepoint_hex,
            &fmt_first(),
        ) {
            proof {
                assert(self.ops().subrange(0, old(self).ops().len() as int) =~= old(self).ops());
            }
            return Err(ChartError::WorkbookWrite);
        }
        let ghost head = self.ops();
        proof {
            assert(head =~= old(self).ops() + seq![
                CellOp::RowHeight { sheet, row: row0 + 1, height: 85 },
                CellOp::Merge {
                    sheet,
                    first_row: row0,
                    first_col: 0,
                    last_row: row0 + 2,
                    last_col: 0,
                    text: codepoint_hex@,
                    fmt: FormatTag::First,
                },
            ]);
        }
        let n = images_with_sources.len();
        let mut ci: usize = 0;
        proof {
            assert(self.ops() =~= head + data_cells_ops(sheet, row0, cells, col_max as int, 0));
        }
        while ci < n
            invariant
                n == images_with_sources@.len(),
                n < 0xFFFF,
                ci <= n,
                col_max < 0x10000,
                cells == images_with_sources@.map_values(
                    |p: (Vec<char>, rust_xlsxwriter::Image)| p.0@,
                ),
                sheet == old(self).spec_sheet(),
                row0 == old(self).spec_row(),
                old(self).spec_row() + 3 <= u32::MAX,
                old(self).sheet_ok(),
                head == old(self).ops() + seq![
                    CellOp::RowHeight { sheet, row: row0 + 1, height: 85 },
                    CellOp::Merge {
                        sheet,
                        first_row: row0,
                        first_col: 0,
                        last_row: row0 + 2,
                        last_col: 0,
                        text: codepoint_hex@,
                        fmt: FormatTag::First,
                    },
                ],
                self.spec_row() == old(self).spec_row(),
                self.spec_sheet() == old(self).spec_sheet(),
                self.sheet_count() == old(self).sheet_count(),
                self.log() == old(self).log(),
                self.ops() == head + data_cells_ops(sheet, row0, cells, col_max as int, ci as int),
            decreases n - ci,
        {
            let ghost before = self.ops();
            let col: u16 = (ci + 1) as u16;
            let cell = &images_with_sources[ci];
            proof {
                assert(cells[ci as int] == images_with_sources@[ci as int].0@);
            }
            let is_last = ci + 1 == col_max;
            let top_fmt = if is_last {
                fmt_last_top()
            } else {
                fmt_middle_top()
            };
            if !self.write_cell(self.current_row, col, &cell.0, &top_fmt) {
                proof {
                    assert(self.ops().subrange(0, old(self).ops().len() as int) =~= old(
                        self,
                    ).ops());
                }
                return Err(ChartError::WorkbookWrite);
            }
            if !self.set_col_width(col, 85) {
                proof {
                    assert(self.ops().subrange(0, old(self).ops().len() as int) =~= old(
                        self,
                    ).ops());
                }
                return Err(ChartError::WorkbookWrite);
            }
            if !self.insert_image(self.current_row + 1, col, &cell.1, 1, 1) {
                proof {
                    assert(self.ops().subrange(0, old(self).ops().len() as int) =~= old(
                        self,
                    ).ops());
                }
                return Err(ChartError::WorkbookWrite);
            }
            let empty_text: Vec<char> = Vec::new();
            proof {
                assert(empty_text@ =~= Seq::<char>::empty());
            }
            if !self.write_cell(self.current_row + 1, col, &empty_text, &fmt_middle_middle()) {
                proof {
                    assert(self.ops().subrange(0, old(self).ops().len() as int) =~= old(
                        self,
                    ).ops());
                }
                return Err(ChartError::WorkbookWrite);
            }
            if !self.write_cell(self.current_row + 2, col, &empty_text, &fmt_middle_bottom()) {
                proof {
                    assert(self.ops().subrange(0, old(self).ops().len() as int) =~= old(
                        self,
                    ).ops());
                }
                return Err(ChartError::WorkbookWrite);
            }
            proof {
                assert(self.ops() =~= before + data_cell_ops(
                    sheet,
                    row0,
                    ci as int + 1,
                    cells[ci as int],
                    ci as int + 1 == col_max as int,
                ));
                assert(data_cells_ops(sheet, row0, cells, col_max as int, ci as int + 1)
                    == data_cells_ops(sheet, row0, cells, col_max as int, ci as int)
                    + data_cell_ops(
                    sheet,
                    row0,
                    ci as int + 1,
                    cells[ci as int],
                    ci as int + 1 == col_max as int,
                ));
                assert(self.ops() =~= head + data_cells_ops(
                    sheet,
                    row0,
                    cells,
                    col_max as int,
                    ci as int + 1,
                ));
            }
            ci += 1;
        }
        let ghost with_data = self.ops();
        match self.add_format(self.current_row, n, col_max) {
            Ok(()) => {},
            Err(e) => {
                proof {
                    assert(self.ops().subrange(0, with_data.len() as int) =~= with_data);
                    assert(self.ops().subrange(0, old(self).ops().len() as int) =~= old(
                        self,
                    ).ops());
                }
                return Err(e);
            },
        }
        proof {
            assert(self.ops() =~= old(self).ops() + row_ops(
                sheet,
                row0,
                codepoint_hex@,
                cells,
                col_max as int,
            ));
            assert(self.ops().subrange(0, old(self).ops().len() as int) =~= old(self).ops());
            lemma_row_ops_merge_ok(sheet, row0, codepoint_hex@, cells, col_max as int);
            assert forall|i: int| 0 <= i < self.ops().len() implies merge_ok(
                #[trigger] self.ops()[i],
                sheet,
                row0 + 3,
            ) by {
                if i < old(self).ops().len() {
                    assert(merge_ok(old(self).ops()[i], sheet, row0));
                } else {
                    assert(self.ops()[i] == row_ops(
                        sheet,
                        row0,
                        codepoint_hex@,
                        cells,
                        col_max as int,
                    )[i - old(self).ops().len()]);
                }
            }
        }
        self.rows_log = Ghost(
            self.rows_log@.push(
                RowStamp {
                    sheet: self.current_sheet as int,
                    row: self.current_row as int,
                    code: codepoint_hex@,
                    cells: images_with_sources@.len() as int,
                },
            ),
        );
        self.current_row = self.current_row + 3;
        Ok(())
    }

    /// Starts a fresh sheet: the workbook gains exactly one worksheet, the
    /// sheet cursor moves to it and the row cursor resets to its origin;
    /// nothing already written changes.
    pub fn next_sheet(&mut self)
        requires
            old(self).wf(),
            old(self).spec_sheet() + 1 <= usize::MAX,
        ensures
            final(self).wf(),
            final(self).spec_sheet() == old(self).spec_sheet() + 1,
            final(self).sheet_count() == old(self).sheet_count() + 1,
            final(self).spec_row() == 0,
            final(self).log() == old(self).log(),
            final(self).ops() == old(self).ops(),
    {
        self.add_sheet();
        self.current_sheet = self.current_sheet + 1;
        self.current_row = 0;
    }

    /// Writes the workbook to `path`; reports whether the save succeeded;
    /// the workbook's worksheets, cells and cursor are unchanged.
    pub fn save(&mut self, path: &str) -> (r: bool)
        requires
            old(self).wf(),
        ensures
            final(self).wf(),
            final(self).spec_row() == old(self).spec_row(),
            final(self).spec_sheet() == old(self).spec_sheet(),
            final(self).sheet_count() == old(self).sheet_count(),
            final(self).log() == old(self).log(),
            final(self).ops() == old(self).ops(),
    {
        self.save_file(path)
    }

    /// The workbook as archive bytes, when serialisation succeeds; the
    /// workbook's worksheets, cells and cursor are unchanged.
    pub fn save_to_buffer(&mut self) -> (r: Option<Vec<u8>>)
        requires
            old(self).wf(),
        ensures
            final(self).wf(),
            final(self).spec_row() == old(self).spec_row(),
            final(self).spec_sheet() == old(self).spec_sheet(),
            final(self).sheet_count() == old(self).sheet_count(),
            final(self).log() == old(self).log(),
            final(self).ops() == old(self).ops(),
    {
        self.save_buffer()
    }
}

/// Every middle-filler operation is a text write.
proof fn lemma_mid_cols_all_text(sheet: int, row: int, col0: int, cnt: int)
    ensures
        forall|i: int|
            0 <= i < mid_cols_ops(sheet, row, col0, cnt).len() ==> (#[trigger] mid_cols_ops(
                sheet,
                row,
                col0,
                cnt,
            )[i]) is Text,
    decreases cnt,
{
    if cnt > 0 {
        lemma_mid_cols_all_text(sheet, row, col0, cnt - 1);
    }
}

/// Every operation of a full row emission respects `merge_ok` at the
/// advanced cursor: its one merge ends two rows below the block's start.
proof fn lemma_row_ops_merge_ok(sheet: int, row: int, code: Seq<char>, cells: Seq<Seq<char>>, col_max: int)
    ensures
        forall|i: int|
            0 <= i < row_ops(sheet, row, code, cells, col_max).len() ==> merge_ok(
                #[trigger] row_ops(sheet, row, code, cells, col_max)[i],
                sheet,
                row + 3,
            ),
{
    let ops = row_ops(sheet, row, code, cells, col_max);
    lemma_data_cells_no_merge(sheet, row, cells, col_max, cells.len() as int);
    lemma_filler_no_merge(sheet, row, cells.len() as int, col_max);
    assert forall|i: int| 0 <= i < ops.len() implies merge_ok(#[trigger] ops[i], sheet, row + 3) by {
        let dc = data_cells_ops(sheet, row, cells, col_max, cells.len() as int);
        let fl = filler_ops(sheet, row, cells.len() as int, col_max);
        if i >= 2 {
            if i - 2 < dc.len() {
                assert(ops[i] == dc[i - 2]);
            } else {
                assert(ops[i] == fl[i - 2 - dc.len()]);
            }
        }
    }
}

/// Data-column writes contain no merge.
proof fn lemma_data_cells_no_merge(sheet: int, row: int, cells: Seq<Seq<char>>, col_max: int, cnt: int)
    ensures
        forall|i: int|
            0 <= i < data_cells_ops(sheet, row, cells, col_max, cnt).len() ==> !((
            #[trigger] data_cells_ops(sheet, row, cells, col_max, cnt)[i]) is Merge),
    decreases cnt,
{
    if cnt > 0 {
        lemma_data_cells_no_merge(sheet, row, cells, col_max, cnt - 1);
    }
}

/// Filler writes contain no merge.
proof fn lemma_filler_no_merge(sheet: int, row: int, col_count: int, col_max: int)
    ensures
        forall|i: int|
            0 <= i < filler_ops(sheet, row, col_count, col_max).len() ==> !((#[trigger] filler_ops(
                sheet,
                row,
                col_count,
                col_max,
            )[i]) is Merge),
{
    lemma_mid_cols_all_text(sheet, row, col_count + 1, col_max - col_count);
}

} // verus!
