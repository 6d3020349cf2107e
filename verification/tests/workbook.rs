use cjk_unicode_pdf_to_xlsx::sheet_break_after;
use cjk_unicode_pdf_to_xlsx::xlsx::Xlsx;
use cjk_unicode_pdf_to_xlsx::DEFAULT_COL_MAX;

fn chars(s: &str) -> Vec<char> {
    s.chars().collect()
}

fn png_cell(label: &str) -> (Vec<char>, rust_xlsxwriter::Image) {
    let img = image::GrayImage::from_pixel(4, 4, image::Luma([255u8]));
    let mut buf = std::io::Cursor::new(Vec::new());
    img.write_to(&mut buf, image::ImageFormat::Png).unwrap();
    let image = rust_xlsxwriter::Image::new_from_buffer(buf.get_ref())
        .unwrap()
        .set_scale_width(0.65)
        .set_scale_height(0.65);
    (chars(label), image)
}

// Each emitted table row advances the cursor by three physical rows.
#[test]
fn add_row_advances_cursor() {
    let mut xlsx = Xlsx::new();
    assert_eq!(xlsx.row(), 0);
    assert_eq!(xlsx.sheet(), 0);
    xlsx.add_row(&chars("4E00"), &vec![png_cell("yi")], DEFAULT_COL_MAX)
        .unwrap();
    assert_eq!(xlsx.row(), 3);
    xlsx.add_row(&chars("4E01"), &Vec::new(), DEFAULT_COL_MAX).unwrap();
    assert_eq!(xlsx.row(), 6);
    assert_eq!(xlsx.sheet(), 0);
    let buf = xlsx.save_to_buffer().unwrap();
    // A workbook archive starts with the standard compressed-container magic.
    assert_eq!(&buf[0..2], b"PK");
}

// Pagination boundary: with a limit of two, pages one and two share sheet
// zero and page three opens a fresh sheet with the row cursor reset.
#[test]
fn pagination_boundary() {
    let mut xlsx = Xlsx::new();
    let limit = 2u32;
    let pages = [1usize, 2, 3];
    let mut page_count = 1u32;
    let mut sheet_of_page = Vec::new();
    for (idx, _page) in pages.iter().enumerate() {
        sheet_of_page.push(xlsx.sheet());
        xlsx.add_row(&chars("4E00"), &Vec::new(), DEFAULT_COL_MAX).unwrap();
        let more = idx + 1 < pages.len();
        if sheet_break_after(page_count, limit, more) {
            xlsx.next_sheet();
            assert_eq!(xlsx.row(), 0);
        }
        page_count += 1;
    }
    assert_eq!(sheet_of_page, vec![0, 0, 1]);
    assert_eq!(xlsx.sheet(), 1);
}

// A row block aimed past the worksheet's column limit is refused with a
// workbook-write error, and the cursor does not move.
#[test]
fn add_row_rejects_out_of_range_columns() {
    let mut xlsx = Xlsx::new();
    let err = xlsx
        .add_row(&chars("4E00"), &Vec::new(), 20000)
        .unwrap_err();
    assert_eq!(err, cjk_unicode_pdf_to_xlsx::ChartError::WorkbookWrite);
    assert_eq!(xlsx.row(), 0);
    // A failed block may have left partial writes behind; a fresh workbook
    // takes the same row within the limits.
    let mut fresh = Xlsx::new();
    fresh.add_row(&chars("4E00"), &Vec::new(), DEFAULT_COL_MAX).unwrap();
    assert_eq!(fresh.row(), 3);
}

// A new sheet is only ever started at the page limit while pages remain.
#[test]
fn sheet_break_decision() {
    assert!(sheet_break_after(2, 2, true));
    assert!(!sheet_break_after(2, 2, false));
    assert!(!sheet_break_after(1, 2, true));
    assert!(!sheet_break_after(3, 2, true));
    assert!(sheet_break_after(100, 100, true));
}
