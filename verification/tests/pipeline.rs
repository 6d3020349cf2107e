use cjk_unicode_pdf_to_xlsx::chart::ChartCode;
use cjk_unicode_pdf_to_xlsx::chart::ChartGraph;
use cjk_unicode_pdf_to_xlsx::chart::ChartSource;
use cjk_unicode_pdf_to_xlsx::grid::get_row_range_from_code_vec;
use cjk_unicode_pdf_to_xlsx::grid::group_graph_source_iter_by_col;
use cjk_unicode_pdf_to_xlsx::parse::parse_details;
use cjk_unicode_pdf_to_xlsx::parse::parse_font_drawn;
use cjk_unicode_pdf_to_xlsx::parse::Instruction;
use cjk_unicode_pdf_to_xlsx::process_page;
use cjk_unicode_pdf_to_xlsx::page_range_normalize;
use cjk_unicode_pdf_to_xlsx::ChartError;
use cjk_unicode_pdf_to_xlsx::PageBound;

fn chars(s: &str) -> Vec<char> {
    s.chars().collect()
}

fn source_instr(ch: char, x: i64, y: i64) -> Instruction {
    Instruction {
        text: vec![ch],
        glyph_ref: chars("f0"),
        mat: [70000, 0, 0, 70000, x, y],
    }
}

fn code_instr(ch: char, x: i64, y: i64) -> Instruction {
    Instruction {
        text: vec![ch],
        glyph_ref: chars("f0"),
        mat: [99998, 0, 0, 99998, x, y],
    }
}

// Two Source instructions eight native units apart at a common height merge
// into one run under a threshold of ten units.
#[test]
fn two_source_runs_merge() {
    let details = vec![
        source_instr('A', 100_0000, 50_0000),
        source_instr('B', 108_0000, 50_0000),
    ];
    let runs = ChartSource::new(&details, 10_0000);
    assert_eq!(runs.len(), 1);
    assert_eq!(runs[0].source, vec!['A', 'B']);
    assert_eq!(runs[0].x_min, 100_0000);
    assert_eq!(runs[0].x_max, 108_0000);
    assert_eq!(runs[0].y, 50_0000);
}

// A run that does not start with a Latin letter is discarded as noise.
#[test]
fn non_latin_run_discarded() {
    let details = vec![source_instr('1', 100_0000, 50_0000)];
    let runs = ChartSource::new(&details, 10_0000);
    assert_eq!(runs.len(), 0);
}

// Four contiguous hexadecimal characters merge into one Code run and decode
// to the codepoint they spell.
#[test]
fn code_run_decodes() {
    let details = vec![
        code_instr('4', 100_0000, 50_0000),
        code_instr('E', 104_0000, 50_0000),
        code_instr('0', 108_0000, 50_0000),
        code_instr('0', 112_0000, 50_0000),
    ];
    let codes = match ChartCode::new(&details, 10_0000) {
        Ok(c) => c,
        Err(_) => panic!("code stream failed"),
    };
    assert_eq!(codes.len(), 1);
    assert_eq!(codes[0].codepoint, 0x4E00);
    assert_eq!(codes[0].hanzi, '\u{4E00}');
}

// A three-character hexadecimal run is below code length and is discarded,
// not an error.
#[test]
fn short_code_run_is_noise() {
    let details = vec![
        code_instr('4', 100_0000, 50_0000),
        code_instr('E', 104_0000, 50_0000),
        code_instr('0', 108_0000, 50_0000),
    ];
    let codes = match ChartCode::new(&details, 10_0000) {
        Ok(c) => c,
        Err(_) => panic!("code stream failed"),
    };
    assert_eq!(codes.len(), 0);
}

// A code-length run that spells a surrogate is a fatal invalid codepoint.
#[test]
fn surrogate_code_run_fails() {
    let details = vec![
        code_instr('D', 100_0000, 50_0000),
        code_instr('8', 104_0000, 50_0000),
        code_instr('0', 108_0000, 50_0000),
        code_instr('0', 112_0000, 50_0000),
    ];
    let res = ChartCode::new(&details, 10_0000);
    assert!(matches!(res, Err(ChartError::InvalidCodepoint)));
}

// The codepoint renders as uppercase hexadecimal without padding.
#[test]
fn hex_label() {
    let code = ChartCode {
        codepoint: 0x4E00,
        hanzi: '\u{4E00}',
        x_min: 0,
        x_max: 0,
        y: 0,
    };
    assert_eq!(code.hex(), vec!['4', 'E', '0', '0']);
    let small = ChartCode {
        codepoint: 0xA,
        hanzi: '\n',
        x_min: 0,
        x_max: 0,
        y: 0,
    };
    assert_eq!(small.hex(), vec!['A']);
}

// Run extraction is idempotent: extracting the same stream twice gives
// identical runs.
#[test]
fn run_extraction_idempotent() {
    let details = vec![
        source_instr('A', 100_0000, 50_0000),
        source_instr('B', 108_0000, 50_0000),
        source_instr('C', 100_0000, 90_0000),
    ];
    let once = ChartSource::new(&details, 10_0000);
    let twice = ChartSource::new(&details, 10_0000);
    assert_eq!(once.len(), twice.len());
    for (a, b) in once.iter().zip(twice.iter()) {
        assert_eq!(a.source, b.source);
        assert_eq!(a.x_min, b.x_min);
        assert_eq!(a.x_max, b.x_max);
        assert_eq!(a.y, b.y);
    }
}

// Boundary intervals over N deduplicated positions: N intervals covering
// from the first position onward, the last one unbounded.
#[test]
fn boundary_intervals_partition() {
    let mk = |x: i64| ChartCode {
        codepoint: 0x4E00,
        hanzi: '\u{4E00}',
        x_min: x,
        x_max: x,
        y: 0,
    };
    let mut codes = vec![mk(200_0000), mk(100_0000), mk(100_5000)];
    let ranges = get_row_range_from_code_vec(&mut codes);
    // 100.5 collapses into 100 (within the dedup tolerance of 2 units).
    assert_eq!(ranges.len(), 2);
    assert_eq!(ranges[0], (100_0000, 200_0000));
    assert_eq!(ranges[1].0, 200_0000);
    assert_eq!(ranges[1].1, i64::MAX);
}

fn pair(x_min: i64, y: i64) -> (ChartGraph, ChartSource) {
    (
        ChartGraph {
            ch: '\u{4E00}',
            drawn: chars("M0 0"),
            x: x_min,
            y,
        },
        ChartSource {
            source: chars("yi"),
            x_min,
            x_max: x_min,
            y,
        },
    )
}

// A pair whose coordinate exceeds every interval lands in the overflow
// bucket, which survives to the output only because it is non-empty.
#[test]
fn overflow_bucket_survives() {
    let ranges = vec![(0i64, 5i64)];
    let cols = group_graph_source_iter_by_col(vec![pair(10, 1)], &ranges);
    assert_eq!(cols.len(), 1);
    assert_eq!(cols[0].len(), 1);
    assert_eq!(cols[0][0].1.x_min, 10);
}

// Every pair is assigned to exactly one bucket: none dropped, none
// duplicated, and buckets come out ordered by bucket index.
#[test]
fn correlator_totality() {
    let ranges = vec![(0i64, 5i64), (5, 9)];
    let pairs = vec![pair(3, 1), pair(7, 1), pair(100, 1), pair(4, 2)];
    let cols = group_graph_source_iter_by_col(pairs, &ranges);
    let total: usize = cols.iter().map(|b| b.len()).sum();
    assert_eq!(total, 4);
    assert_eq!(cols.len(), 3);
    assert_eq!(cols[0].len(), 2);
    assert_eq!(cols[1].len(), 1);
    assert_eq!(cols[2].len(), 1);
}

// The glyph-definitions region parses into an id-to-path dictionary.
#[test]
fn parse_font_drawn_entries() {
    let svg = chars(
        "<svg><defs><path id=\"font_0_1\" d=\"M10 20L30 40\"/><path id=\"font_0_2\" d=\"M1 2\"/></defs><g ></g></svg>",
    );
    let entries = match parse_font_drawn(&svg) {
        Ok(e) => e,
        Err(_) => panic!("defs parse failed"),
    };
    assert_eq!(entries.len(), 2);
    assert_eq!(entries[0].0, chars("font_0_1"));
    assert_eq!(entries[0].1, chars("M10 20L30 40"));
    assert_eq!(entries[1].0, chars("font_0_2"));
}

// A missing definitions region is a malformed description.
#[test]
fn parse_font_drawn_missing_defs() {
    let svg = chars("<svg><g ></g></svg>");
    assert!(matches!(parse_font_drawn(&svg), Err(ChartError::MalformedDescription)));
}

// Character-use entries parse with escape decoding and fixed-point
// transforms; 9.9998 keeps all four decimal places.
#[test]
fn parse_details_entries() {
    let svg = chars(
        "<svg><defs></defs><g ><use data-text=\"&#x4E00;\" xlink:href=\"#font_0_1\" transform=\"matrix(9.9998,0,0,9.9998,46.08,57.6)\"/><use data-text=\" A\" xlink:href=\"#font_0_2\" transform=\"matrix(7,0,0,7,-3.5,12)\"/></g></svg>",
    );
    let list = match parse_details(&svg) {
        Ok(l) => l,
        Err(_) => panic!("details parse failed"),
    };
    assert_eq!(list.len(), 2);
    assert_eq!(list[0].text, vec!['\u{4E00}']);
    assert_eq!(list[0].glyph_ref, chars("font_0_1"));
    assert_eq!(list[0].mat, [99998, 0, 0, 99998, 460800, 576000]);
    assert_eq!(list[1].text, vec!['A']);
    assert_eq!(list[1].mat, [70000, 0, 0, 70000, -35000, 120000]);
}

// An unparsable transform component is a malformed description.
#[test]
fn parse_details_bad_number() {
    let svg = chars(
        "<svg><defs></defs><g ><use data-text=\"A\" xlink:href=\"#f\" transform=\"matrix(7,0,q,7,0,0)\"/></g></svg>",
    );
    assert!(matches!(parse_details(&svg), Err(ChartError::MalformedDescription)));
}

fn page_svg(sources: &[(char, i64, i64)], graphs: &[(i64, i64)], codes: &[(char, i64, i64)]) -> Vec<char> {
    let mut s = String::from("<svg><defs><path id=\"f1\" d=\"M0 0L5 5\"/></defs><g >");
    for (ch, x, y) in sources {
        s.push_str(&format!(
            "<use data-text=\"{}\" xlink:href=\"#f1\" transform=\"matrix(7,0,0,7,{},{})\"/>",
            ch, x, y
        ));
    }
    for (x, y) in graphs {
        s.push_str(&format!(
            "<use data-text=\"&#x4E00;\" xlink:href=\"#f1\" transform=\"matrix(30,0,0,30,{},{})\"/>",
            x, y
        ));
    }
    for (ch, x, y) in codes {
        s.push_str(&format!(
            "<use data-text=\"{}\" xlink:href=\"#f1\" transform=\"matrix(9.9998,0,0,9.9998,{},{})\"/>",
            ch, x, y
        ));
    }
    s.push_str("</g></svg>");
    chars(&s)
}

// A page with five Source runs but four Graph records aborts with a layout
// mismatch rather than emitting a truncated table.
#[test]
fn layout_mismatch_aborts() {
    let sources = [
        ('A', 100, 10),
        ('B', 100, 40),
        ('C', 100, 70),
        ('D', 100, 100),
        ('E', 100, 130),
    ];
    let graphs = [(110, 10), (110, 40), (110, 70), (110, 100)];
    let codes = [('4', 50, 10), ('E', 53, 10), ('0', 56, 10), ('0', 59, 10)];
    let res = process_page(&page_svg(&sources, &graphs, &codes), 0x4E00, 0x9FFF);
    assert!(matches!(res, Err(ChartError::LayoutMismatch)));
}

// A consistent single-cell page reconstructs one table row with one cell.
#[test]
fn single_cell_round_trip() {
    let sources = [('A', 108, 50)];
    let graphs = [(110, 50)];
    let codes = [('4', 100, 20), ('E', 103, 20), ('0', 106, 20), ('0', 109, 20)];
    let rows = match process_page(&page_svg(&sources, &graphs, &codes), 0x4E00, 0x9FFF) {
        Ok(rows) => rows,
        Err(e) => panic!("page failed: {:?}", e),
    };
    assert_eq!(rows.len(), 1);
    assert_eq!(rows[0].code_hex, chars("4E00"));
    assert_eq!(rows[0].cells.len(), 1);
    assert_eq!(rows[0].cells[0].0, chars("A"));
    assert_eq!(rows[0].cells[0].1, chars("M0 0L5 5"));
}

// Page-range normalisation: inclusive, exclusive and open ends.
#[test]
fn page_range_bounds() {
    assert_eq!(
        page_range_normalize(PageBound::Included(1), PageBound::Unbounded, 1, 9),
        (1, 10)
    );
    assert_eq!(
        page_range_normalize(PageBound::Unbounded, PageBound::Excluded(5), 1, 9),
        (1, 5)
    );
    assert_eq!(
        page_range_normalize(PageBound::Included(3), PageBound::Included(6), 1, 9),
        (3, 7)
    );
}

// The range is clamped to the valid page indices: an explicit start below
// the first valid page rises to it, and an explicit end past the last valid
// page drops to one past it.
#[test]
fn page_range_clamped() {
    assert_eq!(
        page_range_normalize(PageBound::Included(0), PageBound::Unbounded, 1, 9),
        (1, 10)
    );
    assert_eq!(
        page_range_normalize(PageBound::Included(1), PageBound::Included(99), 1, 9),
        (1, 10)
    );
    assert_eq!(
        page_range_normalize(PageBound::Unbounded, PageBound::Excluded(99), 1, 9),
        (1, 10)
    );
}
