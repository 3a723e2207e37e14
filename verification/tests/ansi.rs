use zellij_overview::ansi::{encode_lines, encode_row, Cell, CellStyle, Colour};

fn style(fg: Colour, bg: Colour, bold: bool) -> CellStyle {
    CellStyle { fg, bg, bold, dim: false, other_modifiers: 0 }
}

fn cell(symbol: &str, style: CellStyle) -> Cell {
    Cell { symbol: symbol.to_string(), style }
}

#[test]
fn a_row_writes_its_style_once_per_run() {
    let plain = style(Colour::Reset, Colour::Reset, false);
    let row = vec![cell("a", plain), cell("b", plain)];
    assert_eq!(encode_row(&row), "\u{1b}[0m\u{1b}[39m\u{1b}[49mab\u{1b}[0m");
}

#[test]
fn a_style_change_writes_the_new_style() {
    let plain = style(Colour::Reset, Colour::Reset, false);
    let bold = style(Colour::Rgb(180, 190, 254), Colour::DarkGray, true);
    let row = vec![cell("x", plain), cell("y", bold)];
    assert_eq!(
        encode_row(&row),
        "\u{1b}[0m\u{1b}[39m\u{1b}[49mx\u{1b}[0m\u{1b}[38;2;180;190;254m\u{1b}[100m\u{1b}[1my\u{1b}[0m"
    );
}

#[test]
fn indexed_and_dim_cells() {
    let dim = CellStyle { fg: Colour::Indexed(7), bg: Colour::White, bold: false, dim: true, other_modifiers: 0 };
    assert_eq!(
        encode_row(&vec![cell("z", dim)]),
        "\u{1b}[0m\u{1b}[38;5;7m\u{1b}[107m\u{1b}[2mz\u{1b}[0m"
    );
}

#[test]
fn an_empty_row_is_just_a_reset() {
    assert_eq!(encode_row(&vec![]), "\u{1b}[0m");
    let lines = encode_lines(&vec![vec![], vec![]]);
    assert_eq!(lines, vec!["\u{1b}[0m".to_string(), "\u{1b}[0m".to_string()]);
}
