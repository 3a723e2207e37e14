//! A painted screen as terminal text: each row's cells, with an SGR escape
//! sequence written wherever the style changes.

use vstd::prelude::*;
use crate::text::{append_text, decimal, push_decimal, string_from};

verus! {

/// A colour, as the painter names it.
#[derive(Debug, Clone, Copy, PartialEq, Eq, Structural)]
pub enum Colour {
    Reset,
    Black,
    Red,
    Green,
    Yellow,
    Blue,
    Magenta,
    Cyan,
    Gray,
    DarkGray,
    LightRed,
    LightGreen,
    LightYellow,
    LightBlue,
    LightMagenta,
    LightCyan,
    White,
    Rgb(u8, u8, u8),
    Indexed(u8),
}

/// How a cell is drawn: its colours, whether it is bold or dim, and the
/// bits of any other text modifier (which change no escape sequence).
#[derive(Debug, Clone, Copy, PartialEq, Eq, Structural)]
pub struct CellStyle {
    pub fg: Colour,
    pub bg: Colour,
    pub bold: bool,
    pub dim: bool,
    pub other_modifiers: u16,
}

/// One cell of the screen: what it shows and how.
#[derive(Debug, Clone, PartialEq, Eq)]
pub struct Cell {
    pub symbol: String,
    pub style: CellStyle,
}

pub struct CellModel {
    pub symbol: Seq<char>,
    pub style: CellStyle,
}

impl View for Cell {
    type V = CellModel;

    open spec fn view(&self) -> CellModel {
        CellModel { symbol: self.symbol@, style: self.style }
    }
}

pub open spec fn cells_view(cells: Seq<Cell>) -> Seq<CellModel> {
    cells.map_values(|c: Cell| c@)
}

pub open spec fn escape() -> Seq<char> {
    seq!['\u{1b}', '[']
}

/// The SGR number of a named colour, as a foreground or a background.
pub open spec fn named_code(colour: Colour, background: bool) -> Seq<char> {
    match colour {
        Colour::Reset => if background { "49"@ } else { "39"@ },
        Colour::Black => if background { "40"@ } else { "30"@ },
        Colour::Red => if background { "41"@ } else { "31"@ },
        Colour::Green => if background { "42"@ } else { "32"@ },
        Colour::Yellow => if background { "43"@ } else { "33"@ },
        Colour::Blue => if background { "44"@ } else { "34"@ },
        Colour::Magenta => if background { "45"@ } else { "35"@ },
        Colour::Cyan => if background { "46"@ } else { "36"@ },
        Colour::Gray => if background { "47"@ } else { "37"@ },
        Colour::DarkGray => if background { "100"@ } else { "90"@ },
        Colour::LightRed => if background { "101"@ } else { "91"@ },
        Colour::LightGreen => if background { "102"@ } else { "92"@ },
        Colour::LightYellow => if background { "103"@ } else { "93"@ },
        Colour::LightBlue => if background { "104"@ } else { "94"@ },
        Colour::LightMagenta => if background { "105"@ } else { "95"@ },
        Colour::LightCyan => if background { "106"@ } else { "96"@ },
        _ => if background { "107"@ } else { "97"@ },
    }
}

/// The escape sequence that sets a colour: a named colour by its number,
/// an RGB colour as `38;2;r;g;b` (`48` for a background), an indexed one
/// as `38;5;i`.
pub open spec fn colour_code(colour: Colour, background: bool) -> Seq<char> {
    let lead = if background { "48"@ } else { "38"@ };
    match colour {
        Colour::Rgb(r, g, b) => escape() + lead + ";2;"@ + decimal(r as nat) + ";"@ + decimal(g as nat) + ";"@ + decimal(b as nat)
            + "m"@,
        Colour::Indexed(i) => escape() + lead + ";5;"@ + decimal(i as nat) + "m"@,
        _ => escape() + named_code(colour, background) + "m"@,
    }
}

/// The escape sequences that switch to `style`: reset, the foreground, the
/// background, then bold and dim when set.
pub open spec fn style_code(style: CellStyle) -> Seq<char> {
    escape() + "0m"@ + colour_code(style.fg, false) + colour_code(style.bg, true) + (if style.bold {
        escape() + "1m"@
    } else {
        seq![]
    }) + (if style.dim {
        escape() + "2m"@
    } else {
        seq![]
    })
}

/// The first `k` cells of a row as text: a cell's style is written before
/// it when it is the first cell or its style differs from the cell before.
pub open spec fn row_prefix(cells: Seq<CellModel>, k: int) -> Seq<char>
    decreases k,
{
    if k <= 0 {
        seq![]
    } else {
        row_prefix(cells, k - 1) + (if k == 1 || cells[k - 2].style != cells[k - 1].style {
            style_code(cells[k - 1].style)
        } else {
            seq![]
        }) + cells[k - 1].symbol
    }
}

/// A row as text, ended by a reset.
pub open spec fn row_text(cells: Seq<CellModel>) -> Seq<char> {
    row_prefix(cells, cells.len() as int) + escape() + "0m"@
}

fn push_escape(out: &mut Vec<char>, code: &str)
    ensures
        final(out)@ == old(out)@ + escape() + code@ + "m"@,
{
    out.push('\u{1b}');
    out.push('[');
    append_text(out, code);
    append_text(out, "m");
    assert(final(out)@ =~= old(out)@ + escape() + code@ + "m"@);
}

fn named_code_text(colour: Colour, background: bool) -> (code: &'static str)
    ensures
        code@ == named_code(colour, background),
{
    match colour {
        Colour::Reset => if background { "49" } else { "39" },
        Colour::Black => if background { "40" } else { "30" },
        Colour::Red => if background { "41" } else { "31" },
        Colour::Green => if background { "42" } else { "32" },
        Colour::Yellow => if background { "43" } else { "33" },
        Colour::Blue => if background { "44" } else { "34" },
        Colour::Magenta => if background { "45" } else { "35" },
        Colour::Cyan => if background { "46" } else { "36" },
        Colour::Gray => if background { "47" } else { "37" },
        Colour::DarkGray => if background { "100" } else { "90" },
        Colour::LightRed => if background { "101" } else { "91" },
        Colour::LightGreen => if background { "102" } else { "92" },
        Colour::LightYellow => if background { "103" } else { "93" },
        Colour::LightBlue => if background { "104" } else { "94" },
        Colour::LightMagenta => if background { "105" } else { "95" },
        Colour::LightCyan => if background { "106" } else { "96" },
        _ => if background { "107" } else { "97" },
    }
}

fn push_colour(out: &mut Vec<char>, colour: Colour, background: bool)
    ensures
        final(out)@ == old(out)@ + colour_code(colour, background),
{
    let lead = if background { "48" } else { "38" };
    match colour {
        Colour::Rgb(r, g, b) => {
            out.push('\u{1b}');
            out.push('[');
            append_text(out, lead);
            append_text(out, ";2;");
            push_decimal(out, r as u64);
            append_text(out, ";");
            push_decimal(out, g as u64);
            append_text(out, ";");
            push_decimal(out, b as u64);
            append_text(out, "m");
            assert(final(out)@ =~= old(out)@ + colour_code(colour, background));
        },
        Colour::Indexed(i) => {
            out.push('\u{1b}');
            out.push('[');
            append_text(out, lead);
            append_text(out, ";5;");
            push_decimal(out, i as u64);
            append_text(out, "m");
            assert(final(out)@ =~= old(out)@ + colour_code(colour, background));
        },
        _ => {
            push_escape(out, named_code_text(colour, background));
            assert(final(out)@ =~= old(out)@ + colour_code(colour, background));
        },
    }
}

fn push_style(out: &mut Vec<char>, style: CellStyle)
    ensures
        final(out)@ == old(out)@ + style_code(style),
{
    push_escape(out, "0");
    push_colour(out, style.fg, false);
    push_colour(out, style.bg, true);
    let ghost before_modifiers = out@;
    if style.bold {
        push_escape(out, "1");
    }
    let ghost after_bold = out@;
    if style.dim {
        push_escape(out, "2");
    }
    proof {
        reveal_strlit("0");
        reveal_strlit("1");
        reveal_strlit("2");
        reveal_strlit("m");
        reveal_strlit("0m");
        reveal_strlit("1m");
        reveal_strlit("2m");
    }
    assert(out@ =~= old(out)@ + style_code(style));
}

/// One row of cells as terminal text.
pub fn encode_row(cells: &Vec<Cell>) -> (text: String)
    ensures
        text@ == row_text(cells_view(cells@)),
{
    let ghost cv = cells_view(cells@);
    let mut out: Vec<char> = Vec::new();
    let mut k: usize = 0;
    while k < cells.len()
        invariant
            k <= cells@.len(),
            cv == cells_view(cells@),
            out@ == row_prefix(cv, k as int),
        decreases cells@.len() - k,
    {
        assert(cv[k as int] == cells@[k as int]@);
        if k == 0 || cells[k - 1].style != cells[k].style {
            if k > 0 {
                assert(cv[k - 1] == cells@[k - 1]@);
            }
            push_style(&mut out, cells[k].style);
        } else {
            assert(cv[k - 1] == cells@[k - 1]@);
        }
        append_text(&mut out, cells[k].symbol.as_str());
        k += 1;
    }
    push_escape(&mut out, "0");
    proof {
        reveal_strlit("0");
        reveal_strlit("m");
        reveal_strlit("0m");
    }
    assert(out@ =~= row_text(cv));
    string_from(&out)
}

/// Every row of the screen as terminal text, top to bottom.
pub fn encode_lines(rows: &Vec<Vec<Cell>>) -> (lines: Vec<String>)
    ensures
        lines@.len() == rows@.len(),
        forall|i: int| 0 <= i < rows@.len() ==> (#[trigger] lines@[i])@ == row_text(cells_view(rows@[i]@)),
{
    let mut lines: Vec<String> = Vec::new();
    let mut i: usize = 0;
    while i < rows.len()
        invariant
            i <= rows@.len(),
            lines@.len() == i,
            forall|j: int| 0 <= j < i ==> (#[trigger] lines@[j])@ == row_text(cells_view(rows@[j]@)),
        decreases rows@.len() - i,
    {
        let line = encode_row(&rows[i]);
        lines.push(line);
        i += 1;
    }
    lines
}

} // verus!
