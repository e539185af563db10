//! Tables for the terminal.
use comfy_table::Cell;
use comfy_table::Row;
use comfy_table::Table;
use vstd::prelude::*;

verus! {

/// The colour of a cell's text.
#[derive(Debug, Clone, Copy, PartialEq, Eq, Structural)]
pub enum CellColor {
    Green,
    Red,
    Yellow,
    Cyan,
    White,
}

/// The lines that are drawn around the cells.
#[derive(Debug, Clone, Copy, PartialEq, Eq, Structural)]
pub enum TableLook {
    /// The lines of a Markdown table.
    Markdown,
    /// The lines of a Markdown table, with rounded corners.
    RoundedMarkdown,
    /// All lines, with rounded corners.
    RoundedFull,
}

#[verifier::external_type_specification]
#[verifier::external_body]
pub struct ExCell(comfy_table::Cell);

#[verifier::external_type_specification]
#[verifier::external_body]
pub struct ExRow(comfy_table::Row);

#[verifier::external_type_specification]
#[verifier::external_body]
pub struct ExTable(comfy_table::Table);

/// A cell's text and the colour it was given.
pub type CellView = (Seq<char>, Option<CellColor>);

/// What a cell holds.
pub uninterp spec fn cell_content(cell: Cell) -> (Seq<char>, Option<CellColor>);

/// The cells of a row.
pub uninterp spec fn row_cells(row: Row) -> Seq<(Seq<char>, Option<CellColor>)>;

/// The cells of the header; none where no header was set.
pub uninterp spec fn table_header(table: Table) -> Seq<(Seq<char>, Option<CellColor>)>;

/// The rows below the header.
pub uninterp spec fn table_rows(table: Table) -> Seq<Seq<(Seq<char>, Option<CellColor>)>>;

/// The look that was loaded; none where the table has the crate's default.
pub uninterp spec fn table_look(table: Table) -> Option<TableLook>;

/// `comfy_table::Cell::new`: a cell with this text and no colour.
#[verifier::external_body]
pub(crate) fn cell(text: &str) -> (r: Cell)
    ensures
        cell_content(r) == (text@, None::<CellColor>),
{
    Cell::new(text)
}

/// `comfy_table::Cell::fg`: the same cell with this text colour.
#[verifier::external_body]
pub(crate) fn colored(cell: Cell, color: CellColor) -> (r: Cell)
    ensures
        cell_content(r) == (cell_content(cell).0, Some(color)),
{
    cell.fg(match color {
        CellColor::Green => comfy_table::Color::Green,
        CellColor::Red => comfy_table::Color::Red,
        CellColor::Yellow => comfy_table::Color::Yellow,
        CellColor::Cyan => comfy_table::Color::Cyan,
        CellColor::White => comfy_table::Color::White,
    })
}

/// `comfy_table::Row::new`: a row without cells.
#[verifier::external_body]
pub(crate) fn new_row() -> (r: Row)
    ensures
        row_cells(r) == Seq::<CellView>::empty(),
{
    Row::new()
}

/// `comfy_table::Row::add_cell`: appends a cell.
#[verifier::external_body]
pub(crate) fn add_cell(row: &mut Row, cell: Cell)
    ensures
        row_cells(*final(row)) == row_cells(*old(row)).push(cell_content(cell)),
{
    row.add_cell(cell);
}

/// `comfy_table::Table::new`: no header, no rows, the default look.
#[verifier::external_body]
pub(crate) fn new_table() -> (r: Table)
    ensures
        table_header(r) == Seq::<CellView>::empty(),
        table_rows(r) == Seq::<Seq<CellView>>::empty(),
        table_look(r) is None,
{
    Table::new()
}

/// `comfy_table::Table::load_style`: replaces the look and leaves header and rows.
#[verifier::external_body]
pub(crate) fn load_look(table: &mut Table, look: TableLook)
    ensures
        table_look(*final(table)) == Some(look),
        table_header(*final(table)) == table_header(*old(table)),
        table_rows(*final(table)) == table_rows(*old(table)),
{
    table.load_style(match look {
        TableLook::Markdown => comfy_table::presets::ASCII_MARKDOWN,
        TableLook::RoundedMarkdown => comfy_table::presets::ASCII_MARKDOWN.with_rounded_corners(),
        TableLook::RoundedFull => comfy_table::presets::ASCII_FULL.with_rounded_corners(),
    });
}

/// `comfy_table::Table::set_header`: replaces the header and leaves rows and look.
#[verifier::external_body]
pub(crate) fn set_header(table: &mut Table, header: Row)
    ensures
        table_header(*final(table)) == row_cells(header),
        table_rows(*final(table)) == table_rows(*old(table)),
        table_look(*final(table)) == table_look(*old(table)),
{
    table.set_header(header);
}

/// `comfy_table::Table::add_row`: appends a row and leaves header and look.
#[verifier::external_body]
pub(crate) fn add_row(table: &mut Table, row: Row)
    ensures
        table_rows(*final(table)) == table_rows(*old(table)).push(row_cells(row)),
        table_header(*final(table)) == table_header(*old(table)),
        table_look(*final(table)) == table_look(*old(table)),
{
    table.add_row(row);
}

/// Appends a cell without colour.
pub(crate) fn add_text(row: &mut Row, text: &str)
    ensures
        row_cells(*final(row)) == row_cells(*old(row)).push((text@, None::<CellColor>)),
{
    add_cell(row, cell(text));
}

/// Appends a cell with a colour.
pub(crate) fn add_colored(row: &mut Row, text: &str, color: CellColor)
    ensures
        row_cells(*final(row)) == row_cells(*old(row)).push((text@, Some(color))),
{
    add_cell(row, colored(cell(text), color));
}

} // verus!
