//! Conversion of Liberty cell libraries to the GENLIB gate format: the text
//! scanning, the structure of cells and pins, and which cells become GENLIB gates.
pub mod text;
pub mod scan;
pub mod genlib;
pub mod table;
pub mod liberty;
pub mod report;
