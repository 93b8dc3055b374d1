//! Extraction of simple class rules, `.name { declarations }`, from minified
//! style-sheet text, as a table of editor snippets keyed by class name.

pub mod chars;
pub mod normalize;
pub mod scan;
pub mod table;
pub mod extract;
pub mod laws;
