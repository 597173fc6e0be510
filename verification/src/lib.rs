/// The bracket-matching tree builder: folds a flat tagged forest into
/// nested trees by collapsing matched delimiter pairs, innermost first.
pub mod grouping;
/// The mathematical model of tagged token trees: node shapes, content
/// ranges, well-formedness, source order, and the diagnostic rendering.
pub mod model;
/// The tagged token tree itself: leaves over spans of one shared source
/// text, branches over ordered children, and their queries.
pub mod parse_token;
