/// Sorted map entries and set elements, built one insertion at a time.
pub mod collection;
/// The operations of a pipeline and what they do to values.
pub mod operation;
/// The canonical total order over values.
pub mod order;
/// The grammar of query expressions.
pub mod parser;
/// Pipelines applied to whole batches of forms.
pub mod transform;
/// Values and their mathematical model.
pub mod value;
