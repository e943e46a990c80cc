pub mod completion;
pub mod completion_data;
pub mod completion_doc;
