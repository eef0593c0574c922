pub mod bucket;
pub mod bucket_array_ref;
