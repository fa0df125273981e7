pub mod img;
pub mod reader;
pub mod writer;
pub mod algo;
pub mod less_sign;
pub mod avg_sum;
pub mod less_sign_laws;
pub mod avg_sum_laws;
pub mod delta_laws;
