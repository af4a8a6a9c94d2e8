//! A small convolutional network for handwritten digits: the tensor layout,
//! the pseudo-random generator, max pooling, the weights file format and the
//! MNIST container format, each with its contract.
//!
//! Single-precision values are held by their IEEE-754 bit patterns (`u32`);
//! arithmetic on them lives with the caller, while every decision the library
//! takes on them goes through the order of `tensor::float_gt`.

pub mod tensor;
pub mod layers;
pub mod weights;
pub mod mnist;
