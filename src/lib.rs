//! A small multilayer-perceptron engine over flat, layered buffers.
//!
//! A [`topology::Topology`] gives the shape of a network: its input count and the neuron count
//! and activation of each layer. From it, one flat buffer per kind is laid out
//! ([`param_buffer`], [`result_buffer`], [`deriv_buffer`]), with each layer's regions at offsets
//! that [`layout`] defines. The [`forward`] and [`back_propagation`] kernels compute over those
//! buffers, and a [`gym::Gym`] runs gradient descent over batches of samples.
//!
//! The engine is generic over its scalar type: the kernels arrange the computation, and an
//! implementation of [`scalar::Arithmetic`] and [`scalar::Activation`] supplies the numbers.
pub mod activation;
pub mod back_propagation;
pub mod deriv_buffer;
pub mod forward;
pub mod gym;
pub mod layout;
pub mod nn;
pub mod param_buffer;
pub mod result_buffer;
pub mod scalar;
pub mod topology;
