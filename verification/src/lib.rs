//! Multi-resolution audio feature extraction.
//!
//! This library holds the verified core of a batch spectrogram pipeline:
//! a deterministic fixed-point linear resampler, the framing and truncation
//! logic of a short-time Fourier transform, the geometric sample-rate sweep
//! planner, and the decision kernels of the batch driver. Audio decoding,
//! the floating-point Hann window and FFT, and all filesystem work live in
//! the surrounding application, which hands this library plain integer
//! samples and takes plain frames back.

pub mod driver;
pub mod rates;
pub mod resample;
pub mod spectrogram;
