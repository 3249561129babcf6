//! Core of a scrolling audio spectrogram: a bounded, overwrite-oldest
//! circular queue for raw samples and finished spectra, and a streaming
//! analyzer that slices the sample stream into overlapping windows.

pub mod fft;
pub mod ring;
