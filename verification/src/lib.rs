//! A KZG polynomial commitment scheme over BLS12-381 for blob data: verified
//! scalar-field arithmetic, batch inversion, roots-of-unity tables and the
//! commitment engine's evaluation and quotient algorithms, with curve points
//! carried in validated compressed form.
pub mod fr;
pub mod encoding;
pub mod batch;
pub mod fft;
pub mod poly;
pub mod points;
pub mod setup;
pub mod kzg;
