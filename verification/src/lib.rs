//! Ground-station signal processing: decoding of the rate 1/2, length 256
//! LDPC code, and the decimating filter in front of the demodulator.

pub mod ldpcd;
pub mod sdr;
