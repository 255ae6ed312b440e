//! The Noise session: the only place where bytes are encrypted and decrypted.

use crate::frame::MAX_NOISE_PKG_LEN;
use vstd::prelude::*;

verus! {

/// A Noise session in transport mode, as `snow` hands it out after a
/// completed handshake. Nothing inside it is visible here.
#[verifier::external_type_specification]
#[verifier::external_body]
pub struct ExTransportState(snow::TransportState);

/// The error of `snow`. Nothing inside it is visible here.
#[verifier::external_type_specification]
#[verifier::external_body]
pub struct ExError(snow::Error);

/// `snow::TransportState::write_message` encrypts `payload` into the front
/// of `message`.
///
/// Believed of it, not proved: it leaves the length of `message` alone, and
/// on success it returns the number of bytes that it wrote to `message`,
/// which is at most the length of `message` and at most the largest Noise
/// message.
pub assume_specification[ snow::TransportState::write_message ](
    session: &mut snow::TransportState,
    payload: &[u8],
    message: &mut [u8],
) -> (r: Result<usize, snow::Error>)
    ensures
        final(message)@.len() == old(message)@.len(),
        r matches Ok(n) ==> n <= old(message)@.len() && n <= MAX_NOISE_PKG_LEN,
;

/// `snow::TransportState::read_message` verifies `message` and decrypts it
/// into the front of `payload`.
///
/// Believed of it, not proved: it leaves the length of `payload` alone, and
/// on success it returns the number of bytes that it wrote to `payload`,
/// which is at most the length of `payload`.
pub assume_specification[ snow::TransportState::read_message ](
    session: &mut snow::TransportState,
    message: &[u8],
    payload: &mut [u8],
) -> (r: Result<usize, snow::Error>)
    ensures
        final(payload)@.len() == old(payload)@.len(),
        r matches Ok(n) ==> n <= old(payload)@.len(),
;

} // verus!
