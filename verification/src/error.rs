//! What can go wrong.

use crate::alert::Alert;
use crate::crypto::CryptoError;
use crate::transport::SocketAddr;
use vstd::prelude::*;

verus! {

/// What can go wrong.
#[derive(Debug, Clone, Copy, PartialEq, Eq, Structural)]
pub enum Error {
    /// The data ends before what it should hold.
    ErrBufferTooSmall,
    /// A length field disagrees with the data.
    ErrLengthMismatch,
    /// Reassembling a handshake message would take too much memory.
    ErrFragmentBufferOverflow {
        /// What it would take.
        new_size: usize,
        /// What it may take.
        max_size: usize,
    },
    /// No handshake message is complete.
    ErrEmptyFragment,
    /// A record sequence number would no longer fit.
    ErrSequenceNumberOverflow,
    /// A record or its padding does not carry the code that its sender would have made.
    ErrInvalidMac,
    /// A record is too short for the nonce that it should begin with.
    ErrNotEnoughRoomForNonce,
    /// A record is too short for its tag.
    ErrRecordTooShortForTag,
    /// A record does not hold whole blocks.
    ErrInvalidPacketLength,
    /// A cryptographic operation failed.
    Crypto(CryptoError),
    /// The keys are not there yet.
    ErrCipherSuiteNotInit,
    /// There is no association with this address, or there can be none.
    InvalidRemoteAddress(SocketAddr),
    /// Associations are not accepted.
    NoServerConfig,
    /// The connection is closed.
    ErrConnClosed,
    /// The handshake is not done yet.
    ErrHandshakeInProgress,
    /// An alert ended the connection.
    ErrAlertFatalOrClose,
    /// The peer sent this alert.
    ErrAlert(Alert),
    /// Application data came before there were keys.
    ErrApplicationDataEpochZero,
    /// A record came out of turn.
    ErrUnhandledContextType,
    /// A record holds something unknown.
    ErrInvalidContentType,
    /// A change of cipher is not the one that there is.
    ErrInvalidCipherSpec,
    /// A handshake message that has to be there is not.
    ErrMissingMandatoryMessage,
    /// A handshake message before this one has not arrived.
    ErrMessageGap,
}

} // verus!
