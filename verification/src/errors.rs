//! The closed set of failure kinds surfaced through the broker core.

use vstd::prelude::*;

verus! {

/// Every failure the broker core can report. Each variant is emitted by
/// exactly one layer: app construction, the payload codec, channel
/// authentication, the transport edge, or the connection runtime.
#[derive(Clone, Copy, Debug, PartialEq, Eq, Structural)]
pub enum FastSocketError {
    InvalidAppIdError,
    InvalidAppKeyError,
    InvalidAppSecretError,
    InvalidMessageError,
    InvalidSignatureError,
    InvalidAppNameError,
    InvalidAppHostError,
    InvalidAppPathError,
    InvalidAppCapacityError,
    InvalidPayloadError,
    FailedToSendPongError,
    FailedToSendPayloadError,
    EncryptionError,
    ServerCapacityError,
    InvalidAppError,
    UpgradeFailedError,
    ConnectionClosed,
    ErrorReadingPayload,
    ErrorDecodingPayload,
    ErrorCreatingMessage,
    ErrorSendingPong,
    ErrorHandlingMessage,
}

impl FastSocketError {
    /// A human-readable description of the failure.
    pub fn message(&self) -> &'static str {
        match self {
            FastSocketError::InvalidAppIdError => "Invalid AppId provided",
            FastSocketError::InvalidAppKeyError => "Invalid AppKey provided",
            FastSocketError::InvalidAppSecretError => "Invalid AppSecret provided",
            FastSocketError::InvalidMessageError => "Invalid message provided",
            FastSocketError::InvalidSignatureError => "Invalid signature provided",
            FastSocketError::InvalidAppNameError => "Invalid AppName provided",
            FastSocketError::InvalidAppHostError => "Invalid AppHost provided",
            FastSocketError::InvalidAppPathError => "Invalid AppPath provided",
            FastSocketError::InvalidAppCapacityError => "Invalid AppCapacity provided",
            FastSocketError::InvalidPayloadError => "Invalid Payload provided",
            FastSocketError::FailedToSendPongError => "Failed to send pong",
            FastSocketError::FailedToSendPayloadError => "Failed to send payload",
            FastSocketError::EncryptionError => "Encryption error",
            FastSocketError::ServerCapacityError => "Server is at capacity",
            FastSocketError::InvalidAppError => "Invalid App provided",
            FastSocketError::UpgradeFailedError => "Upgrade failed",
            FastSocketError::ConnectionClosed => "Connection closed",
            FastSocketError::ErrorReadingPayload => "Error handling message",
            FastSocketError::ErrorDecodingPayload => "Error decoding payload",
            FastSocketError::ErrorCreatingMessage => "Error creating message",
            FastSocketError::ErrorSendingPong => "Error sending pong",
            FastSocketError::ErrorHandlingMessage => "Error handling message",
        }
    }
}

} // verus!
