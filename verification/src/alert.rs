//! DTLS alerts.

use vstd::prelude::*;

verus! {

/// How grave an alert is.
#[derive(Debug, Clone, Copy, PartialEq, Eq, Structural)]
pub enum AlertLevel {
    /// The connection goes on.
    Warning,
    /// The connection ends.
    Fatal,
    /// Something unknown.
    Invalid,
}

/// What an alert is about.
#[derive(Debug, Clone, Copy, PartialEq, Eq, Structural)]
pub enum AlertDescription {
    /// The sender sends nothing more.
    CloseNotify,
    /// A message came out of turn.
    UnexpectedMessage,
    /// A message could not be read.
    DecodeError,
    /// The pre-shared key is not known.
    UnknownPskIdentity,
    /// Something else, by its number.
    Other(u8),
}

/// An alert.
#[derive(Debug, Clone, Copy, PartialEq, Eq, Structural)]
pub struct Alert {
    /// How grave it is.
    pub alert_level: AlertLevel,
    /// What it is about.
    pub alert_description: AlertDescription,
}

impl AlertLevel {
    /// The level that a byte stands for.
    pub open spec fn of(byte: u8) -> AlertLevel {
        if byte == 1 {
            AlertLevel::Warning
        } else if byte == 2 {
            AlertLevel::Fatal
        } else {
            AlertLevel::Invalid
        }
    }

    /// The byte that stands for a level.
    pub open spec fn byte(self) -> u8 {
        match self {
            AlertLevel::Warning => 1,
            AlertLevel::Fatal => 2,
            AlertLevel::Invalid => 3,
        }
    }

    /// The level that a byte stands for.
    pub fn from_byte(byte: u8) -> (level: AlertLevel)
        ensures
            level == AlertLevel::of(byte),
    {
        match byte {
            1 => AlertLevel::Warning,
            2 => AlertLevel::Fatal,
            _ => AlertLevel::Invalid,
        }
    }

    /// The byte that stands for a level.
    pub fn to_byte(&self) -> (byte: u8)
        ensures
            byte == self.byte(),
    {
        match self {
            AlertLevel::Warning => 1,
            AlertLevel::Fatal => 2,
            AlertLevel::Invalid => 3,
        }
    }
}

impl AlertDescription {
    /// What a byte stands for.
    pub open spec fn of(byte: u8) -> AlertDescription {
        if byte == 0 {
            AlertDescription::CloseNotify
        } else if byte == 10 {
            AlertDescription::UnexpectedMessage
        } else if byte == 50 {
            AlertDescription::DecodeError
        } else if byte == 115 {
            AlertDescription::UnknownPskIdentity
        } else {
            AlertDescription::Other(byte)
        }
    }

    /// The byte that stands for it.
    pub open spec fn byte(self) -> u8 {
        match self {
            AlertDescription::CloseNotify => 0,
            AlertDescription::UnexpectedMessage => 10,
            AlertDescription::DecodeError => 50,
            AlertDescription::UnknownPskIdentity => 115,
            AlertDescription::Other(byte) => byte,
        }
    }

    /// What a byte stands for.
    pub fn from_byte(byte: u8) -> (description: AlertDescription)
        ensures
            description == AlertDescription::of(byte),
    {
        match byte {
            0 => AlertDescription::CloseNotify,
            10 => AlertDescription::UnexpectedMessage,
            50 => AlertDescription::DecodeError,
            115 => AlertDescription::UnknownPskIdentity,
            _ => AlertDescription::Other(byte),
        }
    }

    /// The byte that stands for it.
    pub fn to_byte(&self) -> (byte: u8)
        ensures
            byte == self.byte(),
    {
        match self {
            AlertDescription::CloseNotify => 0,
            AlertDescription::UnexpectedMessage => 10,
            AlertDescription::DecodeError => 50,
            AlertDescription::UnknownPskIdentity => 115,
            AlertDescription::Other(byte) => *byte,
        }
    }
}

impl Alert {
    /// Whether the connection ends with it.
    pub open spec fn ends(self) -> bool {
        self.alert_level == AlertLevel::Fatal || self.alert_description
            == AlertDescription::CloseNotify
    }

    /// Whether the connection ends with it.
    pub fn is_final(&self) -> (ends: bool)
        ensures
            ends == self.ends(),
    {
        self.alert_level == AlertLevel::Fatal || self.alert_description
            == AlertDescription::CloseNotify
    }
}

/// Alerts have the numbers that TLS gives them: a number is read as what it stands for, and written
/// as it was read. A level other than the two that there are is unknown.
pub proof fn law_alerts_have_their_numbers(byte: u8)
    ensures
        AlertLevel::of(1) == AlertLevel::Warning,
        AlertLevel::of(2) == AlertLevel::Fatal,
        AlertLevel::of(byte) == AlertLevel::Invalid <==> byte != 1 && byte != 2,
        AlertLevel::of(byte) != AlertLevel::Invalid ==> AlertLevel::of(byte).byte() == byte,
        AlertDescription::of(0) == AlertDescription::CloseNotify,
        AlertDescription::of(10) == AlertDescription::UnexpectedMessage,
        AlertDescription::of(50) == AlertDescription::DecodeError,
        AlertDescription::of(115) == AlertDescription::UnknownPskIdentity,
        AlertDescription::of(byte) is Other <==> byte != 0 && byte != 10 && byte != 50 && byte
            != 115,
        AlertDescription::of(byte).byte() == byte,
{
}

/// A fatal alert ends the connection whatever it is about, one that closes ends it whatever its
/// level, and no other one does.
pub proof fn law_which_alerts_end_a_connection(alert: Alert)
    ensures
        alert.alert_level == AlertLevel::Fatal ==> alert.ends(),
        alert.alert_description == AlertDescription::CloseNotify ==> alert.ends(),
        alert.alert_level != AlertLevel::Fatal && alert.alert_description
            != AlertDescription::CloseNotify ==> !alert.ends(),
{
}

} // verus!
