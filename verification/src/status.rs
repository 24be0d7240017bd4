//! The closed set of operation outcomes and their wire codes.

use vstd::prelude::*;

verus! {

/// Outcome of an accessory operation, as reported to a controller.
#[derive(Clone, Copy, Debug, PartialEq, Eq, Structural)]
pub enum Status {
    Success,
    InsufficientPrivileges,
    ServiceCommunicationFailure,
    ResourceBusy,
    ReadOnlyCharacteristic,
    WriteOnlyCharacteristic,
    NotificationNotSupported,
    OutOfResource,
    OperationTimedOut,
    ResourceDoesNotExist,
    InvalidValueInRequest,
}

impl Status {
    /// The protocol-fixed wire code of an outcome.
    pub open spec fn code(self) -> int {
        match self {
            Status::Success => 0,
            Status::InsufficientPrivileges => -70401,
            Status::ServiceCommunicationFailure => -70402,
            Status::ResourceBusy => -70403,
            Status::ReadOnlyCharacteristic => -70404,
            Status::WriteOnlyCharacteristic => -70405,
            Status::NotificationNotSupported => -70406,
            Status::OutOfResource => -70407,
            Status::OperationTimedOut => -70408,
            Status::ResourceDoesNotExist => -70409,
            Status::InvalidValueInRequest => -70410,
        }
    }

    /// Returns the wire code of this outcome.
    pub fn as_i32(&self) -> (code: i32)
        ensures
            code == self.code(),
    {
        match self {
            Status::Success => 0,
            Status::InsufficientPrivileges => -70401,
            Status::ServiceCommunicationFailure => -70402,
            Status::ResourceBusy => -70403,
            Status::ReadOnlyCharacteristic => -70404,
            Status::WriteOnlyCharacteristic => -70405,
            Status::NotificationNotSupported => -70406,
            Status::OutOfResource => -70407,
            Status::OperationTimedOut => -70408,
            Status::ResourceDoesNotExist => -70409,
            Status::InvalidValueInRequest => -70410,
        }
    }
}

/// Every outcome has a code of its own: two outcomes with the same code are
/// the same outcome.
pub proof fn lemma_codes_are_unique(a: Status, b: Status)
    ensures
        a.code() == b.code() <==> a == b,
{
}

/// `Success` is the only outcome whose code is zero; every other code is a
/// negative number in the protocol's failure range.
pub proof fn lemma_only_success_is_zero(s: Status)
    ensures
        s.code() == 0 <==> s == Status::Success,
        s != Status::Success ==> -70410 <= s.code() <= -70401,
        i32::MIN <= s.code() <= i32::MAX,
{
}

} // verus!
