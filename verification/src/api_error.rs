use vstd::prelude::*;

use crate::runtime_error::RuntimeError;

verus! {

/// The API-facing error taxonomy: any infrastructure error passes through
/// transparently, and `LicenseNotFound` stands beside it as a distinct,
/// matchable domain-level case.  The access layer itself never raises
/// `LicenseNotFound`; a consuming handler builds it when it treats an
/// absent license as a failure.
#[derive(Debug)]
pub enum ApiError {
    /// A wrapped infrastructure error; its diagnostic text passes through
    /// unchanged.
    RuntimeError(RuntimeError),
    /// The named license key was required but absent.
    LicenseNotFound(String),
}

impl ApiError {
    /// The diagnostic text: exactly the wrapped cause's text for an
    /// infrastructure error, a fixed domain message otherwise.
    pub open spec fn spec_message(self) -> Seq<char> {
        match self {
            ApiError::RuntimeError(e) => e.spec_message(),
            ApiError::LicenseNotFound(_) => "License not found."@,
        }
    }

    /// Renders the diagnostic text.
    pub fn message(&self) -> (r: String)
        ensures
            r@ == self.spec_message(),
    {
        match self {
            ApiError::RuntimeError(e) => e.message(),
            ApiError::LicenseNotFound(_) => String::from_str("License not found."),
        }
    }
}

impl From<RuntimeError> for ApiError {
    fn from(error: RuntimeError) -> (r: ApiError) {
        ApiError::RuntimeError(error)
    }
}

impl vstd::std_specs::convert::FromSpecImpl<RuntimeError> for ApiError {
    open spec fn obeys_from_spec() -> bool {
        true
    }

    open spec fn from_spec(e: RuntimeError) -> ApiError {
        ApiError::RuntimeError(e)
    }
}

/// Transparent wrapping: an API error built from an infrastructure error
/// shows exactly that error's diagnostic text, with no added context.
pub proof fn lemma_transparent_wrap(e: RuntimeError)
    ensures
        ApiError::RuntimeError(e).spec_message() == e.spec_message(),
{
}

} // verus!
