//! The ways in which storing or extracting a resource fails.
use vstd::prelude::*;
use vstd::string::*;

verus! {

/// Why an operation on the store failed.
#[derive(Debug, PartialEq, Eq)]
pub enum ResourceError {
    /// The id, the name or the length does not fit the fixed-width header.
    HeaderOverflow,
    /// The record was written in an older format than this library reads.
    VersionOlder { stored: String },
    /// The record was written in a newer format than this library reads.
    VersionNewer { stored: String },
    /// The end marker or the size of the record is not what its header says.
    IncompleteResource,
    /// The host holds no record with the id asked for.
    ResourceNotFound,
    /// A version is not made of integers separated by dots.
    MalformedVersion,
    /// The bytes are not a header.
    DecodeError,
    /// The payload could not be compressed or decompressed.
    Compression,
}

/// The format version that this library writes and reads.
pub open spec fn current_version() -> Seq<char> {
    "1.0.0"@
}

/// The format version that this library writes and reads.
pub fn currentVersion() -> (v: &'static str)
    ensures
        v@ == current_version(),
{
    "1.0.0"
}

impl ResourceError {
    /// The text of the error.
    pub open spec fn text(&self) -> Seq<char> {
        match self {
            ResourceError::HeaderOverflow =>
                "The resource information is not standard, please make sure that there are no Chinese symbols in the information"@,
            ResourceError::VersionOlder { stored } =>
                "Resource version does not match, the target resource version is "@ + stored@
                    + ", the current resource version is "@ + current_version()
                    + ", please try to upgrade the program version"@,
            ResourceError::VersionNewer { stored } =>
                "Resource version does not match, the target resource version is "@ + stored@
                    + ", the current resource version is "@ + current_version()
                    + ", please try to lower the program version"@,
            ResourceError::IncompleteResource => "The resource to be exported is incomplete"@,
            ResourceError::ResourceNotFound => "Resource not found"@,
            ResourceError::MalformedVersion => "The resource version is not a dotted number"@,
            ResourceError::DecodeError => "The bytes do not hold a resource header"@,
            ResourceError::Compression => "The resource could not be compressed or decompressed"@,
        }
    }

    /// The text of the error, for the user.
    pub fn message(&self) -> (r: String)
        ensures
            r@ == self.text(),
    {
        match self {
            ResourceError::HeaderOverflow => String::from_str(
                "The resource information is not standard, please make sure that there are no Chinese symbols in the information",
            ),
            ResourceError::VersionOlder { stored } => {
                let mut r = String::from_str(
                    "Resource version does not match, the target resource version is ",
                );
                r.append(stored.as_str());
                r.append(", the current resource version is ");
                r.append(currentVersion());
                r.append(", please try to upgrade the program version");
                r
            },
            ResourceError::VersionNewer { stored } => {
                let mut r = String::from_str(
                    "Resource version does not match, the target resource version is ",
                );
                r.append(stored.as_str());
                r.append(", the current resource version is ");
                r.append(currentVersion());
                r.append(", please try to lower the program version");
                r
            },
            ResourceError::IncompleteResource => String::from_str(
                "The resource to be exported is incomplete",
            ),
            ResourceError::ResourceNotFound => String::from_str("Resource not found"),
            ResourceError::MalformedVersion => String::from_str(
                "The resource version is not a dotted number",
            ),
            ResourceError::DecodeError => String::from_str(
                "The bytes do not hold a resource header",
            ),
            ResourceError::Compression => String::from_str(
                "The resource could not be compressed or decompressed",
            ),
        }
    }
}

} // verus!
