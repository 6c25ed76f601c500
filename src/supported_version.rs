use vstd::prelude::*;
use vstd::string::StrSliceExecFns;

verus! {

/// An API version of the resource that the conversion webhook serves.
#[derive(Clone, Copy, Debug, PartialEq, Eq, Structural)]
pub enum SupportedVersion {
    V1alpha1,
    V1alpha2,
}

/// The text is not a supported API version.
#[derive(Clone, Copy, Debug, PartialEq, Eq, Structural)]
pub struct UnexpectedVersion;

/// Whether two strings hold the same characters.
fn same_text(a: &str, b: &str) -> (r: bool)
    ensures
        r == (a@ == b@),
{
    let n = a.unicode_len();
    if n != b.unicode_len() {
        return false;
    }
    let mut i: usize = 0;
    while i < n
        invariant
            n == a@.len(),
            n == b@.len(),
            i <= n,
            forall|j: int| 0 <= j < i ==> a@[j] == b@[j],
        decreases n - i,
    {
        if a.get_char(i) != b.get_char(i) {
            return false;
        }
        i += 1;
    }
    assert(a@ =~= b@);
    true
}

impl SupportedVersion {
    /// The version that an `apiVersion` field names.
    pub fn from_api_version(value: &str) -> (r: Result<SupportedVersion, UnexpectedVersion>)
        ensures
            r == if value@ == "materialize.cloud/v1alpha1"@ {
                Ok::<SupportedVersion, UnexpectedVersion>(SupportedVersion::V1alpha1)
            } else if value@ == "materialize.cloud/v1alpha2"@ {
                Ok(SupportedVersion::V1alpha2)
            } else {
                Err(UnexpectedVersion)
            },
    {
        if same_text(value, "materialize.cloud/v1alpha1") {
            Ok(SupportedVersion::V1alpha1)
        } else if same_text(value, "materialize.cloud/v1alpha2") {
            Ok(SupportedVersion::V1alpha2)
        } else {
            Err(UnexpectedVersion)
        }
    }
}

} // verus!
