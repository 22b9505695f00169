//! Validation of the directory under which the meta service keeps its data.
use vstd::prelude::*;
use vstd::string::StringSliceAdditionalSpecFns;

verus! {

/// The characters a data directory may hold, one or more of them.
pub const DATA_DIRECTORY_PATTERN: &'static str = r"^[0-9a-zA-Z_/-]{1,}$";

/// The longest data directory accepted, in bytes.
pub const MAX_DATA_DIRECTORY_LEN: usize = 800;

/// Whether `text` holds a match of the regular expression `pattern`.
pub uninterp spec fn regex_matches(pattern: Seq<char>, text: Seq<char>) -> bool;

/// Relies on `regex::Regex::new` to compile `pattern` (an error, hence `None`,
/// only when it is invalid or compiles past the default size limit) and on
/// `Regex::is_match` to tell whether `text` holds a match. The data directory
/// pattern is a valid one-class regex far below that limit, so it compiles.
#[verifier::external_body]
fn regex_is_match(pattern: &str, text: &str) -> (r: Option<bool>)
    ensures
        r matches Some(b) ==> b == regex_matches(pattern@, text@),
        pattern@ == DATA_DIRECTORY_PATTERN@ ==> r is Some,
{
    match regex::Regex::new(pattern) {
        Ok(re) => Some(re.is_match(text)),
        Err(_) => None,
    }
}

/// The shape rules on the bytes of a data directory: not empty, at most
/// `MAX_DATA_DIRECTORY_LEN` bytes, neither starting nor ending with `/`, and no `//`.
pub open spec fn layout_ok(b: Seq<u8>) -> bool {
    &&& 0 < b.len() <= MAX_DATA_DIRECTORY_LEN
    &&& b[0] != 0x2f
    &&& b.last() != 0x2f
    &&& forall|i: int| 0 <= i < b.len() - 1 ==> !(#[trigger] b[i] == 0x2f && b[i + 1] == 0x2f)
}

/// Whether a data directory is acceptable, given whether it matched
/// `DATA_DIRECTORY_PATTERN`.
pub fn data_directory_ok(data_directory: &str, pattern_matched: bool) -> (r: bool)
    ensures
        r == (pattern_matched && layout_ok(data_directory.spec_bytes())),
{
    let b = data_directory.as_bytes();
    let n = b.len();
    if n == 0 || !pattern_matched || b[n - 1] == 0x2f || b[0] == 0x2f || n > MAX_DATA_DIRECTORY_LEN {
        return false;
    }
    let mut i: usize = 0;
    while i + 1 < n
        invariant
            b@ == data_directory.spec_bytes(),
            n == b@.len(),
            0 < n,
            i < n,
            forall|k: int| 0 <= k < i ==> !(#[trigger] b@[k] == 0x2f && b@[k + 1] == 0x2f),
        decreases n - i,
    {
        if b[i] == 0x2f && b[i + 1] == 0x2f {
            return false;
        }
        i += 1;
    }
    true
}

/// Whether the meta service may keep its data under `data_directory`: it must
/// match `DATA_DIRECTORY_PATTERN` and satisfy `layout_ok`.
pub fn is_correct_data_directory(data_directory: &str) -> (r: bool)
    ensures
        r == (regex_matches(DATA_DIRECTORY_PATTERN@, data_directory@) && layout_ok(
            data_directory.spec_bytes(),
        )),
{
    match regex_is_match(DATA_DIRECTORY_PATTERN, data_directory) {
        Some(matched) => data_directory_ok(data_directory, matched),
        None => false,
    }
}

} // verus!
