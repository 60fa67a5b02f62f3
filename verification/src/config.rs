//! The free-form configuration files: their text is carried whole, with
//! only the scope attached; no parsing applies to them.

use vstd::prelude::*;

verus! {

/// The full text of one configuration file together with its scope.
#[derive(Debug, Clone)]
pub struct ConfigContent {
    pub content: String,
    pub shared: bool,
}

/// Pairs a file's text, or an empty text for an absent file, with its
/// scope.
pub fn make_config_content(content: String, shared: bool) -> (r: ConfigContent)
    ensures
        r.content@ == content@,
        r.shared == shared,
{
    ConfigContent { content, shared }
}

} // verus!
