//! Project providers: the kinds of project a reservoir can be set up for.

use vstd::prelude::*;
use crate::text::{chars_of, eq_ignore_ascii_case, eq_ignore_ascii_case_exec, lit};

verus! {

/// What a project provider offers: its name, whether its tools are installed,
/// and the default `dam.toml` profile for a project.
pub trait Provider {
    fn name(&self) -> &'static str;

    fn check_environment(&self) -> bool;

    fn default_toml(&self, project_name: &str) -> String;
}

/// The known kinds of project.
#[derive(PartialEq, Eq, Structural, Debug, Clone, Copy)]
pub enum ProviderKind {
    Flutter,
    Firebase,
    Python,
    Custom,
}

/// The provider for a name: `flutter`, `firebase` or `python` in any letter
/// case (the name is lower-cased first, and only ASCII letters lower-case to
/// these), anything else the custom provider.
pub fn get_provider(name: &str) -> (r: ProviderKind)
    ensures
        r == if eq_ignore_ascii_case(name@, "flutter"@) {
            ProviderKind::Flutter
        } else if eq_ignore_ascii_case(name@, "firebase"@) {
            ProviderKind::Firebase
        } else if eq_ignore_ascii_case(name@, "python"@) {
            ProviderKind::Python
        } else {
            ProviderKind::Custom
        },
{
    let n = chars_of(name);
    if eq_ignore_ascii_case_exec(n.as_slice(), lit("flutter").as_slice()) {
        ProviderKind::Flutter
    } else if eq_ignore_ascii_case_exec(n.as_slice(), lit("firebase").as_slice()) {
        ProviderKind::Firebase
    } else if eq_ignore_ascii_case_exec(n.as_slice(), lit("python").as_slice()) {
        ProviderKind::Python
    } else {
        ProviderKind::Custom
    }
}

} // verus!
