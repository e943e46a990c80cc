//! The i18n libraries whose translation files can be loaded.
use vstd::prelude::*;

verus! {

/// An i18n library.
#[derive(Clone, Copy, Debug, PartialEq, Eq, Hash, Structural)]
pub enum LoadersKind {
    RustI18n,
}

impl LoadersKind {
    /// The library's name as users write it.
    pub fn label(&self) -> (r: &'static str)
        ensures
            *self == LoadersKind::RustI18n ==> r@ == "rust-i18n"@,
    {
        match self {
            LoadersKind::RustI18n => "rust-i18n",
        }
    }
}

} // verus!
