//! Explicit configuration for locating the bundled OCR executable —
//! in place of process-wide mutable state.

use vstd::prelude::*;

use crate::models::VaultError;

verus! {

/// Where the application's bundled resources live, once known.
pub struct ResourceConfig {
    pub resource_dir: Option<String>,
}

impl ResourceConfig {
    /// A configuration with no resource directory yet.
    pub fn new() -> (r: ResourceConfig)
        ensures
            r.resource_dir is None,
    {
        ResourceConfig { resource_dir: None }
    }

    /// Records (or clears) the resource directory.
    pub fn set_resource_dir(&mut self, resource_dir: Option<String>)
        ensures
            final(self).resource_dir == resource_dir,
    {
        self.resource_dir = resource_dir;
    }

    /// The path of the OCR executable under the resource directory,
    /// composed with `/` separators; fails where no resource directory
    /// has been recorded.
    pub fn get_tesseract_path(&self) -> (r: Result<String, VaultError>)
        ensures
            match r {
                Ok(p) => self.resource_dir is Some && p@ == self.resource_dir->0@
                    + "/tesseract/tesseract.exe"@,
                Err(e) => self.resource_dir is None && e == VaultError::NotFound,
            },
    {
        match &self.resource_dir {
            Some(d) => {
                let mut s = d.clone();
                s.append("/tesseract/tesseract.exe");
                Ok(s)
            },
            None => Err(VaultError::NotFound),
        }
    }
}

} // verus!
