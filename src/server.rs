//! What the package server decides: which packages it may serve together, and
//! the answer to a request for a path.
use vstd::prelude::*;
use vstd::string::*;

use crate::manifest::{Manifest, ManifestView, Type};
use crate::package::Package;
use crate::resolve::resolve;

verus! {

/// The settings of the server: where it listens, and the app and content
/// packages it serves.
pub struct Server {
    pub address: String,
    pub app: String,
    pub content: String,
}

/// A blob served with its content type.
#[derive(Clone, Debug, PartialEq, Eq)]
pub struct Resource {
    pub content_type: String,
    pub content: Vec<u8>,
}

impl Resource {
    pub fn new(content_type: String, content: Vec<u8>) -> (r: Self)
        ensures
            r.content_type@ == content_type@,
            r.content@ == content@,
    {
        Resource { content_type, content }
    }
}

/// A request that cannot be answered.
#[derive(Clone, Debug, PartialEq, Eq)]
pub enum ServerError {
    /// Nothing is stored under the requested path.
    NotFound { path: String },
}

/// Why two packages cannot be served together.
#[derive(Clone, Copy, Debug, PartialEq, Eq, Structural)]
pub enum StartError {
    /// The app package is not an app.
    AppType { ty: Type },
    /// The app does not handle the content's type.
    ContentType { content: Type, handles: Type },
}

/// Whether an app and a content package can be served together.
pub open spec fn start_check(app: ManifestView, content: ManifestView) -> Result<(), StartError> {
    match app {
        ManifestView::App { handles, .. } => if content.ty() == handles {
            Ok(())
        } else {
            Err(StartError::ContentType { content: content.ty(), handles })
        },
        ManifestView::Comic { .. } => Err(StartError::AppType { ty: app.ty() }),
    }
}

impl Server {
    /// Checks that `app` is an app that handles the type of `content`.
    pub fn check(app: &Manifest, content: &Manifest) -> (r: Result<(), StartError>)
        ensures
            r == start_check(app@, content@),
    {
        match app {
            Manifest::App { handles, .. } => {
                let ty = content.ty();
                if ty == *handles {
                    Ok(())
                } else {
                    Err(StartError::ContentType { content: ty, handles: *handles })
                }
            },
            Manifest::Comic { .. } => Err(StartError::AppType { ty: app.ty() }),
        }
    }

    /// Answers a request for `path` from `package`; a miss names the path
    /// as requested, `prefix` followed by `path`.
    pub fn file(package: &Package, prefix: &str, path: &str) -> (r: Result<Resource, ServerError>)
        ensures
            match resolve(package@, path@) {
                Some((t, b)) => r matches Ok(x) && x.content_type@ == t && x.content@ == b,
                None => r matches Err(ServerError::NotFound { path: p }) && p@ == prefix@ + path@,
            },
    {
        match package.file(path) {
            Some((content_type, content)) => Ok(Resource::new(content_type, content)),
            None => {
                let mut full = String::from_str(prefix);
                full.append(path);
                Err(ServerError::NotFound { path: full })
            },
        }
    }
}

} // verus!
