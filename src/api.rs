//! Values exchanged with clients of the store: request bodies and the
//! service description.

use vstd::prelude::*;
use crate::collection::Distance;

verus! {

/// The body of a request that creates a collection.
#[derive(Debug)]
pub struct CollectionData {
    /// Dimension of the vectors in the collection.
    pub dimension: usize,
    /// Distance metric used for querying.
    pub distance: Distance,
}

/// The body of a request that renames a collection.
#[derive(Debug)]
pub struct CollectionUpdate {
    /// New name.
    pub name: String,
}

/// The version of the running service.
#[derive(Debug)]
pub struct AppVersion {
    pub semver: String,
    pub rev: Option<String>,
    pub compile_time: String,
}

/// The description of the service at its root.
#[derive(Debug)]
pub struct RootResponse {
    /// Relative URL of the interactive documentation.
    pub docs_url: String,
    /// Relative URL of the OpenAPI document.
    pub openapi_url: String,
    /// Service version.
    pub version: AppVersion,
}

impl RootResponse {
    /// The description of a service of the given version.
    pub fn new(version: AppVersion) -> (r: RootResponse)
        ensures
            r.docs_url@ == "/docs"@,
            r.openapi_url@ == "/openapi.json"@,
            r.version == version,
    {
        let docs_url = "/docs".to_string();
        let openapi_url = "/openapi.json".to_string();
        proof {
            vstd::string::to_string_from_display_ensures_for_str("/docs", docs_url);
            vstd::string::to_string_from_display_ensures_for_str("/openapi.json", openapi_url);
        }
        RootResponse { docs_url, openapi_url, version }
    }
}

} // verus!
