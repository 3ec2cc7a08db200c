use vstd::prelude::*;

verus! {

/// The configuration setting that names the default cache file.
pub const CACHE_PATH_SETTING: &'static str = "CACHE_DEFAULT";

/// The file used when no path is configured.
pub open spec fn fallback_path() -> Seq<char> {
    "./.cache.json"@
}

/// The default cache path: the configured one when there is one, else the
/// fixed relative file name.
pub fn default_cache_path(configured: Option<String>) -> (r: String)
    ensures
        r@ == match configured {
            Some(p) => p@,
            None => fallback_path(),
        },
{
    match configured {
        Some(p) => p,
        None => "./.cache.json".to_owned(),
    }
}

} // verus!
