//! Where the cache file lies by default.

use vstd::prelude::*;
use vstd::string::StringExecFns;

verus! {

/// The place of a cache file: a directory to start from, the directories to
/// go down through from there, and the name of the file.
#[derive(Debug)]
pub struct CacheLocation {
    /// The directory to start from.
    pub base: String,
    /// The directories to go down through, in order.
    pub below: Vec<String>,
    /// The name of the cache file.
    pub file_name: String,
    /// Whether the directory of the cache file is to be created at once.
    pub create_dir: bool,
}

/// The default place of the cache file.
///
/// It lies in the directory `cache_dir` where one is given. Otherwise it lies
/// in `.cache/acme-disk-use` under the home directory `home` where one is
/// given, and else under the working directory, where that directory is to
/// be created at once. The file is named `cache.bin`.
pub open spec fn default_location(
    location: CacheLocation,
    cache_dir: Option<String>,
    home: Option<String>,
) -> bool {
    &&& location.file_name@ == "cache.bin"@
    &&& match (cache_dir, home) {
        (Some(dir), _) => {
            &&& location.base@ == dir@
            &&& location.below@.len() == 0
            &&& !location.create_dir
        },
        (None, Some(dir)) => {
            &&& location.base@ == dir@
            &&& location.below@.len() == 2
            &&& location.below@[0]@ == ".cache"@
            &&& location.below@[1]@ == "acme-disk-use"@
            &&& !location.create_dir
        },
        (None, None) => {
            &&& location.base@ == "./.cache/acme-disk-use"@
            &&& location.below@.len() == 0
            &&& location.create_dir
        },
    }
}

/// The default place of the cache file, from the directory that the
/// environment names for the cache, if it names one, and the home directory,
/// if there is one.
pub fn get_default_cache_path(cache_dir: Option<String>, home: Option<String>) -> (location:
    CacheLocation)
    ensures
        default_location(location, cache_dir, home),
{
    let file_name = String::from_str("cache.bin");
    match cache_dir {
        Some(dir) => CacheLocation { base: dir, below: Vec::new(), file_name, create_dir: false },
        None => match home {
            Some(dir) => {
                let mut below: Vec<String> = Vec::new();
                below.push(String::from_str(".cache"));
                below.push(String::from_str("acme-disk-use"));
                CacheLocation { base: dir, below, file_name, create_dir: false }
            },
            None => CacheLocation {
                base: String::from_str("./.cache/acme-disk-use"),
                below: Vec::new(),
                file_name,
                create_dir: true,
            },
        },
    }
}

} // verus!
