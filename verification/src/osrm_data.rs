//! Road-network dataset preparation data: the region naming scheme and
//! the dataset layout. The download and preprocessing steps themselves
//! are operational plumbing and live outside the verified core; here are
//! the pure pieces: region names, download URLs and path file names.

use vstd::prelude::*;
use vstd::string::{StrSliceExecFns, StringExecFns};

verus! {

/// The characters after the last `/`; the whole string when it has none.
pub open spec fn spec_after_last_slash(s: Seq<char>) -> Seq<char>
    decreases s.len(),
{
    if s.len() == 0 {
        s
    } else if s.last() == '/' {
        Seq::empty()
    } else {
        spec_after_last_slash(s.drop_last()).push(s.last())
    }
}

/// The suffix of `s` after its last `/`, as an owned string.
#[verifier::loop_isolation(false)]
fn after_last_slash(s: &str) -> (r: String)
    ensures
        r@ == spec_after_last_slash(s@),
{
    let n = s.unicode_len();
    let mut start: usize = 0;
    let mut i: usize = 0;
    proof {
        assert(s@.take(0) =~= Seq::<char>::empty());
        assert(s@.subrange(0, 0) =~= Seq::<char>::empty());
    }
    while i < n
        invariant
            i <= n,
            start <= i,
            spec_after_last_slash(s@.take(i as int)) == s@.subrange(start as int, i as int),
        decreases n - i,
    {
        let c = s.get_char(i);
        proof {
            assert(s@.take(i as int + 1).drop_last() =~= s@.take(i as int));
            assert(s@.take(i as int + 1).last() == s@[i as int]);
        }
        if c == '/' {
            start = i + 1;
            proof {
                assert(s@.subrange(i as int + 1, i as int + 1) =~= Seq::<char>::empty());
            }
        } else {
            proof {
                assert(s@.subrange(start as int, i as int).push(s@[i as int]) =~= s@.subrange(
                    start as int,
                    i as int + 1,
                ));
            }
        }
        i = i + 1;
    }
    proof {
        assert(s@.take(n as int) =~= s@);
    }
    let sub = s.substring_char(start, n);
    <String as StringExecFns>::from_str(sub)
}

/// A region of the public map-extract mirror, named by its path, e.g.
/// `north-america/us/nevada`.
#[derive(Debug, Clone)]
pub struct GeofabrikRegion {
    pub path: String,
}

impl GeofabrikRegion {
    pub fn new(path: String) -> (r: Self)
        ensures
            r.path@ == path@,
    {
        GeofabrikRegion { path }
    }

    /// The region's short name: the last component of its path.
    pub fn name(&self) -> (r: String)
        ensures
            r@ == spec_after_last_slash(self.path@),
    {
        after_last_slash(self.path.as_str())
    }

    /// The download URL of the region's latest map extract.
    pub fn url(&self) -> (r: String)
        ensures
            r@ == "https://download.geofabrik.de/"@ + self.path@ + "-latest.osm.pbf"@,
    {
        let mut s = <String as StringExecFns>::from_str("https://download.geofabrik.de/");
        s.append(self.path.as_str());
        s.append("-latest.osm.pbf");
        s
    }
}

/// How the dataset is preprocessed for the routing engine.
#[derive(Debug, Clone, Copy)]
pub enum OsrmPrepMode {
    Mld,
}

/// Where and how to prepare a dataset.
#[derive(Debug, Clone)]
pub struct OsrmDatasetConfig {
    pub region: GeofabrikRegion,
    pub data_root: String,
    pub mode: OsrmPrepMode,
}

impl OsrmDatasetConfig {
    pub fn new(region: GeofabrikRegion, data_root: String) -> (r: Self)
        ensures
            r.region.path@ == region.path@,
            r.data_root@ == data_root@,
            r.mode == OsrmPrepMode::Mld,
    {
        OsrmDatasetConfig { region, data_root, mode: OsrmPrepMode::Mld }
    }
}

/// The paths of a prepared dataset.
#[derive(Debug, Clone)]
pub struct OsrmDataset {
    pub data_dir: String,
    pub osrm_base: String,
    pub pbf_path: String,
}

/// The file-name component of a `/`-separated path.
pub fn file_name(path: &String) -> (r: String)
    ensures
        r@ == spec_after_last_slash(path@),
{
    after_last_slash(path.as_str())
}

} // verus!
