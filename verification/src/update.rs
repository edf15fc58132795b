//! The update consumer's decisions: a persisted document carries a version
//! counter and a marker string; a remote index names the edit scripts to
//! fetch.  A changed marker forces a full re-sync; otherwise only the
//! scripts past the stored counter are still to be applied.

use vstd::prelude::*;
use crate::pointer::strs_model;

verus! {

/// The remote index record: an identity marker and the ordered list of
/// script locations.
pub struct UpdateService {
    pub marker: String,
    pub index: Vec<String>,
}

impl UpdateService {
    /// A differing marker resets the local version counter to zero.
    pub fn needs_reset(&self, stored_marker: &String) -> (r: bool)
        ensures
            r == (self.marker@ != stored_marker@),
    {
        !self.marker.eq(stored_marker)
    }

    /// The script locations not yet applied: those from the stored counter
    /// to the end of the index, in order.
    #[verifier::loop_isolation(false)]
    pub fn pending(&self, db_ver: u64) -> (r: Vec<String>)
        ensures
            ({
                let idx = strs_model(self.index@);
                let start: int = if db_ver as int <= idx.len() {
                    db_ver as int
                } else {
                    idx.len() as int
                };
                strs_model(r@) == idx.subrange(start, idx.len() as int)
            }),
    {
        let l = self.index.len();
        let mut out: Vec<String> = Vec::new();
        if db_ver >= l as u64 {
            proof {
                let idx = strs_model(self.index@);
                assert(strs_model(out@) =~= idx.subrange(idx.len() as int, idx.len() as int));
            }
            return out;
        }
        let start = db_ver as usize;
        for i in start..l
            invariant
                start <= i <= l,
                l == self.index@.len(),
                strs_model(out@) =~= strs_model(self.index@).subrange(start as int, i as int),
            decreases l - i,
        {
            out.push(self.index[i].clone());
            proof {
                assert(strs_model(out@) =~= strs_model(self.index@).subrange(
                    start as int,
                    i + 1,
                ));
            }
        }
        out
    }
}

} // verus!
