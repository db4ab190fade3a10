//! The process-wide configuration: named buckets, the fan-out bound of the
//! block tree, where the root directory lives, and the services to start.

use vstd::prelude::*;
use rand::Rng;
use crate::bucket::Bucket;
use crate::service::ServiceType;

verus! {

/// Relies on rand::Rng::gen_range over rand::thread_rng: an index chosen at
/// random below `n` (the range is not empty, so it does not panic).
#[verifier::external_body]
fn random_below(n: usize) -> (r: usize)
    requires
        n > 0,
    ensures
        r < n,
{
    rand::thread_rng().gen_range(0..n)
}

pub fn default_direct_block_count() -> (r: usize)
    ensures
        r == 10,
{
    10
}

pub fn default_root_path() -> (r: String)
    ensures
        r@ == "./root.dat"@,
{
    proof {
        reveal_strlit("./root.dat");
    }
    "./root.dat".to_string()
}

/// Configuration shared by every operation; immutable once loaded.
#[derive(Clone, Debug)]
pub struct Global {
    /// Buckets by name; no name occurs twice.
    pub buckets: Vec<(String, Bucket)>,
    /// Most Direct children of one Indirect block.
    pub direct_block_count: usize,
    pub root_path: String,
    pub services: Vec<ServiceType>,
}

/// Whether `name` is in `names`.
pub open spec fn listed(names: Seq<String>, name: Seq<char>) -> bool {
    exists|k: int| 0 <= k < names.len() && #[trigger] names[k]@ == name
}

impl Global {
    /// Bucket names are unique.
    pub open spec fn wf(&self) -> bool {
        forall|i: int, j: int|
            0 <= i < self.buckets@.len() && 0 <= j < self.buckets@.len() && i != j
                ==> #[trigger] self.buckets@[i].0@ != #[trigger] self.buckets@[j].0@
    }

    /// Whether a bucket of that name is configured.
    pub open spec fn has_bucket(&self, name: Seq<char>) -> bool {
        exists|i: int| 0 <= i < self.buckets@.len() && #[trigger] self.buckets@[i].0@ == name
    }

    /// Whether bucket `i` may take a blob of `min_size` bytes and is not
    /// excluded.
    pub open spec fn eligible(&self, i: int, min_size: nat, exclude: Seq<String>) -> bool {
        &&& 0 <= i < self.buckets@.len()
        &&& self.buckets@[i].1.spec_max_size() >= min_size
        &&& !listed(exclude, self.buckets@[i].0@)
    }

    /// The bucket called `name`.
    pub fn get_bucket(&self, name: &String) -> (r: Option<&Bucket>)
        ensures
            r is None <==> !self.has_bucket(name@),
            r matches Some(b) ==> exists|i: int|
                0 <= i < self.buckets@.len() && #[trigger] self.buckets@[i].0@ == name@ && *b
                    == self.buckets@[i].1,
    {
        let mut i: usize = 0;
        while i < self.buckets.len()
            invariant
                i <= self.buckets@.len(),
                forall|k: int| 0 <= k < i ==> #[trigger] self.buckets@[k].0@ != name@,
            decreases self.buckets@.len() - i,
        {
            if self.buckets[i].0 == *name {
                return Some(&self.buckets[i].1);
            }
            i = i + 1;
        }
        None
    }

    /// Names of all buckets, in configuration order.
    pub fn list_buckets(&self) -> (r: Vec<String>)
        ensures
            r@.len() == self.buckets@.len(),
            forall|i: int| 0 <= i < r@.len() ==> #[trigger] r@[i]@ == self.buckets@[i].0@,
    {
        let mut names: Vec<String> = Vec::new();
        let mut i: usize = 0;
        while i < self.buckets.len()
            invariant
                i <= self.buckets@.len(),
                names@.len() == i,
                forall|k: int| 0 <= k < i ==> #[trigger] names@[k]@ == self.buckets@[k].0@,
            decreases self.buckets@.len() - i,
        {
            names.push(self.buckets[i].0.clone());
            i = i + 1;
        }
        names
    }

    fn is_listed(names: &Vec<String>, name: &String) -> (r: bool)
        ensures
            r == listed(names@, name@),
    {
        let mut k: usize = 0;
        while k < names.len()
            invariant
                k <= names@.len(),
                forall|j: int| 0 <= j < k ==> #[trigger] names@[j]@ != name@,
            decreases names@.len() - k,
        {
            if names[k] == *name {
                return true;
            }
            k = k + 1;
        }
        false
    }

    /// A bucket chosen at random among those whose max size is at least
    /// `min_size` and whose name is not in `exclude`; none when there is no
    /// such bucket.
    pub fn next_bucket(&self, min_size: usize, exclude: &Vec<String>) -> (r: Option<String>)
        ensures
            r is None <==> !exists|i: int| self.eligible(i, min_size as nat, exclude@),
            r matches Some(name) ==> exists|i: int|
                #[trigger] self.eligible(i, min_size as nat, exclude@) && self.buckets@[i].0@
                    == name@,
    {
        let mut candidates: Vec<usize> = Vec::new();
        let mut i: usize = 0;
        while i < self.buckets.len()
            invariant
                i <= self.buckets@.len(),
                forall|k: int|
                    0 <= k < candidates@.len() ==> #[trigger] self.eligible(
                        candidates@[k] as int,
                        min_size as nat,
                        exclude@,
                    ),
                forall|j: int|
                    0 <= j < i && #[trigger] self.eligible(j, min_size as nat, exclude@)
                        ==> exists|k: int| 0 <= k < candidates@.len() && candidates@[k] == j,
            decreases self.buckets@.len() - i,
        {
            let ghost before = candidates@;
            if self.buckets[i].1.max_size() >= min_size && !Global::is_listed(
                exclude,
                &self.buckets[i].0,
            ) {
                candidates.push(i);
                assert(candidates@[candidates@.len() - 1] == i);
            }
            assert forall|j: int|
                0 <= j < i + 1 && #[trigger] self.eligible(
                    j,
                    min_size as nat,
                    exclude@,
                ) implies exists|k: int| 0 <= k < candidates@.len() && candidates@[k] == j by {
                if j < i {
                    let k = choose|k: int| 0 <= k < before.len() && before[k] == j;
                    assert(candidates@[k] == j);
                } else {
                    assert(candidates@[candidates@.len() - 1] == j);
                }
            }
            i = i + 1;
        }
        if candidates.len() == 0 {
            assert forall|j: int| !self.eligible(j, min_size as nat, exclude@) by {
                if self.eligible(j, min_size as nat, exclude@) {
                    assert(0 <= j < i);
                }
            }
            return None;
        }
        let k = random_below(candidates.len());
        let chosen = candidates[k];
        assert(self.eligible(chosen as int, min_size as nat, exclude@));
        Some(self.buckets[chosen].0.clone())
    }

    /// A bucket chosen at random among all; none when there are none.
    pub fn random_bucket(&self) -> (r: Option<String>)
        ensures
            r is None <==> self.buckets@.len() == 0,
            r matches Some(name) ==> self.has_bucket(name@),
    {
        if self.buckets.len() == 0 {
            return None;
        }
        let k = random_below(self.buckets.len());
        let name = self.buckets[k].0.clone();
        assert(self.buckets@[k as int].0@ == name@);
        Some(name)
    }
}

} // verus!
