use vstd::prelude::*;

verus! {

/// The set of physical objects already accounted for during one run.
/// A single tracker spans all root arguments and all recursive descent, which
/// is what collapses hard links, overlapping roots and re-reached paths to a
/// single counted object each.
pub struct IdentityTracker {
    seen: Vec<(u64, u64)>,
}

impl View for IdentityTracker {
    type V = Set<(u64, u64)>;

    closed spec fn view(&self) -> Set<(u64, u64)> {
        self.seen@.to_set()
    }
}

impl IdentityTracker {
    /// A fresh tracker: nothing observed yet.
    pub fn new() -> (t: IdentityTracker)
        ensures
            t@ == Set::<(u64, u64)>::empty(),
    {
        let t = IdentityTracker { seen: Vec::new() };
        proof {
            assert(t.seen@.to_set() =~= Set::<(u64, u64)>::empty());
        }
        t
    }

    /// Records one physical identity. Returns true exactly when it had not
    /// been observed before; the caller must skip the entry entirely on
    /// false.
    pub fn observe(&mut self, device: u64, inode: u64) -> (fresh: bool)
        ensures
            fresh == !old(self)@.contains((device, inode)),
            final(self)@ == old(self)@.insert((device, inode)),
    {
        let mut i: usize = 0;
        while i < self.seen.len()
            invariant
                0 <= i <= self.seen.len(),
                forall|k: int| 0 <= k < i ==> self.seen@[k] != (device, inode),
            decreases self.seen.len() - i,
        {
            let t = self.seen[i];
            if t.0 == device && t.1 == inode {
                proof {
                    assert(self.seen@[i as int] == (device, inode));
                    assert(self.seen@.contains((device, inode)));
                    assert(self@.insert((device, inode)) =~= self@);
                }
                return false;
            }
            proof {
                assert(self.seen@[i as int] == t);
            }
            i += 1;
        }
        proof {
            assert(!self.seen@.contains((device, inode)));
        }
        let ghost before = self.seen@;
        self.seen.push((device, inode));
        proof {
            assert forall|x: (u64, u64)|
                self.seen@.contains(x) <==> (before.contains(x) || x == (device, inode)) by {
                if before.contains(x) {
                    let k = choose|k: int| 0 <= k < before.len() && before[k] == x;
                    assert(self.seen@[k] == x);
                }
                if x == (device, inode) {
                    assert(self.seen@[before.len() as int] == x);
                }
                if self.seen@.contains(x) {
                    let k = choose|k: int| 0 <= k < self.seen@.len() && self.seen@[k] == x;
                    if k < before.len() {
                        assert(before[k] == x);
                    }
                }
            }
            assert(self@ =~= before.to_set().insert((device, inode)));
        }
        true
    }
}

} // verus!
