//! A scratch list of typed entries: each save appends the trimmed text,
//! each delete drops one entry by position.

use vstd::prelude::*;

use crate::text::{trim, trimmed};

verus! {

pub struct Saver {
    /// The entries saved so far, oldest first.
    pub saved: Vec<String>,
}

impl Saver {
    pub fn new() -> (r: Self)
        ensures
            r.saved@.len() == 0,
    {
        Saver { saved: Vec::new() }
    }

    /// Saves `text` without its surrounding white space, unless nothing is
    /// left of it. Returns whether an entry was added, in which case the
    /// window empties its input.
    pub fn save(&mut self, text: &str) -> (added: bool)
        ensures
            added == (trim(text@).len() > 0),
            added ==> final(self).saved@.len() == old(self).saved@.len() + 1,
            added ==> final(self).saved@.take(old(self).saved@.len() as int) == old(self).saved@,
            added ==> final(self).saved@.last()@ == trim(text@),
            !added ==> final(self).saved@ == old(self).saved@,
    {
        let text = trimmed(text);
        if text.is_empty() {
            return false;
        }
        let ghost before = self.saved@;
        self.saved.push(String::from_str(text));
        assert(self.saved@.take(before.len() as int) =~= before);
        true
    }

    /// Drops the entry at `index`.
    pub fn delete(&mut self, index: usize)
        requires
            index < old(self).saved@.len(),
        ensures
            final(self).saved@ == old(self).saved@.remove(index as int),
    {
        self.saved.remove(index);
    }
    /// The entries as the window lists them: newest first, each with the
    /// position that deletes it.
    pub fn listed(&self) -> (r: Vec<(usize, String)>)
        ensures
            r@.len() == self.saved@.len(),
            forall|k: int|
                0 <= k < r@.len() ==> (#[trigger] r@[k]).0 == self.saved@.len() - 1 - k && r@[k].1
                    == self.saved@[self.saved@.len() - 1 - k],
    {
        let n = self.saved.len();
        let mut out: Vec<(usize, String)> = Vec::new();
        let mut k: usize = 0;
        while k < n
            invariant
                k <= n == self.saved@.len(),
                out@.len() == k,
                forall|m: int|
                    0 <= m < k ==> (#[trigger] out@[m]).0 == n - 1 - m && out@[m].1 == self.saved@[n
                        - 1 - m],
            decreases n - k,
        {
            let index = n - 1 - k;
            out.push((index, self.saved[index].clone()));
            k = k + 1;
        }
        out
    }
}

} // verus!
