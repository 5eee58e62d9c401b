//! Resolving a file's cluster message handles through windowed near-id
//! fetches.
//!
//! The backing store cannot look a message up by its handle; it can only
//! return a window of messages around one.  The resolver keeps the
//! still-unresolved handle per cluster index, names the handle to center
//! the next window on, and matches every fetched message against the
//! unresolved set.  A window that does not contain the handle it was
//! centered on means the store has lost that message: the job fails with
//! `NotFoundRemote`.

use crate::errors::DownloadError;
use vstd::prelude::*;

verus! {

/// The first index holding `Some(id)`, if any.
pub open spec fn find_slot(s: Seq<Option<u64>>, id: u64) -> Option<int>
    decreases s.len(),
{
    if s.len() == 0 {
        None
    } else if s[0] == Some(id) {
        Some(0)
    } else {
        match find_slot(s.drop_first(), id) {
            Some(i) => Some(i + 1),
            None => None,
        }
    }
}

/// One message id applied to the unresolved set: the first slot holding it
/// is cleared.
pub open spec fn resolve_step(s: Seq<Option<u64>>, id: u64) -> Seq<Option<u64>> {
    match find_slot(s, id) {
        Some(i) => s.update(i, None),
        None => s,
    }
}

/// The unresolved set after the first `i` messages of a window.
pub open spec fn resolve_prefix(s: Seq<Option<u64>>, ids: Seq<u64>, i: int) -> Seq<
    Option<u64>,
>
    decreases i,
{
    if i <= 0 {
        s
    } else {
        resolve_step(resolve_prefix(s, ids, i - 1), ids[i - 1])
    }
}

/// The matches the first `i` messages of a window produce: for each
/// message whose id is still unresolved, the cluster index it resolves.
pub open spec fn match_prefix(s: Seq<Option<u64>>, ids: Seq<u64>, i: int) -> Seq<
    (int, int),
>
    decreases i,
{
    if i <= 0 {
        Seq::empty()
    } else {
        let prev = match_prefix(s, ids, i - 1);
        match find_slot(resolve_prefix(s, ids, i - 1), ids[i - 1]) {
            Some(idx) => prev.push((i - 1, idx)),
            None => prev,
        }
    }
}

/// The first unresolved handle, scanning from cluster index 0.
pub open spec fn first_some(s: Seq<Option<u64>>) -> Option<u64>
    decreases s.len(),
{
    if s.len() == 0 {
        None
    } else if s[0] is Some {
        Some(s[0]->0)
    } else {
        first_some(s.drop_first())
    }
}

/// How many handles are still unresolved.
pub open spec fn count_some(s: Seq<Option<u64>>) -> int
    decreases s.len(),
{
    if s.len() == 0 {
        0
    } else {
        count_some(s.drop_first()) + if s[0] is Some {
            1int
        } else {
            0int
        }
    }
}

/// Tracks which cluster handles of one file are still unresolved.  Slot
/// `i` holds cluster `i`'s message handle until a fetched window resolves
/// it.
pub struct HandleResolver {
    pending: Vec<Option<u64>>,
}

impl View for HandleResolver {
    type V = Seq<Option<u64>>;

    closed spec fn view(&self) -> Seq<Option<u64>> {
        self.pending@
    }
}

impl HandleResolver {
    /// A resolver with every cluster handle unresolved, in cluster order.
    pub fn new(ids: &Vec<u64>) -> (r: HandleResolver)
        ensures
            r@.len() == ids@.len(),
            forall|i: int| 0 <= i < ids@.len() ==> r@[i] == Some(#[trigger] ids@[i]),
    {
        let mut pending: Vec<Option<u64>> = Vec::new();
        let mut i: usize = 0;
        while i < ids.len()
            invariant
                0 <= i <= ids@.len(),
                pending@.len() == i,
                forall|j: int| 0 <= j < i ==> pending@[j] == Some(#[trigger] ids@[j]),
            decreases ids@.len() - i,
        {
            pending.push(Some(ids[i]));
            i = i + 1;
        }
        HandleResolver { pending }
    }

    /// How many handles are still unresolved.
    pub fn remaining(&self) -> (r: usize)
        ensures
            r as int == count_some(self@),
    {
        let mut n: usize = 0;
        let mut i: usize = 0;
        let len = self.pending.len();
        while i < len
            invariant
                0 <= i <= len,
                len == self@.len(),
                n as int == count_some(self@.take(i as int)),
                n <= i,
            decreases len - i,
        {
            proof {
                lemma_count_some_take_step(self@, i as int);
            }
            if self.pending[i].is_some() {
                n = n + 1;
            }
            i = i + 1;
        }
        proof {
            assert(self@.take(len as int) =~= self@);
        }
        n
    }

    /// The handle to center the next fetch window on: the first
    /// unresolved one, in cluster order.  `None` when resolution is done.
    pub fn first_unresolved(&self) -> (r: Option<u64>)
        ensures
            r == first_some(self@),
    {
        let mut i: usize = 0;
        let len = self.pending.len();
        proof {
            assert(self@.skip(0) =~= self@);
        }
        while i < len
            invariant
                0 <= i <= len,
                len == self@.len(),
                forall|j: int| 0 <= j < i ==> self@[j] is None,
                first_some(self@) == first_some(self@.skip(i as int)),
            decreases len - i,
        {
            match self.pending[i] {
                Some(id) => {
                    proof {
                        assert(self@.skip(i as int)[0] == self@[i as int]);
                    }
                    return Some(id);
                },
                None => {
                    proof {
                        assert(self@.skip(i as int)[0] == self@[i as int]);
                        assert(self@.skip(i as int).drop_first() =~= self@.skip(i + 1));
                    }
                },
            }
            i = i + 1;
        }
        proof {
            assert(self@.skip(len as int).len() == 0);
        }
        None
    }

    /// Applies one fetched window.  Every message whose id matches a
    /// still-unresolved handle resolves that handle's cluster: the result
    /// pairs each such message's position in the window with its cluster
    /// index, in window order.  If the window does not contain `center` —
    /// the handle it was fetched around — the store has lost that message
    /// and the job fails with `NotFoundRemote`; matches found in such a
    /// window are recorded but discarded with the failing job.
    pub fn apply_window(&mut self, center: u64, ids: &Vec<u64>) -> (r: Result<
        Vec<(usize, usize)>,
        DownloadError,
    >)
        ensures
            r matches Ok(ms) ==> {
                &&& (exists|k: int| 0 <= k < ids@.len() && ids@[k] == center)
                &&& final(self)@ == resolve_prefix(
                    old(self)@,
                    ids@,
                    ids@.len() as int,
                )
                &&& ms@.map_values(|m: (usize, usize)| (m.0 as int, m.1 as int))
                    == match_prefix(old(self)@, ids@, ids@.len() as int)
            },
            r matches Err(e) ==> {
                &&& e == DownloadError::NotFoundRemote
                &&& !(exists|k: int| 0 <= k < ids@.len() && ids@[k] == center)
                &&& final(self)@ == resolve_prefix(old(self)@, ids@, ids@.len() as int)
            },
    {
        let mut found = false;
        let mut i: usize = 0;
        let mut ms: Vec<(usize, usize)> = Vec::new();
        let ghost s0 = self@;
        while i < ids.len()
            invariant
                0 <= i <= ids@.len(),
                self@.len() == s0.len(),
                self@ == resolve_prefix(s0, ids@, i as int),
                ms@.map_values(|m: (usize, usize)| (m.0 as int, m.1 as int))
                    == match_prefix(s0, ids@, i as int),
                found == (exists|k: int| 0 <= k < i && ids@[k] == center),
            decreases ids@.len() - i,
        {
            let id = ids[i];
            if id == center {
                found = true;
            }
            let slot = self.find_pending(id);
            let ghost ms_pre = ms@;
            match slot {
                Some(idx) => {
                    self.pending[idx] = None;
                    ms.push((i, idx));
                    proof {
                        assert(self@ =~= resolve_step(
                            resolve_prefix(s0, ids@, i as int),
                            ids@[i as int],
                        ));
                        assert(ms@.map_values(
                            |m: (usize, usize)| (m.0 as int, m.1 as int),
                        ) =~= match_prefix(s0, ids@, i + 1));
                    }
                },
                None => {
                    proof {
                        assert(self@ == resolve_step(
                            resolve_prefix(s0, ids@, i as int),
                            ids@[i as int],
                        ));
                        assert(ms@.map_values(
                            |m: (usize, usize)| (m.0 as int, m.1 as int),
                        ) == match_prefix(s0, ids@, i + 1));
                    }
                },
            }
            i = i + 1;
        }
        proof {
            assert(ids@.take(ids@.len() as int) =~= ids@);
        }
        if found {
            Ok(ms)
        } else {
            Err(DownloadError::NotFoundRemote)
        }
    }

    /// Locates `id` among the unresolved slots.
    fn find_pending(&self, id: u64) -> (r: Option<usize>)
        ensures
            match r {
                Some(i) => find_slot(self@, id) == Some(i as int) && i < self@.len(),
                None => find_slot(self@, id) is None,
            },
    {
        let mut i: usize = 0;
        let len = self.pending.len();
        proof {
            assert(self@.skip(0) =~= self@);
        }
        while i < len
            invariant
                0 <= i <= len,
                len == self@.len(),
                find_slot(self@, id) == map_shift(
                    find_slot(self@.skip(i as int), id),
                    i as int,
                ),
                forall|j: int| 0 <= j < i ==> self@[j] != Some(id),
            decreases len - i,
        {
            proof {
                assert(self@.skip(i as int)[0] == self@[i as int]);
                assert(self@.skip(i as int).drop_first() =~= self@.skip(i + 1));
            }
            match self.pending[i] {
                Some(v) => {
                    if v == id {
                        return Some(i);
                    }
                },
                None => {},
            }
            i = i + 1;
        }
        proof {
            assert(self@.skip(len as int).len() == 0);
        }
        None
    }

}

/// Shifts an optional index by `n`.
pub open spec fn map_shift(o: Option<int>, n: int) -> Option<int> {
    match o {
        Some(i) => Some(i + n),
        None => None,
    }
}

/// `count_some` over a one-longer prefix.
proof fn lemma_count_some_take_step(s: Seq<Option<u64>>, i: int)
    requires
        0 <= i < s.len(),
    ensures
        count_some(s.take(i + 1)) == count_some(s.take(i)) + if s[i] is Some {
            1int
        } else {
            0int
        },
    decreases s.len(),
{
    lemma_count_some_last(s.take(i + 1));
    assert(s.take(i + 1).drop_last() =~= s.take(i));
}

/// `count_some` counted from the back.
proof fn lemma_count_some_last(s: Seq<Option<u64>>)
    requires
        s.len() > 0,
    ensures
        count_some(s) == count_some(s.drop_last()) + if s.last() is Some {
            1int
        } else {
            0int
        },
    decreases s.len(),
{
    assert(count_some(s) == count_some(s.drop_first()) + if s[0] is Some {
        1int
    } else {
        0int
    });
    if s.len() == 1 {
        assert(s.drop_last().len() == 0);
        assert(s.drop_first().len() == 0);
        assert(count_some(s.drop_last()) == 0);
        assert(count_some(s.drop_first()) == 0);
        assert(s.last() == s[0]);
    } else {
        lemma_count_some_last(s.drop_first());
        assert(s.drop_first().drop_last() =~= s.drop_last().drop_first());
        assert(s.drop_first().last() == s.last());
        assert(s.drop_last()[0] == s[0]);
        assert(count_some(s.drop_last()) == count_some(s.drop_last().drop_first())
            + if s.drop_last()[0] is Some {
                1int
            } else {
                0int
            });
    }
}

} // verus!
